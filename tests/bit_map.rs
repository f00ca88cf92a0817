use lsm_tree::bit_map::BitMap;

#[test]
fn test_put_some_values() {
    let mut bit_map = BitMap::new(12);

    for i in 0..12 {
        bit_map.set(i);
    }

    for i in 0..12 {
        assert!(bit_map.is_set(i));
    }

    for i in 0..12 {
        bit_map.reset(i);
    }

    for i in 0..12 {
        assert!(!bit_map.is_set(i));
    }
}

#[test]
fn test_size_not_multiple_of_byte() {
    let bit_map = BitMap::new(12);
    assert_eq!(bit_map.byte_size(), 2);

    let bit_map = BitMap::new(800);
    assert_eq!(bit_map.byte_size(), 100);
}

#[test]
fn bits_are_packed_least_significant_first() {
    let mut bit_map = BitMap::new(16);
    bit_map.set(0);
    bit_map.set(9);
    bit_map.set(15);
    assert_eq!(bit_map.as_bytes(), &vec![0b0000_0001u8, 0b1000_0010u8]);
    assert_eq!(bit_map.bit_size(), 16);
    assert!(!bit_map.is_set(1));
    bit_map.reset(9);
    assert_eq!(bit_map.as_bytes(), &vec![0b0000_0001u8, 0b1000_0000u8]);
}
