use lsm_tree::bloom_filter::BloomFilter;
use std::collections::BTreeSet;

/// Bits and hash functions for `planned_capacity` items at `false_positives_probability`.
fn sized(planned_capacity: usize, false_positives_probability: f64) -> BloomFilter {
    let planned_capacity = planned_capacity as f64;
    let bits = (-1.0 * planned_capacity * false_positives_probability.ln()) / 2_f64.ln().powf(2.0);
    let hash_functions = (bits / planned_capacity * 2_f64.ln()).ceil() as usize;
    BloomFilter::with_size(bits as usize, hash_functions)
}

#[test]
fn test_filter_size() {
    let filter = sized(100000, 0.2);

    assert_eq!(filter.byte_size(), 41873);
    assert_eq!(filter.hash_functions(), 3);

    let filter = sized(10000, 0.2);

    assert_eq!(filter.byte_size(), 4188);
    assert_eq!(filter.hash_functions(), 3);

    let filter = sized(100000, 0.1);

    assert_eq!(filter.byte_size(), 59907);
    assert_eq!(filter.hash_functions(), 4);

    let filter = sized(10000, 0.1);

    assert_eq!(filter.byte_size(), 5991);
    assert_eq!(filter.hash_functions(), 4);

    let filter = BloomFilter::for_capacity(100000);

    assert_eq!(filter.byte_size(), 59907);
    assert_eq!(filter.hash_functions(), 4);

    let filter = BloomFilter::for_capacity(10000);

    assert_eq!(filter.byte_size(), 5991);
    assert_eq!(filter.hash_functions(), 4);
}

#[test]
fn test_addition_and_finding() {
    let false_positives_probability = 0.1;

    let mut filter = sized(100, false_positives_probability);

    let values: BTreeSet<u16> = (0..10000).step_by(100).collect();

    for i in values.clone() {
        filter.add(i);
    }

    let mut positive = 0;
    let mut negative = 0;
    let mut false_positive = 0;

    for i in 0..10000u16 {
        if filter.contains(&i) && values.contains(&i) {
            positive += 1;
        } else if filter.contains(&i) {
            false_positive += 1;
        } else {
            negative += 1;
        }
    }

    assert_eq!(positive, 100);

    let ratio = false_positive as f64 / (negative as f64 + false_positive as f64);

    let ratio_diff = (ratio - false_positives_probability).abs();

    assert!(ratio_diff < 0.01);
}

#[test]
fn fixed_rate_sizing_matches_the_formula() {
    let filter = BloomFilter::for_capacity(100000);
    assert_eq!(filter.bit_size(), 479252);
    assert_eq!(filter.byte_size(), 59907);
    assert_eq!(filter.hash_functions(), 4);

    let filter = BloomFilter::for_capacity(10000);
    assert_eq!(filter.byte_size(), 5991);
    assert_eq!(filter.hash_functions(), 4);

    let filter = BloomFilter::for_capacity(1);
    assert_eq!(filter.bit_size(), 4);
    assert_eq!(filter.hash_functions(), 3);

    let filter = BloomFilter::for_capacity(0);
    assert_eq!(filter.bit_size(), 0);
    assert_eq!(filter.hash_functions(), 0);
    assert!(filter.contains(&7u64));
}

#[test]
fn added_items_are_always_found() {
    let mut filter = BloomFilter::for_capacity(50);
    for i in 0..200u64 {
        filter.add(i * 7919);
    }
    for i in 0..200u64 {
        assert!(filter.contains(&(i * 7919)));
    }
    let mut bytes_filter = BloomFilter::for_capacity(10);
    bytes_filter.add(b"key_1".to_vec());
    assert!(bytes_filter.contains(&b"key_1".to_vec()));
}

#[test]
fn one_item_sets_several_bits() {
    let mut filter = BloomFilter::with_size(1 << 20, 3);
    filter.add(42u64);
    let set_bytes = filter.bit_bytes().iter().filter(|b| **b != 0).count();
    assert!(set_bytes >= 2);
    assert!(!filter.contains(&43u64) || filter.contains(&42u64));
}
