use lsm_tree::sstable::SsTable;
use std::collections::BTreeMap;

fn ss_table(_name: &str) -> SsTable {
    let mut data = BTreeMap::new();

    for i in 0..10000 {
        data.insert(format!("key_{i}"), format!("value_{i}"));
    }

    let records: Vec<(Vec<u8>, Vec<u8>)> = data
        .into_iter()
        .map(|(k, v)| (k.into_bytes(), v.into_bytes()))
        .collect();

    let table = SsTable::create_from_data(&records, 10);
    SsTable::load(table.data_bytes(), 10).unwrap()
}

#[test]
fn test_existing_key_search() {
    let table = ss_table("test_existing_key_search");
    let key = "key_500".to_string().into_bytes();
    assert_eq!(table.get(&key).unwrap(), b"value_500".to_vec());
}

#[test]
fn test_does_not_find_missing_key() {
    let table = ss_table("test_does_not_find_missing_key");
    let key = "key_50000".to_string().into_bytes();
    assert!(table.get(&key).is_none());
}

#[test]
fn finds_first_key_in_index() {
    let table = ss_table("finds_first_key_in_index");

    let key = "key_0".to_string().into_bytes();

    assert_eq!(table.get(&key).unwrap(), b"value_0".to_vec());
}

#[test]
fn test_finds_key_after_last_index_item() {
    let table = ss_table("test_finds_key_after_last_index_item");

    let key = "key_9999".to_string().into_bytes();

    assert!(!table.is_index_key(&key));

    assert_eq!(table.get(&key).unwrap(), b"value_9999".to_vec());
}

#[test]
fn test_iterator_consumption() {
    let table = ss_table("test_iterator");

    let map: BTreeMap<_, _> = table.iter().into_iter().collect();

    let key = "key_500".to_string().into_bytes();
    assert_eq!(map.get(&key).unwrap(), &b"value_500".to_vec());
    assert_eq!(map.len(), 10000);
}

#[test]
fn iteration_reproduces_the_records_in_order() {
    let records: Vec<(Vec<u8>, Vec<u8>)> = (0..25u8)
        .map(|i| (vec![b'a', i], vec![i; (i as usize) % 4]))
        .collect();
    let table = SsTable::create_from_data(&records, 4);
    assert_eq!(table.iter(), records);
    for (k, v) in &records {
        assert_eq!(table.get(k).as_ref(), Some(v));
    }
    assert!(table.get(&vec![b'a']).is_none());
    assert!(table.get(&vec![b'b']).is_none());
}

#[test]
fn records_are_length_prefixed() {
    let records = vec![(b"ab".to_vec(), b"xyz".to_vec())];
    let table = SsTable::create_from_data(&records, 10);
    assert_eq!(table.data_bytes(), &vec![2u8, b'a', b'b', 3u8, b'x', b'y', b'z']);
}

#[test]
fn long_values_use_a_wide_length() {
    let value = vec![7u8; 300];
    let records = vec![(b"k".to_vec(), value.clone())];
    let table = SsTable::create_from_data(&records, 1);
    let data = table.data_bytes();
    assert_eq!(&data[..5], &[1u8, b'k', 251u8, 44u8, 1u8]);
    assert_eq!(table.get(&b"k".to_vec()), Some(value));
}

#[test]
fn empty_table_finds_nothing() {
    let table = SsTable::create_from_data(&Vec::new(), 3);
    assert!(table.get(&b"k".to_vec()).is_none());
    assert!(table.iter().is_empty());
    assert!(table.data_bytes().is_empty());
}

#[test]
fn every_block_start_is_indexed() {
    let records: Vec<(Vec<u8>, Vec<u8>)> = (0..10u8).map(|i| (vec![i], vec![i])).collect();
    let table = SsTable::create_from_data(&records, 4);
    assert!(table.is_index_key(&vec![0u8]));
    assert!(table.is_index_key(&vec![4u8]));
    assert!(table.is_index_key(&vec![8u8]));
    assert!(!table.is_index_key(&vec![5u8]));
}

#[test]
fn table_reloads_from_its_data_image() {
    let records: Vec<(Vec<u8>, Vec<u8>)> = (0..30u8).map(|i| (vec![b'k', i], vec![i])).collect();
    let table = SsTable::create_from_data(&records, 7);
    let reloaded = SsTable::load(table.data_bytes(), 3).unwrap();
    assert_eq!(reloaded.iter(), records);
    assert_eq!(reloaded.get(&vec![b'k', 29]), Some(vec![29u8]));

    let unsorted = vec![1u8, 2, 0, 1, 1, 0];
    assert!(SsTable::load(&unsorted, 2).is_none());
    let sorted = vec![1u8, 1, 0, 1, 2, 0];
    assert_eq!(SsTable::load(&sorted, 2).unwrap().iter().len(), 2);
    assert!(SsTable::load(&vec![5u8, 1], 2).is_none());
    assert!(SsTable::load(&vec![], 2).unwrap().iter().is_empty());
}

#[test]
fn bloom_filter_of_a_table_holds_its_keys() {
    let records: Vec<(Vec<u8>, Vec<u8>)> = (0..50u8).map(|i| (vec![i], vec![])).collect();
    let table = SsTable::create_from_data(&records, 8);
    for (k, _) in &records {
        assert!(table.bloom_filter().contains(k));
    }
    assert_eq!(table.index_entries().len(), 7);
    assert_eq!(table.index_entries()[1].0, vec![8u8]);
}

#[test]
fn oversized_length_prefix_is_refused() {
    let claims_huge = vec![253u8, 0, 0, 0, 0, 0, 0, 0, 0x80];
    assert!(SsTable::load(&claims_huge, 4).is_none());
    let claims_more_than_follows = vec![5u8, 1, 2];
    assert!(SsTable::load(&claims_more_than_follows, 4).is_none());
    let long_form_of_small_length = vec![251u8, 1, 0, 7, 0];
    assert!(SsTable::load(&long_form_of_small_length, 4).is_none());
}

#[test]
fn index_offsets_point_at_block_starts() {
    let records: Vec<(Vec<u8>, Vec<u8>)> = (0..9u8).map(|i| (vec![i], vec![i, i])).collect();
    let table = SsTable::create_from_data(&records, 4);
    let index = table.index_entries();
    assert_eq!(index.len(), 3);
    // Each record is 2 + 3 = 5 bytes long.
    assert_eq!(index[0], (vec![0u8], 0u64));
    assert_eq!(index[1], (vec![4u8], 20u64));
    assert_eq!(index[2], (vec![8u8], 40u64));
    assert_eq!(table.bloom_filter().bit_size(), 43);
    assert_eq!(table.bloom_filter().hash_functions(), 4);
}

#[test]
fn index_and_bloom_files_use_the_record_encoding() {
    let records: Vec<(Vec<u8>, Vec<u8>)> = (0..5u8).map(|i| (vec![i], vec![])).collect();
    let table = SsTable::create_from_data(&records, 4);
    // Two blocks: key [0] at offset 0, key [4] at offset 12 (each record is 3 bytes).
    assert_eq!(table.index_bytes(), vec![2u8, 1, 0, 0, 1, 4, 12]);
    let bloom = table.bloom_bytes();
    let filter = table.bloom_filter();
    let mut expected = vec![filter.byte_size() as u8];
    expected.extend_from_slice(filter.bit_bytes());
    expected.push(filter.bit_size() as u8);
    expected.push(filter.hash_functions() as u8);
    assert_eq!(bloom, expected);
}
