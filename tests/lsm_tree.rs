use lsm_tree::lsm_tree::{LsmError, LsmTree};

fn lsm_three(_test_name: &str) -> LsmTree {
    LsmTree::new(100, 10, 10).unwrap()
}

fn key(s: &str) -> Vec<u8> {
    s.as_bytes().to_vec()
}

#[test]
fn test_simple_insert_and_get() {
    let mut tree = lsm_three("test_simple_insert_and_get");

    let key = key("Hello");
    let value = b"World".to_vec();

    tree.insert(key.clone(), value.clone());

    let found_value = tree.get(&key);

    assert_eq!(found_value, Some(value));
}

#[test]
fn test_memtable_never_exceeds_configured_size_while_all_data_is_accessible() {
    let mut tree =
        lsm_three("test_memtable_never_exceeds_configured_size_while_all_data_is_accessible");

    for i in 0..1000 {
        tree.insert(format!("key_{i}").into_bytes(), format!("value_{i}").into_bytes());
        assert!(tree.memtable_entries() <= 100);
    }

    assert_eq!(tree.memtable_entries(), 100);

    for i in 0..1000 {
        let value = tree.get(&format!("key_{i}").into_bytes());
        let expected_value = format!("value_{i}").into_bytes();
        assert_eq!(value, Some(expected_value));
    }
}

#[test]
fn test_after_compaction_data_is_still_accessible() {
    let mut tree = lsm_three("test_after_compaction_data_is_still_accessible");

    for i in 0..500 {
        tree.insert(format!("key_{i}").into_bytes(), format!("value_{i}").into_bytes());
    }
    tree.flush();
    tree.compact();

    let value = tree.get(&key("key_18"));
    assert_eq!(value, Some(b"value_18".to_vec()));
}

#[test]
fn test_compaction_leaves_more_recent_key_value() {
    let mut tree = lsm_three("test_compaction_leaves_more_recent_key_value");

    for i in 0..5 {
        tree.insert(key("key"), format!("v{i}").into_bytes());
        tree.flush();
    }

    tree.compact();

    let value = tree.get(&key("key"));

    assert_eq!(value, Some(b"v4".to_vec()));
}

#[test]
fn test_delete_if_key_exists() {
    let mut tree = lsm_three("test_delete_if_key_exists");

    for i in 0..1500 {
        tree.insert(format!("key_{i}").into_bytes(), format!("value_{i}").into_bytes());
    }

    let value = tree.get(&key("key_12"));
    assert_eq!(value, Some(b"value_12".to_vec()));

    let value = tree.delete(key("key_12"));
    assert_eq!(value, Some(b"value_12".to_vec()));

    let value = tree.get(&key("key_12"));
    assert_eq!(value, None);
}

#[test]
fn test_skip_if_key_does_not_exist() {
    let mut tree = lsm_three("test_skip_if_key_does_not_exist");

    for i in 0..1500 {
        tree.insert(format!("key_{i}").into_bytes(), format!("value_{i}").into_bytes());
    }

    let value = tree.get(&key("not_exists"));
    assert!(value.is_none());

    let before = tree.memtable_entries();
    let value = tree.delete(key("not_exists"));
    assert!(value.is_none());
    assert_eq!(tree.memtable_entries(), before);
}

#[test]
fn test_compaction_works_with_deletion() {
    let mut tree = lsm_three("test_compaction_works_with_deletion");

    for i in 0..500 {
        tree.insert(format!("key_{i}").into_bytes(), format!("value_{i}").into_bytes());
    }

    tree.insert(key("some_value"), key("some_value"));

    for i in 500..1000 {
        tree.insert(format!("key_{i}").into_bytes(), format!("value_{i}").into_bytes());
    }

    tree.delete(key("some_value"));

    for i in 1000..1500 {
        tree.insert(format!("key_{i}").into_bytes(), format!("value_{i}").into_bytes());
    }

    tree.flush();

    tree.compact();

    assert!(tree.get(&key("some_value")).is_none());
}

#[test]
fn compaction_empties_level_zero() {
    let mut tree = lsm_three("compaction_empties_level_zero");
    for i in 0..500 {
        tree.insert(format!("key_{i}").into_bytes(), format!("value_{i}").into_bytes());
    }
    tree.flush();
    assert_eq!(tree.level_0_ss_tables(), 5);
    assert_eq!(tree.level_1_ss_tables(), 0);
    tree.compact();
    assert_eq!(tree.level_0_ss_tables(), 0);
    assert_eq!(tree.level_1_ss_tables(), 1);
    assert_eq!(tree.memtable_entries(), 0);
}

#[test]
fn full_level_zero_compacts_on_flush() {
    let mut tree = LsmTree::new(2, 3, 2).unwrap();
    for i in 0..6u8 {
        tree.insert(vec![i], vec![i, i]);
    }
    // Two flushes so far, the third happens with the seventh write.
    assert_eq!(tree.level_0_ss_tables(), 2);
    tree.insert(vec![6], vec![6, 6]);
    assert_eq!(tree.level_0_ss_tables(), 0);
    assert_eq!(tree.level_1_ss_tables(), 1);
    for i in 0..7u8 {
        assert_eq!(tree.get(&vec![i]), Some(vec![i, i]));
    }
}

#[test]
fn newest_write_wins_across_levels() {
    let mut tree = LsmTree::new(1, 10, 1).unwrap();
    tree.insert(key("a"), key("1"));
    tree.insert(key("b"), key("x"));
    tree.insert(key("a"), key("2"));
    tree.flush();
    tree.compact();
    tree.insert(key("a"), key("3"));
    tree.flush();
    assert_eq!(tree.get(&key("a")), Some(key("3")));
    assert_eq!(tree.delete(key("a")), Some(key("3")));
    assert_eq!(tree.get(&key("a")), None);
    assert_eq!(tree.get(&key("b")), Some(key("x")));
    assert_eq!(tree.delete(key("a")), None);
}

#[test]
fn zero_sizes_are_refused() {
    assert_eq!(LsmTree::new(0, 10, 10).err(), Some(LsmError::InvalidConfig));
    assert_eq!(LsmTree::new(10, 10, 0).err(), Some(LsmError::InvalidConfig));
    assert!(LsmTree::new(1, 0, 1).is_ok());
}

#[test]
fn empty_values_are_kept_apart_from_deletions() {
    let mut tree = LsmTree::new(4, 4, 4).unwrap();
    tree.insert(key("e"), Vec::new());
    assert_eq!(tree.get(&key("e")), Some(Vec::new()));
    tree.flush();
    assert_eq!(tree.get(&key("e")), Some(Vec::new()));
}

#[test]
fn load_tree() {
    let mut tree = lsm_three("load_tree");

    for i in 0..800 {
        tree.insert(format!("key_{i}").into_bytes(), format!("value_{i}").into_bytes());
    }

    tree.flush();

    let state = lsm_tree::manifest::encode_state(&tree.state());
    let level_0: Vec<Vec<u8>> =
        tree.level_0_tables().iter().map(|t| t.data_bytes().clone()).collect();
    let level_1: Vec<Vec<u8>> =
        tree.level_1_tables().iter().map(|t| t.data_bytes().clone()).collect();

    let tree = LsmTree::load(&state, &level_0, &level_1).unwrap();

    let value = tree.get(&key("key_12"));

    assert_eq!(value, Some(b"value_12".to_vec()));
    assert_eq!(tree.level_0_ss_tables(), 8);
    assert_eq!(tree.memtable_entries(), 0);
}

#[test]
fn load_refuses_bad_input() {
    let mut tree = LsmTree::new(2, 10, 2).unwrap();
    for i in 0..4u8 {
        tree.insert(vec![i], vec![i]);
    }
    let state = lsm_tree::manifest::encode_state(&tree.state());
    let level_0: Vec<Vec<u8>> =
        tree.level_0_tables().iter().map(|t| t.data_bytes().clone()).collect();
    assert_eq!(level_0.len(), 1);
    assert_eq!(LsmTree::load(&vec![], &level_0, &vec![]).err(), Some(LsmError::CorruptState));
    assert_eq!(
        LsmTree::load(&state, &vec![], &vec![]).err(),
        Some(LsmError::TableCountMismatch)
    );
    let mut bad = level_0.clone();
    bad[0].truncate(2);
    assert_eq!(LsmTree::load(&state, &bad, &vec![]).err(), Some(LsmError::CorruptTable));
    let zero = lsm_tree::manifest::encode_state(&lsm_tree::manifest::State {
        ss_table_block_size: 0,
        memtable_size: 2,
        level_0_ss_tables: 0,
        level_1_ss_tables: 0,
        level_0_size: 10,
    });
    assert_eq!(LsmTree::load(&zero, &vec![], &vec![]).err(), Some(LsmError::InvalidConfig));
    let reopened = LsmTree::load(&state, &level_0, &vec![]).unwrap();
    assert_eq!(reopened.get(&vec![1u8]), Some(vec![1u8]));
    assert_eq!(reopened.get(&vec![3u8]), None);
}

#[test]
fn corrupt_manifest_or_table_is_an_error() {
    assert_eq!(LsmTree::load(&vec![255u8], &vec![], &vec![]).err(), Some(LsmError::CorruptState));
    let state = lsm_tree::manifest::encode_state(&lsm_tree::manifest::State {
        ss_table_block_size: 2,
        memtable_size: 2,
        level_0_ss_tables: 1,
        level_1_ss_tables: 0,
        level_0_size: 10,
    });
    let huge = vec![vec![253u8, 0, 0, 0, 0, 0, 0, 0, 0x80]];
    assert_eq!(LsmTree::load(&state, &huge, &vec![]).err(), Some(LsmError::CorruptTable));
}

#[test]
fn full_memtable_is_flushed_before_the_write() {
    let mut tree = LsmTree::new(3, 10, 2).unwrap();
    for i in 0..3u8 {
        tree.insert(vec![i], vec![i]);
    }
    assert_eq!(tree.memtable_entries(), 3);
    tree.insert(vec![1u8], vec![9u8]);
    assert_eq!(tree.memtable_entries(), 1);
    assert_eq!(tree.level_0_ss_tables(), 1);
    tree.insert(vec![2u8], vec![9u8]);
    tree.insert(vec![2u8], vec![8u8]);
    assert_eq!(tree.memtable_entries(), 2);
    assert_eq!(tree.get(&vec![2u8]), Some(vec![8u8]));
    assert_eq!(tree.get(&vec![0u8]), Some(vec![0u8]));
}

#[test]
fn reopen_reads_the_same() {
    let mut tree = LsmTree::new(3, 2, 2).unwrap();
    for i in 0..10u8 {
        tree.insert(vec![i], vec![i, 1]);
    }
    tree.delete(vec![4u8]);
    let reopened = tree.reopen();
    assert_eq!(reopened.memtable_entries(), 0);
    for i in 0..10u8 {
        let expected = if i == 4 { None } else { Some(vec![i, 1]) };
        assert_eq!(reopened.get(&vec![i]), expected);
    }
    assert_eq!(reopened.level_0_ss_tables(), tree.level_0_ss_tables());
    assert_eq!(reopened.level_1_ss_tables(), tree.level_1_ss_tables());
}
