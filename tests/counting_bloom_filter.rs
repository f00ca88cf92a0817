use lsm_tree::counting_bloom_filter::CountingBloomFilter;

#[test]
fn counting_filter_adds_and_removes() {
    let mut filter = CountingBloomFilter::with_planned_capacity(100);

    for i in 0..100u64 {
        filter.add(&i);
    }

    for i in 0..100u64 {
        assert!(filter.contains(&i));
    }

    assert!(filter.remove(&5u64));
    filter.add(&5u64);
    assert!(filter.contains(&5u64));
}

#[test]
fn removing_an_absent_item_changes_nothing() {
    let mut filter = CountingBloomFilter::with_planned_capacity(10);
    assert!(!filter.contains(&1u64));
    assert!(!filter.remove(&1u64));
    filter.add(&1u64);
    assert!(filter.remove(&1u64));
    assert!(!filter.contains(&1u64));
}

#[test]
fn counting_filter_of_a_given_size() {
    let mut filter = CountingBloomFilter::with_size(135, 4);
    assert_eq!(filter.counter_count(), 135);
    assert_eq!(filter.hash_functions(), 4);
    filter.add(&3u64);
    filter.add(&3u64);
    assert!(filter.remove(&3u64));
    assert!(filter.contains(&3u64));
    assert!(filter.remove(&3u64));
    assert!(!filter.contains(&3u64));
}

#[test]
fn planned_counters_follow_the_formula() {
    let filter = CountingBloomFilter::with_planned_capacity(100);
    assert_eq!(filter.counter_count(), 958);
    assert_eq!(filter.hash_functions(), 7);
}
