use utility_belt::misc::counter::Counter;

#[test]
fn test_counter() {
    let mut counter = Counter::from_items(vec![1, 2, 2, 3, 3, 3]);

    assert_eq!(counter.get(&1), 1);
    assert_eq!(counter.get(&2), 2);
    assert_eq!(counter.get(&3), 3);

    counter.add(4);
    assert_eq!(counter[4], 1);

    assert_eq!(counter[5], 0);
}

#[test]
fn counts_and_their_sum() {
    let mut counter: Counter<&str> = Counter::with_capacity(4);
    assert_eq!(counter.count_sum(), 0);
    assert_eq!(counter.get(&"a"), 0);
    counter.add_many("a", 3);
    counter.add("b");
    counter.add_many("a", 4);
    counter.add_many("c", 0);
    assert_eq!(counter.get(&"a"), 7);
    assert_eq!(counter.get(&"b"), 1);
    assert_eq!(counter.get(&"c"), 0);
    assert_eq!(counter.count_sum(), 8);
    // The counts can be gone through as a map.
    assert_eq!(counter.len(), 3);
    assert_eq!(counter.values().sum::<usize>(), counter.count_sum());
    assert_eq!(Counter::<u8>::default().count_sum(), 0);
    assert_eq!(Counter::<u8>::new().len(), 0);
}
