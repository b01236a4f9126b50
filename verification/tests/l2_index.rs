use synap_server::l2_index::{L2Entry, L2Index};

fn put(index: &mut L2Index, key: &str, size: u64) -> u64 {
    let offset = index.prepare_insert(size);
    index.commit_insert(key.to_string(), offset, size, 7);
    offset
}

#[test]
fn index_places_values_one_after_another() {
    let mut index = L2Index::new(10, 1000, 0, Vec::new());
    assert_eq!(put(&mut index, "key1", 6), 0);
    assert_eq!(put(&mut index, "key2", 6), 6);
    assert_eq!(index.lookup("key1"), Some((0, 6)));
    assert_eq!(index.lookup("key2"), Some((6, 6)));
    assert_eq!(index.lookup("nope"), None);
    assert_eq!(index.stats(), (2, 12));
}

#[test]
fn full_index_evicts_the_least_used() {
    let mut index = L2Index::new(1, 3, 0, Vec::new());
    put(&mut index, "a", 1024);
    put(&mut index, "b", 1024);
    put(&mut index, "c", 1024);
    assert_eq!(index.stats().0, 3);
    index.record_hit("a");
    index.record_hit("c");
    assert_eq!(index.frequency_of("a"), Some(2));
    put(&mut index, "d", 1024);
    assert_eq!(index.stats(), (3, 3072));
    assert_eq!(index.lookup("b"), None);
    assert!(index.lookup("a").is_some());
    assert_eq!(index.lookup("d"), Some((3072, 1024)));
}

#[test]
fn index_reloads_and_clears() {
    let pairs = vec![("x".to_string(), L2Entry { offset: 0, size: 4, timestamp: 1, frequency: 3 })];
    let mut index = L2Index::new(1, 10, 4, pairs);
    assert_eq!(index.lookup("x"), Some((0, 4)));
    assert_eq!(index.frequency_of("x"), Some(3));
    assert_eq!(index.pairs().len(), 1);
    index.clear();
    assert_eq!(index.stats(), (0, 0));
    assert_eq!(put(&mut index, "y", 2), 0);
}
