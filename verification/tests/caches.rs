use synap_server::arc::ArcCache;
use synap_server::lfu::LfuCache;

#[test]
fn test_arc_basic() {
    let mut cache = ArcCache::new(3);

    cache.insert("a", 1);
    cache.insert("b", 2);
    cache.insert("c", 3);

    assert_eq!(cache.get(&"a"), Some(1));
    assert_eq!(cache.get(&"b"), Some(2));
    assert_eq!(cache.len(), 3);

    cache.insert("d", 4);

    assert_eq!(cache.len(), 3);
    assert_eq!(cache.get(&"d"), Some(4));

    let present_count = [cache.get(&"a").is_some(), cache.get(&"b").is_some(), cache.get(&"c").is_some()]
        .iter()
        .filter(|&&x| x)
        .count();
    assert!(present_count >= 2, "At least 2 items should remain");
}

#[test]
fn test_arc_promotion() {
    let mut cache = ArcCache::new(4);

    cache.insert("a", 1);
    cache.insert("b", 2);

    assert_eq!(cache.get(&"a"), Some(1));
    assert_eq!(cache.get(&"a"), Some(1));

    cache.insert("c", 3);
    cache.insert("d", 4);
    cache.insert("e", 5);

    assert_eq!(cache.get(&"a"), Some(1));
}

#[test]
fn arc_insert_then_get_returns_value() {
    let mut cache = ArcCache::new(2);
    assert!(cache.is_empty());
    cache.insert("k", 10);
    assert_eq!(cache.get(&"k"), Some(10));
    cache.insert("k", 11);
    assert_eq!(cache.get(&"k"), Some(11));
    assert_eq!(cache.len(), 1);
    assert_eq!(cache.get(&"missing"), None);
}

#[test]
fn arc_never_exceeds_its_capacity() {
    // A key remembered in B1 raises T1's share to the full capacity; with
    // T2 empty the oldest entry of T1 still makes room.
    let mut cache = ArcCache::new(2);
    cache.insert("a", 1);
    cache.insert("b", 2);
    cache.insert("c", 3); // evicts "a" into B1
    cache.insert("a", 4); // remembered: share grows to 2, "b" makes room
    assert_eq!(cache.len(), 2);
    assert_eq!(cache.get(&"a"), Some(4));
    assert_eq!(cache.get(&"b"), None);
    assert_eq!(cache.get(&"c"), Some(3));
}

#[test]
fn arc_of_capacity_one_holds_one() {
    let mut cache = ArcCache::new(1);
    cache.insert("a", 1);
    cache.insert("b", 2);
    cache.insert("a", 3);
    assert_eq!(cache.len(), 1);
    assert_eq!(cache.get(&"a"), Some(3));
}

#[test]
fn test_lfu_basic() {
    let mut cache = LfuCache::new(3);

    cache.insert("a", 1);
    cache.insert("b", 2);
    cache.insert("c", 3);

    assert_eq!(cache.get(&"a"), Some(1));
    assert_eq!(cache.get(&"a"), Some(1));
    assert_eq!(cache.get(&"b"), Some(2));

    cache.insert("d", 4);

    assert_eq!(cache.get(&"c"), None);
    assert_eq!(cache.get(&"a"), Some(1));
    assert_eq!(cache.get(&"d"), Some(4));
}

#[test]
fn lfu_update_keeps_size_and_replaces_value() {
    let mut cache = LfuCache::new(2);
    cache.insert("x", 1);
    cache.insert("x", 2);
    assert_eq!(cache.len(), 1);
    assert!(!cache.is_empty());
    assert_eq!(cache.get(&"x"), Some(2));
}
