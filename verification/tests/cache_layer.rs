use synap_server::cache_layer::CacheLayer;

fn now_secs() -> u64 {
    std::time::SystemTime::now()
        .duration_since(std::time::UNIX_EPOCH)
        .unwrap()
        .as_secs()
}

#[test]
fn test_cache_put_get() {
    let mut cache = CacheLayer::new(100);

    cache.put("key1".to_string(), vec![1, 2, 3], None);

    let value = cache.get("key1").unwrap();
    assert_eq!(value, vec![1, 2, 3]);

    let stats = cache.get_stats();
    assert_eq!(stats.l1_hits, 1);
    assert_eq!(stats.l1_misses, 0);
}

#[test]
fn test_cache_miss() {
    let mut cache = CacheLayer::new(100);

    let value = cache.get("nonexistent");
    assert!(value.is_none());

    let stats = cache.get_stats();
    assert_eq!(stats.l1_hits, 0);
    assert_eq!(stats.l1_misses, 1);
}

#[test]
fn test_cache_lru_eviction() {
    let mut cache = CacheLayer::new(3);

    cache.put("key1".to_string(), vec![1], None);
    cache.put("key2".to_string(), vec![2], None);
    cache.put("key3".to_string(), vec![3], None);

    cache.put("key4".to_string(), vec![4], None);

    assert!(cache.get("key1").is_none(), "key1 should be evicted");
    assert!(cache.get("key2").is_some(), "key2 should still exist");
    assert!(cache.get("key3").is_some(), "key3 should still exist");
    assert!(cache.get("key4").is_some(), "key4 should exist");

    let stats = cache.get_stats();
    assert_eq!(stats.l1_evictions, 1);
}

#[test]
fn test_cache_ttl_expiration() {
    let mut cache = CacheLayer::new(100);

    let past_ttl = now_secs() - 10;
    cache.put("expired".to_string(), vec![1, 2, 3], Some(past_ttl));

    let value = cache.get("expired");
    assert!(value.is_none());
}

#[test]
fn test_cache_delete() {
    let mut cache = CacheLayer::new(100);

    cache.put("key1".to_string(), vec![1, 2, 3], None);
    assert!(cache.get("key1").is_some());

    cache.delete("key1");
    assert!(cache.get("key1").is_none());
}

#[test]
fn test_cache_invalidate_all() {
    let mut cache = CacheLayer::new(100);

    cache.put("key1".to_string(), vec![1], None);
    cache.put("key2".to_string(), vec![2], None);
    cache.put("key3".to_string(), vec![3], None);

    cache.invalidate_all();

    assert!(cache.get("key1").is_none());
    assert!(cache.get("key2").is_none());
    assert!(cache.get("key3").is_none());

    let stats = cache.get_stats();
    assert_eq!(stats.l1_entries, 0);
}

#[test]
fn test_cache_lru_order() {
    let mut cache = CacheLayer::new(3);

    cache.put("key1".to_string(), vec![1], None);
    cache.put("key2".to_string(), vec![2], None);
    cache.put("key3".to_string(), vec![3], None);

    cache.get("key1");

    cache.put("key4".to_string(), vec![4], None);

    assert!(cache.get("key1").is_some(), "key1 was accessed, should not be evicted");
    assert!(cache.get("key2").is_none(), "key2 should be evicted (oldest)");
}

#[test]
fn replacing_a_key_in_a_full_cache_evicts_the_oldest_other_key() {
    let mut cache = CacheLayer::new(3);
    cache.put_at("a".to_string(), vec![1], None, 1);
    cache.put_at("b".to_string(), vec![2, 2], None, 2);
    cache.put_at("c".to_string(), vec![3, 3, 3], None, 3);
    assert_eq!(cache.get_stats().total_bytes, 6);
    cache.put_at("b".to_string(), vec![9; 5], None, 4);
    let stats = cache.get_stats();
    assert_eq!(stats.l1_evictions, 1);
    assert_eq!(stats.l1_entries, 2);
    assert_eq!(stats.total_bytes, 8);
    assert!(cache.get_at("a", 5).is_none());
    assert_eq!(cache.get_at("b", 5), Some(vec![9; 5]));
}

#[test]
fn expiry_is_strictly_after_the_stamp() {
    let mut cache = CacheLayer::new(10);
    cache.put_at("k".to_string(), vec![7], Some(100), 50);
    assert_eq!(cache.get_at("k", 100), Some(vec![7]));
    assert!(cache.get_at("k", 101).is_none());
    let stats = cache.get_stats();
    assert_eq!(stats.l1_hits, 1);
    assert_eq!(stats.l1_misses, 1);
}

#[test]
fn zero_capacity_keeps_only_the_last_write() {
    let mut cache = CacheLayer::new(0);
    cache.put_at("a".to_string(), vec![1], None, 1);
    cache.put_at("b".to_string(), vec![2], None, 2);
    assert!(cache.get_at("a", 3).is_none());
    assert_eq!(cache.get_at("b", 3), Some(vec![2]));
    assert_eq!(cache.get_stats().l1_evictions, 1);
}
