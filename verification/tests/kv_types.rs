use synap_server::types::{EvictionPolicy, KVConfig, KVStats, StoredValue};

#[test]
fn test_max_value_size_config_field() {
    let config = KVConfig { max_value_size_bytes: Some(1024), ..KVConfig::default() };
    assert_eq!(config.max_value_size_bytes, Some(1024));
    let default_config = KVConfig::default();
    assert_eq!(default_config.max_value_size_bytes, None, "max_value_size_bytes must default to None (unlimited)");
}

#[test]
fn kv_config_defaults() {
    let c = KVConfig::default();
    assert_eq!(c.max_memory_mb, 4096);
    assert_eq!(c.eviction_policy, EvictionPolicy::Lru);
    assert_eq!(c.ttl_cleanup_interval_ms, 100);
    assert!(!c.allow_flush_commands);
    assert_eq!(EvictionPolicy::default(), EvictionPolicy::Lru);
    let s = KVStats::default();
    assert_eq!(s.total_keys + s.hits as usize + s.misses as usize, 0);
}

#[test]
fn stored_value_expiry_at_given_times() {
    let v = StoredValue::new_at(b"abc".to_vec(), Some(10), 1000);
    assert_eq!(v.data(), b"abc");
    assert!(!v.is_expired_at(1009));
    assert!(v.is_expired_at(1010));
    assert_eq!(v.remaining_ttl_secs_at(1004), Some(6));
    assert_eq!(v.remaining_ttl_secs_at(2000), Some(0));
    assert_eq!(v.last_access(), 1000);

    let p = StoredValue::new_at(b"x".to_vec(), None, 1000);
    assert!(!p.is_expired_at(u32::MAX));
    assert_eq!(p.remaining_ttl_secs_at(5), None);
    assert_eq!(p.last_access(), 0);
}

#[test]
fn stored_value_ttl_saturates_and_access_updates() {
    let mut v = StoredValue::new_at(vec![1], Some(u64::from(u32::MAX)), 10);
    assert_eq!(v.remaining_ttl_secs_at(10), Some(u64::from(u32::MAX - 10)));
    v.update_access_at(42);
    assert_eq!(v.last_access(), 42);
    v.data_mut().push(2);
    assert_eq!(v.data(), &[1, 2]);
}
