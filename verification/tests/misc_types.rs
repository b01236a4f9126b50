use synap_server::cache::{CacheStrategy, L2CacheConfig};
use synap_server::config::{default_key_ttl, ServerConfig};
use synap_server::geospatial::{parse_distance_unit, DistanceUnit};
use synap_server::key_manager::KeyType;
use synap_server::queue::{QueueConfig, QueueMessage};
use synap_server::stream::{StreamConfig, StreamEvent};
use synap_server::transaction::{Transaction, TransactionCommand, WatchedKeyVersion};
use synap_server::types::EvictionPolicy;

#[test]
fn key_type_names() {
    assert_eq!(KeyType::StringKey.as_str(), "string");
    assert_eq!(KeyType::Hash.as_str(), "hash");
    assert_eq!(KeyType::List.as_str(), "list");
    assert_eq!(KeyType::SetKey.as_str(), "set");
    assert_eq!(KeyType::SortedSet.as_str(), "zset");
    assert_eq!(KeyType::Absent.as_str(), "none");
}

#[test]
fn distance_units_parse_in_any_case() {
    assert_eq!(parse_distance_unit("km").unwrap(), DistanceUnit::Kilometers);
    assert_eq!("Meters".parse::<DistanceUnit>().unwrap(), DistanceUnit::Meters);
    assert_eq!(parse_distance_unit("MI").unwrap(), DistanceUnit::Miles);
    assert_eq!(parse_distance_unit("feet").unwrap(), DistanceUnit::Feet);
    let err = parse_distance_unit("yards").unwrap_err();
    assert_eq!(err.to_string(), "Invalid value: Invalid distance unit: yards. Must be one of: m, km, mi, ft");
}

#[test]
fn server_config_defaults_and_conversions() {
    let c = ServerConfig::default();
    assert_eq!(c.server_addr(), "0.0.0.0:15500");
    let kv = c.to_kv_config();
    assert_eq!(kv.max_memory_mb, 4096);
    assert_eq!(kv.eviction_policy, EvictionPolicy::Lru);
    let q = c.to_queue_config();
    assert_eq!(q.max_depth, 100_000);
    assert_eq!(q.default_priority, 5);
    assert_eq!(c.auth.root.username, "root");
    assert!(c.mcp.enable_kv_tools && !c.mcp.enable_hash_tools);
    assert_eq!(default_key_ttl(), 3600);
}

#[test]
fn queue_message_retries() {
    let mut m = QueueMessage {
        id: "m".to_string(),
        payload: vec![1],
        priority: 5,
        retry_count: 0,
        max_retries: 1,
        created_at: 0,
        headers: Vec::new(),
    };
    assert!(!m.is_dead());
    m.increment_retry();
    assert!(!m.is_dead());
    m.increment_retry();
    assert!(m.is_dead());
    assert_eq!(QueueConfig::default().ack_deadline_secs, 30);
}

#[test]
fn stream_and_cache_defaults() {
    let s = StreamConfig::default();
    assert_eq!(s.max_buffer_size, 10_000);
    let e = StreamEvent::new("room".to_string(), "msg".to_string(), vec![1, 2]);
    assert_eq!(e.offset, 0);
    assert_eq!(e.room, "room");
    let l2 = L2CacheConfig::default();
    assert_eq!(l2.directory, "./data/cache/l2");
    assert_eq!(l2.max_entries, 100_000);
    assert_ne!(CacheStrategy::Lru, CacheStrategy::Arc);
}

#[test]
fn transaction_keys_to_lock_are_sorted_and_unique() {
    let mut t = Transaction::new("client".to_string());
    assert!(t.is_empty());
    t.queue_command(TransactionCommand::KVSet { key: "b".to_string(), value: vec![], ttl: None });
    t.queue_command(TransactionCommand::KVDel { keys: vec!["c".to_string(), "a".to_string(), "b".to_string()] });
    t.queue_command(TransactionCommand::KVIncr { key: "aa".to_string(), delta: 1 });
    assert!(!t.is_empty());
    assert_eq!(t.get_keys_to_lock(), vec!["a".to_string(), "aa".to_string(), "b".to_string(), "c".to_string()]);
    t.discard();
    assert!(t.is_empty());
    assert!(t.get_keys_to_lock().is_empty());
}

#[test]
fn transaction_watch_keys() {
    let mut t = Transaction::new_at("c".to_string(), 5);
    t.watch_keys(vec![
        ("k".to_string(), WatchedKeyVersion { version: 1, watched_at: 5 }),
        ("k".to_string(), WatchedKeyVersion { version: 2, watched_at: 6 }),
        ("j".to_string(), WatchedKeyVersion { version: 7, watched_at: 6 }),
    ]);
    assert_eq!(t.get_watched_keys().len(), 2);
    assert_eq!(t.get_watched_keys().get("k").map(|v| v.version), Some(2));
    t.unwatch();
    assert_eq!(t.get_watched_keys().len(), 0);
}
