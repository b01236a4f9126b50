use synap_server::error::SynapError;
use synap_server::kv_store::{Expiry, KVStore, SetOptions};
use synap_server::types::{EvictionPolicy, KVConfig};

fn s(x: &str) -> String {
    x.to_string()
}

#[test]
fn test_set_get() {
    let mut store = KVStore::new(KVConfig::default());
    store.set(s("key1"), b"value1".to_vec(), None).unwrap();
    let result = store.get("key1").unwrap();
    assert_eq!(result, Some(b"value1".to_vec()));
}

#[test]
fn test_get_nonexistent() {
    let mut store = KVStore::new(KVConfig::default());
    let result = store.get("nonexistent").unwrap();
    assert_eq!(result, None);
}

#[test]
fn test_delete() {
    let mut store = KVStore::new(KVConfig::default());
    store.set(s("key1"), b"value1".to_vec(), None).unwrap();
    let deleted = store.delete("key1").unwrap();
    assert!(deleted);
    let result = store.get("key1").unwrap();
    assert_eq!(result, None);
}

#[test]
fn test_ttl_expiration() {
    let mut store = KVStore::new(KVConfig::default());
    let now = 1_000_000u64;
    store.set_at(s("key1"), b"value1".to_vec(), Some(1), now).unwrap();
    assert_eq!(store.get_at("key1", now).unwrap(), Some(b"value1".to_vec()));
    assert_eq!(store.get_at("key1", now + 2).unwrap(), None);
}

#[test]
fn kv_store_test_exists() {
    let mut store = KVStore::new(KVConfig::default());
    store.set(s("key1"), b"value1".to_vec(), None).unwrap();
    assert!(store.key_exists("key1").unwrap());
    assert!(!store.key_exists("key2").unwrap());
}

#[test]
fn test_incr() {
    let mut store = KVStore::new(KVConfig::default());
    assert_eq!(store.incr("counter", 1).unwrap(), 1);
    assert_eq!(store.incr("counter", 5).unwrap(), 6);
}

#[test]
fn test_decr() {
    let mut store = KVStore::new(KVConfig::default());
    assert_eq!(store.incr("counter", 10).unwrap(), 10);
    assert_eq!(store.decr("counter", 3).unwrap(), 7);
}

#[test]
fn test_mset_mget() {
    let mut store = KVStore::new(KVConfig::default());
    let pairs = vec![
        (s("key1"), b"value1".to_vec()),
        (s("key2"), b"value2".to_vec()),
        (s("key3"), b"value3".to_vec()),
    ];
    store.mset(pairs).unwrap();
    let keys = vec![s("key1"), s("key2"), s("key3")];
    let results = store.mget(&keys).unwrap();
    assert_eq!(results[0], Some(b"value1".to_vec()));
    assert_eq!(results[1], Some(b"value2".to_vec()));
    assert_eq!(results[2], Some(b"value3".to_vec()));
}

#[test]
fn test_mdel() {
    let mut store = KVStore::new(KVConfig::default());
    store.set(s("key1"), b"value1".to_vec(), None).unwrap();
    store.set(s("key2"), b"value2".to_vec(), None).unwrap();
    store.set(s("key3"), b"value3".to_vec(), None).unwrap();
    let keys = vec![s("key1"), s("key2"), s("key4")];
    assert_eq!(store.mdel(&keys).unwrap(), 2);
    assert!(!store.key_exists("key1").unwrap());
    assert!(!store.key_exists("key2").unwrap());
    assert!(store.key_exists("key3").unwrap());
}

#[test]
fn test_scan() {
    let mut store = KVStore::new(KVConfig::default());
    store.set(s("user:1"), b"alice".to_vec(), None).unwrap();
    store.set(s("user:2"), b"bob".to_vec(), None).unwrap();
    store.set(s("product:1"), b"laptop".to_vec(), None).unwrap();
    let keys = store.scan(Some("user:"), 10).unwrap();
    assert_eq!(keys.len(), 2);
    assert!(keys.contains(&s("user:1")));
    assert!(keys.contains(&s("user:2")));
    assert_eq!(store.scan(None, 2).unwrap().len(), 2);
    assert!(store.scan(Some("user:"), 0).unwrap().is_empty());
}

#[test]
fn test_stats() {
    let mut store = KVStore::new(KVConfig::default());
    store.set(s("key1"), b"value1".to_vec(), None).unwrap();
    store.get("key1").unwrap();
    store.get("key2").unwrap();
    let stats = store.stats();
    assert_eq!(stats.sets, 1);
    assert_eq!(stats.gets, 2);
    assert_eq!(stats.hits, 1);
    assert_eq!(stats.misses, 1);
    assert_eq!(stats.total_keys, 1);
}

#[test]
fn test_keys() {
    let mut store = KVStore::new(KVConfig::default());
    store.set(s("key1"), b"value1".to_vec(), None).unwrap();
    store.set(s("key2"), b"value2".to_vec(), None).unwrap();
    store.set(s("key3"), b"value3".to_vec(), None).unwrap();
    let keys = store.keys().unwrap();
    assert_eq!(keys, vec![s("key1"), s("key2"), s("key3")]);
}

#[test]
fn test_dbsize() {
    let mut store = KVStore::new(KVConfig::default());
    assert_eq!(store.dbsize().unwrap(), 0);
    store.set(s("key1"), b"value1".to_vec(), None).unwrap();
    assert_eq!(store.dbsize().unwrap(), 1);
    store.set(s("key2"), b"value2".to_vec(), None).unwrap();
    assert_eq!(store.dbsize().unwrap(), 2);
}

#[test]
fn test_flushdb() {
    let mut config = KVConfig::default();
    config.allow_flush_commands = true;
    let mut store = KVStore::new(config);
    store.set(s("key1"), b"value1".to_vec(), None).unwrap();
    store.set(s("key2"), b"value2".to_vec(), None).unwrap();
    store.set(s("key3"), b"value3".to_vec(), None).unwrap();
    assert_eq!(store.dbsize().unwrap(), 3);
    assert_eq!(store.flushdb().unwrap(), 3);
    assert_eq!(store.dbsize().unwrap(), 0);
}

#[test]
fn flush_is_refused_unless_allowed() {
    let mut store = KVStore::new(KVConfig::default());
    store.set(s("key1"), b"value1".to_vec(), None).unwrap();
    assert!(matches!(store.flushdb(), Err(SynapError::InvalidRequest(_))));
    assert!(matches!(store.flushall(), Err(SynapError::InvalidRequest(_))));
    assert_eq!(store.dbsize().unwrap(), 1);
}

#[test]
fn test_expire_and_persist() {
    let mut store = KVStore::new(KVConfig::default());
    store.set(s("key1"), b"value1".to_vec(), None).unwrap();
    assert!(store.expire("key1", 60).unwrap());
    let ttl = store.ttl("key1").unwrap();
    assert!(ttl.is_some());
    assert!(ttl.unwrap() > 0 && ttl.unwrap() <= 60);
    assert!(store.persist("key1").unwrap());
    assert!(store.ttl("key1").unwrap().is_none());
    assert!(matches!(store.ttl("nope"), Err(SynapError::KeyNotFound(k)) if k == "nope"));
}

#[test]
fn test_append() {
    let mut store = KVStore::new(KVConfig::default());
    assert_eq!(store.append("key1", b"hello".to_vec()).unwrap(), 5);
    assert_eq!(store.get("key1").unwrap(), Some(b"hello".to_vec()));
    assert_eq!(store.append("key1", b" world".to_vec()).unwrap(), 11);
    assert_eq!(store.get("key1").unwrap(), Some(b"hello world".to_vec()));
    assert_eq!(store.append("key1", b"".to_vec()).unwrap(), 11);
    assert_eq!(store.get("key1").unwrap(), Some(b"hello world".to_vec()));
}

#[test]
fn test_getrange() {
    let mut store = KVStore::new(KVConfig::default());
    store.set(s("key1"), b"hello world".to_vec(), None).unwrap();
    assert_eq!(store.getrange("key1", 0, 4).unwrap(), b"hello");
    assert_eq!(store.getrange("key1", 0, 10).unwrap(), b"hello world");
    assert_eq!(store.getrange("key1", -5, -1).unwrap(), b"world");
    assert_eq!(store.getrange("key1", 0, -7).unwrap(), b"hello");
    assert_eq!(store.getrange("key1", 5, 3).unwrap(), b"");
    assert_eq!(store.getrange("key1", 100, 200).unwrap(), b"");
    assert_eq!(store.getrange("nonexistent", 0, 5).unwrap(), b"");
}

#[test]
fn test_setrange() {
    let mut store = KVStore::new(KVConfig::default());
    assert_eq!(store.setrange("key1", 5, b"world".to_vec()).unwrap(), 10);
    assert_eq!(store.get("key1").unwrap(), Some(vec![0, 0, 0, 0, 0, b'w', b'o', b'r', b'l', b'd']));
    store.set(s("key2"), b"hello world".to_vec(), None).unwrap();
    assert_eq!(store.setrange("key2", 6, b"Synap".to_vec()).unwrap(), 11);
    assert_eq!(store.get("key2").unwrap(), Some(b"hello Synap".to_vec()));
    assert_eq!(store.setrange("key2", 11, b"!".to_vec()).unwrap(), 12);
    assert_eq!(store.get("key2").unwrap(), Some(b"hello Synap!".to_vec()));
    assert_eq!(store.setrange("key2", 0, b"Hi".to_vec()).unwrap(), 12);
    let value = store.get("key2").unwrap();
    assert_eq!(value.as_ref().map(|v| &v[..2]), Some(&b"Hi"[..]));
}

#[test]
fn test_strlen() {
    let mut store = KVStore::new(KVConfig::default());
    assert_eq!(store.strlen("nonexistent").unwrap(), 0);
    store.set(s("key无可"), b"hello".to_vec(), None).unwrap();
    assert_eq!(store.strlen("key无可").unwrap(), 5);
    store.set(s("key2"), b"".to_vec(), None).unwrap();
    assert_eq!(store.strlen("key2").unwrap(), 0);
    store.set(s("key3"), vec![0u8; 10000], None).unwrap();
    assert_eq!(store.strlen("key3").unwrap(), 10000);
}

#[test]
fn test_getset() {
    let mut store = KVStore::new(KVConfig::default());
    assert_eq!(store.getset("key1", b"new_value".to_vec()).unwrap(), None);
    assert_eq!(store.get("key1").unwrap(), Some(b"new_value".to_vec()));
    assert_eq!(store.getset("key1", b"updated".to_vec()).unwrap(), Some(b"new_value".to_vec()));
    assert_eq!(store.get("key1").unwrap(), Some(b"updated".to_vec()));
    assert_eq!(store.getset("key1", b"".to_vec()).unwrap(), Some(b"updated".to_vec()));
    assert_eq!(store.get("key1").unwrap(), Some(b"".to_vec()));
}

#[test]
fn test_msetnx() {
    let mut store = KVStore::new(KVConfig::default());
    let pairs = vec![(s("key1"), b"value1".to_vec()), (s("key2"), b"value2".to_vec()), (s("key3"), b"value3".to_vec())];
    assert!(store.msetnx(pairs).unwrap());
    assert_eq!(store.get("key1").unwrap(), Some(b"value1".to_vec()));
    assert_eq!(store.get("key2").unwrap(), Some(b"value2".to_vec()));
    assert_eq!(store.get("key3").unwrap(), Some(b"value3".to_vec()));
    store.set(s("key4"), b"existing".to_vec(), None).unwrap();
    let pairs = vec![(s("key4"), b"should_not_set".to_vec()), (s("key5"), b"value5".to_vec())];
    assert!(!store.msetnx(pairs).unwrap());
    assert_eq!(store.get("key4").unwrap(), Some(b"existing".to_vec()));
    assert_eq!(store.get("key5").unwrap(), None);
    assert!(store.msetnx(vec![]).unwrap());
    let pairs = vec![(s("key1"), b"should_not_set1".to_vec()), (s("key2"), b"should_not_set2".to_vec())];
    assert!(!store.msetnx(pairs).unwrap());
    assert_eq!(store.get("key1").unwrap(), Some(b"value1".to_vec()));
    assert_eq!(store.get("key2").unwrap(), Some(b"value2".to_vec()));
}

#[test]
fn test_string_extensions_with_ttl() {
    let mut store = KVStore::new(KVConfig::default());
    let now = 2_000_000u64;
    store.set_at(s("key1"), b"hello".to_vec(), Some(60), now).unwrap();
    assert_eq!(store.append_at("key1", b" world".to_vec(), now).unwrap(), 11);
    store.set_at(s("key2"), b"test".to_vec(), Some(1), now).unwrap();
    assert_eq!(store.getrange_at("key2", 0, 3, now + 2).unwrap(), b"");
    store.set_at(s("key3"), b"test".to_vec(), Some(1), now).unwrap();
    assert_eq!(store.strlen_at("key3", now + 2).unwrap(), 0);
}

#[test]
fn test_memory_accounting_on_overwrite() {
    let mut store = KVStore::new(KVConfig::default());
    store.set(s("key"), vec![0u8; 100], None).unwrap();
    let after_insert = store.stats().total_memory_bytes;
    store.set(s("key"), vec![0u8; 200], None).unwrap();
    let after_overwrite = store.stats().total_memory_bytes;
    assert!(after_overwrite > after_insert);
    assert!(after_overwrite < after_insert + 200);
}

#[test]
fn test_memory_accounting_on_delete() {
    let mut store = KVStore::new(KVConfig::default());
    store.set(s("key"), vec![0u8; 100], None).unwrap();
    let before_delete = store.stats().total_memory_bytes;
    assert!(before_delete > 0);
    store.delete("key").unwrap();
    let after_delete = store.stats().total_memory_bytes;
    assert!(after_delete < before_delete);
}

#[test]
fn test_incr_preserves_ttl() {
    let mut store = KVStore::new(KVConfig::default());
    store.set(s("counter"), b"42".to_vec(), Some(60)).unwrap();
    assert_eq!(store.incr("counter", 1).unwrap(), 43);
    let ttl = store.ttl("counter").unwrap();
    assert!(ttl.is_some());
    assert!(ttl.unwrap() >= 50);
}

#[test]
fn test_incr_overflow_returns_error() {
    let mut store = KVStore::new(KVConfig::default());
    store.set(s("maxkey"), i64::MAX.to_string().into_bytes(), None).unwrap();
    assert!(store.incr("maxkey", 1).is_err());
}

#[test]
fn incr_rejects_text_that_is_not_an_integer() {
    let mut store = KVStore::new(KVConfig::default());
    store.set(s("k"), b"12a".to_vec(), None).unwrap();
    assert!(matches!(store.incr("k", 1), Err(SynapError::InvalidValue(_))));
    store.set(s("k"), b"-9223372036854775808".to_vec(), None).unwrap();
    assert_eq!(store.incr("k", 1).unwrap(), -9223372036854775807);
    assert_eq!(store.get("k").unwrap(), Some(b"-9223372036854775807".to_vec()));
    store.set(s("p"), b"+7".to_vec(), None).unwrap();
    assert_eq!(store.incr("p", -10).unwrap(), -3);
}

#[test]
fn test_memory_accounting_overwrite_stress() {
    let mut store = KVStore::new(KVConfig::default());
    for _ in 0..1_000_000 {
        store.set(s("stress_key"), vec![42u8; 64], None).unwrap();
    }
    let stats = store.stats();
    assert_eq!(stats.total_keys, 1);
    assert!(stats.total_memory_bytes <= 512);
}

#[test]
fn test_set_nx_only_when_absent() {
    let mut store = KVStore::new(KVConfig::default());
    let nx = SetOptions { if_absent: true, ..Default::default() };
    let r = store.set_with_opts("nx_key", b"first".to_vec(), None, nx).unwrap();
    assert!(r.written);
    let r2 = store.set_with_opts("nx_key", b"second".to_vec(), None, nx).unwrap();
    assert!(!r2.written);
    assert_eq!(store.get("nx_key").unwrap().unwrap(), b"first");
    let mut wins = 0;
    for _ in 0..100 {
        let r = store.set_with_opts("lock", b"owner".to_vec(), Some(Expiry::Seconds(30)), nx).unwrap();
        if r.written {
            wins += 1;
        }
    }
    assert_eq!(wins, 1);
}

#[test]
fn test_set_xx_only_when_present() {
    let mut store = KVStore::new(KVConfig::default());
    let xx = SetOptions { if_present: true, ..Default::default() };
    let r = store.set_with_opts("xx_key", b"value".to_vec(), None, xx).unwrap();
    assert!(!r.written);
    store.set(s("xx_key"), b"orig".to_vec(), None).unwrap();
    let r2 = store.set_with_opts("xx_key", b"updated".to_vec(), None, xx).unwrap();
    assert!(r2.written);
    assert_eq!(store.get("xx_key").unwrap().unwrap(), b"updated");
}

#[test]
fn test_set_get_returns_old_value() {
    let mut store = KVStore::new(KVConfig::default());
    store.set(s("gkey"), b"old".to_vec(), None).unwrap();
    let r = store
        .set_with_opts("gkey", b"new".to_vec(), None, SetOptions { return_old: true, ..Default::default() })
        .unwrap();
    assert!(r.written);
    assert_eq!(r.old_value.as_deref(), Some(b"old".as_slice()));
    assert_eq!(store.get("gkey").unwrap().unwrap(), b"new");
}

#[test]
fn test_set_keepttl_preserves_expiry() {
    let mut store = KVStore::new(KVConfig::default());
    store.set_with_opts("kttl_key", b"v1".to_vec(), Some(Expiry::Seconds(60)), SetOptions::default()).unwrap();
    assert!(store.ttl("kttl_key").unwrap().is_some());
    store
        .set_with_opts("kttl_key", b"v2".to_vec(), None, SetOptions { keep_ttl: true, ..Default::default() })
        .unwrap();
    let remaining = store.ttl("kttl_key").unwrap().unwrap();
    assert!(remaining >= 50);
    assert_eq!(store.get("kttl_key").unwrap().unwrap(), b"v2");
}

#[test]
fn set_expiry_forms_are_kept_in_seconds() {
    let mut store = KVStore::new(KVConfig::default());
    let now = 5_000u64;
    let o = SetOptions::default();
    store.set_with_opts_at("a", b"x".to_vec(), Some(Expiry::Milliseconds(5_000)), o, now).unwrap();
    assert_eq!(store.ttl_at("a", now).unwrap(), Some(5));
    store.set_with_opts_at("b", b"x".to_vec(), Some(Expiry::UnixSeconds(5_030)), o, now).unwrap();
    assert_eq!(store.ttl_at("b", now).unwrap(), Some(30));
    store.set_with_opts_at("c", b"x".to_vec(), Some(Expiry::UnixMilliseconds(5_040_999)), o, now).unwrap();
    assert_eq!(store.ttl_at("c", now).unwrap(), Some(40));
}

#[test]
fn test_get_updates_last_access_for_lru() {
    let config = KVConfig { max_memory_mb: 1, eviction_policy: EvictionPolicy::Lru, ..KVConfig::default() };
    let mut store = KVStore::new(config);
    let now = 10_000u64;
    store.set_at(s("old_key"), vec![1u8; 400_000], Some(60), now).unwrap();
    store.set_at(s("new_key"), vec![2u8; 400_000], Some(60), now + 1).unwrap();
    store.get_at("old_key", now + 2).unwrap();
    // A third value that does not fit evicts the entry read least recently.
    store.set_at(s("third"), vec![3u8; 400_000], Some(60), now + 3).unwrap();
    assert!(store.key_exists_at("old_key", now + 3).unwrap());
    assert!(!store.key_exists_at("new_key", now + 3).unwrap());
}

#[test]
fn test_eviction_noeviction_returns_error_when_full() {
    let config = KVConfig { max_memory_mb: 1, eviction_policy: EvictionPolicy::NoEviction, ..KVConfig::default() };
    let mut store = KVStore::new(config);
    let big_val = vec![0u8; 100_000];
    let mut hit_limit = false;
    for i in 0..20 {
        match store.set(format!("key_{i}"), big_val.clone(), None) {
            Ok(_) => {}
            Err(SynapError::MemoryLimitExceeded) => {
                hit_limit = true;
                break;
            }
            Err(e) => panic!("unexpected error: {e:?}"),
        }
    }
    assert!(hit_limit);
}

#[test]
fn lru_eviction_takes_the_least_recently_used_key() {
    let config = KVConfig { max_memory_mb: 1, eviction_policy: EvictionPolicy::Lru, eviction_sample_size: 10, ..KVConfig::default() };
    let mut store = KVStore::new(config);
    let now = 100u64;
    store.set_at(s("a"), vec![0u8; 400_000], Some(1000), now).unwrap();
    store.set_at(s("b"), vec![0u8; 400_000], Some(1000), now + 1).unwrap();
    store.get_at("a", now + 2).unwrap();
    // The third value does not fit: the least recently used key goes.
    store.set_at(s("c"), vec![0u8; 400_000], Some(1000), now + 3).unwrap();
    assert!(store.key_exists_at("a", now + 3).unwrap());
    assert!(!store.key_exists_at("b", now + 3).unwrap());
    assert!(store.key_exists_at("c", now + 3).unwrap());
    assert_eq!(store.stats().total_keys, 2);
}

#[test]
fn ttl_eviction_skips_persistent_keys() {
    let config = KVConfig { max_memory_mb: 1, eviction_policy: EvictionPolicy::Ttl, eviction_sample_size: 20, ..KVConfig::default() };
    let mut store = KVStore::new(config);
    let now = 100u64;
    store.set_at(s("persist"), vec![0u8; 400_000], None, now).unwrap();
    store.set_at(s("soon"), vec![0u8; 300_000], Some(10), now).unwrap();
    store.set_at(s("late"), vec![0u8; 100_000], Some(500), now).unwrap();
    store.set_at(s("new"), vec![0u8; 300_000], Some(500), now).unwrap();
    assert!(store.key_exists_at("persist", now).unwrap());
    assert!(!store.key_exists_at("soon", now).unwrap());
    assert!(store.key_exists_at("late", now).unwrap());
    // Only persistent keys left to evict: the write is refused.
    let config = KVConfig { max_memory_mb: 1, eviction_policy: EvictionPolicy::Ttl, ..KVConfig::default() };
    let mut store = KVStore::new(config);
    store.set_at(s("p"), vec![0u8; 900_000], None, now).unwrap();
    assert!(matches!(store.set_at(s("q"), vec![0u8; 900_000], None, now), Err(SynapError::MemoryLimitExceeded)));
}

#[test]
fn the_cache_answers_reads_and_is_dropped_on_delete() {
    let mut store = KVStore::new_with_cache(KVConfig::default(), Some(2));
    store.set_at(s("a"), b"1".to_vec(), None, 10).unwrap();
    assert_eq!(store.get_at("a", 11).unwrap(), Some(b"1".to_vec()));
    assert!(store.delete("a").unwrap());
    assert_eq!(store.get_at("a", 12).unwrap(), None);
    let stats = store.stats();
    assert_eq!(stats.hits, 1);
    assert_eq!(stats.misses, 1);
}

#[test]
fn cleanup_removes_expired_keys() {
    let mut store = KVStore::new(KVConfig::default());
    for i in 0..30 {
        store.set_at(format!("t{i}"), b"v".to_vec(), Some(5), 100).unwrap();
    }
    store.set_at(s("keep"), b"v".to_vec(), None, 100).unwrap();
    store.cleanup_expired_at(200);
    assert_eq!(store.dbsize().unwrap(), 1);
    assert_eq!(store.keys().unwrap(), vec![s("keep")]);
    let dump = store.dump_at(200).unwrap();
    assert_eq!(dump, vec![(s("keep"), b"v".to_vec())]);
}

#[test]
fn expired_reads_drop_the_key() {
    let mut store = KVStore::new(KVConfig::default());
    store.set_at(s("k"), b"v".to_vec(), Some(5), 100).unwrap();
    assert_eq!(store.ttl_at("k", 200).unwrap(), Some(0));
    assert_eq!(store.get_at("k", 200).unwrap(), None);
    assert_eq!(store.dbsize().unwrap(), 0);
    assert!(store.keys().unwrap().is_empty());
}
