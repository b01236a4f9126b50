use synap_server::adaptive::{AdaptiveCache, CacheStats};
use synap_server::cache::CacheStrategy;

/// The hit rate the server derives from the counters.
fn hit_rate(s: &CacheStats) -> f64 {
    let total = s.hits + s.misses;
    if total > 0 {
        s.hits as f64 / total as f64
    } else {
        0.0
    }
}

#[test]
fn test_adaptive_cache_lru() {
    let mut cache = AdaptiveCache::new(3, CacheStrategy::Lru);
    cache.insert("a", 1);
    cache.insert("b", 2);
    cache.insert("c", 3);
    assert_eq!(cache.get(&"a"), Some(1));
    assert_eq!(cache.get(&"b"), Some(2));
    assert_eq!(cache.get(&"c"), Some(3));
    // Inserting d evicts a, the least recently used.
    cache.insert("d", 4);
    assert_eq!(cache.get(&"a"), None);
    assert_eq!(cache.get(&"d"), Some(4));
}

#[test]
fn test_cache_stats() {
    let mut cache = AdaptiveCache::new(10, CacheStrategy::Lru);
    cache.insert("key1", "value1");
    assert_eq!(cache.get(&"key1"), Some("value1"));
    assert_eq!(cache.get(&"key2"), None);
    let stats = cache.get_stats();
    assert_eq!(stats.hits, 1);
    assert_eq!(stats.misses, 1);
    assert_eq!(hit_rate(&stats), 0.5);
}

#[test]
fn recency_decides_lru_eviction() {
    let mut cache = AdaptiveCache::new(2, CacheStrategy::Lru);
    cache.insert(1u64, "one");
    cache.insert(2u64, "two");
    assert_eq!(cache.get(&1), Some("one"));
    cache.insert(3u64, "three");
    assert_eq!(cache.get(&2), None);
    assert_eq!(cache.get(&1), Some("one"));
    assert_eq!(cache.get(&3), Some("three"));
    let s = cache.get_stats();
    assert_eq!(s.evictions, 1);
    assert_eq!(s.inserts, 3);
    // Overwriting a stored key evicts nothing.
    cache.insert(3u64, "THREE");
    assert_eq!(cache.get(&3), Some("THREE"));
    assert_eq!(cache.get_stats().evictions, 1);
}

#[test]
fn switching_carries_entries_over() {
    let mut cache = AdaptiveCache::new(4, CacheStrategy::Lru);
    cache.insert(1u64, 10u64);
    cache.insert(2u64, 20u64);
    cache.get(&1);
    assert!(!cache.evaluation_due());
    cache.adapt(Some(CacheStrategy::Arc));
    assert_eq!(cache.current_strategy(), CacheStrategy::Arc);
    assert_eq!(cache.get_stats().hits, 0);
    assert_eq!(cache.get(&1), Some(10));
    assert_eq!(cache.get(&2), Some(20));
    assert_eq!(cache.get_stats().hits, 2);

    // Switching again carries over the (now empty) LRU entries only.
    cache.adapt(Some(CacheStrategy::Lfu));
    assert_eq!(cache.current_strategy(), CacheStrategy::Lfu);
    assert_eq!(cache.get(&1), None);
    cache.insert(5u64, 50u64);
    assert_eq!(cache.get(&5), Some(50));

    // Back to LRU: the other caches are dropped.
    cache.adapt(Some(CacheStrategy::Lru));
    assert_eq!(cache.get(&5), None);
    let all = cache.get_all_stats();
    assert_eq!(all.len(), 3);
    assert_eq!(all[0].0, CacheStrategy::Lru);
    assert_eq!(all[0].1.misses, 1);
    assert_eq!(all[1].1, CacheStats::new());
    assert_eq!(all[2].1, CacheStats::new());
}

#[test]
fn lfu_switch_keeps_values() {
    let mut cache = AdaptiveCache::new(3, CacheStrategy::Lru);
    cache.insert("x", 1);
    cache.insert("y", 2);
    cache.adapt(Some(CacheStrategy::Lfu));
    assert_eq!(cache.get(&"x"), Some(1));
    assert_eq!(cache.get(&"y"), Some(2));
    // Adapting to the strategy in use only resets the counters.
    cache.adapt(Some(CacheStrategy::Lfu));
    assert_eq!(cache.get_stats().hits, 0);
    assert_eq!(cache.get(&"x"), Some(1));
}

#[test]
fn evaluation_window_is_ten_thousand_reads() {
    let mut cache: AdaptiveCache<u64, u64> = AdaptiveCache::new(1, CacheStrategy::Lru);
    for _ in 0..9_999 {
        cache.get(&0u64);
    }
    assert!(!cache.evaluation_due());
    cache.get(&0u64);
    assert!(cache.evaluation_due());
    cache.adapt(None);
    assert!(!cache.evaluation_due());
    assert_eq!(cache.current_strategy(), CacheStrategy::Lru);
}
