use synap_server::error::SynapError;
use synap_server::hyperloglog::{HyperLogLogStats, HyperLogLogStore, HLL_REGISTER_COUNT};

/// The HyperLogLog estimate the server computes from a sketch's registers.
fn estimate(registers: &[u8]) -> u64 {
    let m = HLL_REGISTER_COUNT as f64;
    let mut sum = 0.0;
    let mut zeros = 0;
    for &r in registers {
        sum += 1.0 / 2.0f64.powi(r as i32);
        if r == 0 {
            zeros += 1;
        }
    }
    let alpha = 0.7213 / (1.0 + 1.079 / m);
    let mut e = alpha * m * m / sum;
    if e <= 5.0 * m / 2.0 && zeros > 0 {
        e = m * (m / zeros as f64).ln();
    }
    let two32 = (1u64 << 32) as f64;
    if e > two32 / 30.0 {
        e = -two32 * (1.0 - e / two32).ln();
    }
    e as u64
}

fn pfcount(store: &mut HyperLogLogStore, key: &str) -> Result<u64, SynapError> {
    store.pfcount_sketch(key).map(|r| estimate(&r))
}

fn pfmerge(store: &mut HyperLogLogStore, dest: &str, sources: Vec<String>) -> Result<u64, SynapError> {
    store.pfmerge_sketch(dest, sources).map(|r| estimate(&r))
}

fn stats(store: &HyperLogLogStore) -> HyperLogLogStats {
    let mut s = store.stats_counters();
    let live = store.live_sketches();
    s.total_hlls = live.len();
    s.total_cardinality = live.iter().fold(0u64, |acc, r| acc.saturating_add(estimate(r)));
    s
}

#[test]
fn pfadd_and_pfcount_work() {
    let mut store = HyperLogLogStore::new();
    let added = store
        .pfadd("visitors", vec![b"user:1".to_vec(), b"user:2".to_vec(), b"user:3".to_vec()], None)
        .unwrap();
    assert!(added >= 1);
    let count = pfcount(&mut store, "visitors").unwrap();
    assert!(count >= 3);
}

#[test]
fn pfmerge_merges_sources() {
    let mut store = HyperLogLogStore::new();
    store.pfadd("source:a", vec![b"alpha".to_vec(), b"beta".to_vec()], None).unwrap();
    store.pfadd("source:b", vec![b"gamma".to_vec(), b"delta".to_vec()], None).unwrap();
    let merged = pfmerge(&mut store, "dest", vec!["source:a".into(), "source:b".into()]).unwrap();
    assert!(merged >= 3);
}

#[test]
fn pfadd_respects_ttl() {
    let mut store = HyperLogLogStore::new();
    store.pfadd_at("temp", vec![b"user:1".to_vec()], Some(1), 1_000).unwrap();
    // Accessible at once.
    assert!(store.pfcount_sketch_at("temp", 1_000).is_ok());
    // Two seconds later it has expired.
    let result = store.pfcount_sketch_at("temp", 1_002);
    assert!(matches!(result, Err(SynapError::KeyExpired) | Err(SynapError::NotFound)));
    assert!(matches!(store.pfcount_sketch_at("temp", 1_002), Err(SynapError::NotFound)));
}

#[test]
fn pfadd_duplicates_return_lower_count() {
    let mut store = HyperLogLogStore::new();
    let added1 = store.pfadd("dups", vec![b"user:1".to_vec(), b"user:2".to_vec()], None).unwrap();
    assert!(added1 >= 1);
    let added2 = store.pfadd("dups", vec![b"user:1".to_vec(), b"user:2".to_vec()], None).unwrap();
    assert!(added2 <= added1);
    let count = pfcount(&mut store, "dups").unwrap();
    assert!(count >= 2);
}

#[test]
fn pfcount_nonexistent_key_returns_error() {
    let mut store = HyperLogLogStore::new();
    let result = pfcount(&mut store, "nonexistent");
    assert!(matches!(result, Err(SynapError::NotFound)));
}

#[test]
fn pfadd_empty_elements() {
    let mut store = HyperLogLogStore::new();
    let added = store.pfadd("empty", vec![], None).unwrap();
    assert_eq!(added, 0);
    let count = pfcount(&mut store, "empty").unwrap();
    assert_eq!(count, 0);
}

#[test]
fn pfadd_large_set() {
    let mut store = HyperLogLogStore::new();
    let mut elements = Vec::new();
    for i in 0..1000 {
        elements.push(format!("user:{}", i).into_bytes());
    }
    let added = store.pfadd("large", elements, None).unwrap();
    assert!(added >= 100);
    let count = pfcount(&mut store, "large").unwrap();
    assert!((800..=1200).contains(&count));
}

#[test]
fn pfmerge_with_empty_source() {
    let mut store = HyperLogLogStore::new();
    store.pfadd("source", vec![b"alpha".to_vec(), b"beta".to_vec()], None).unwrap();
    let merged = pfmerge(&mut store, "dest", vec!["source".into(), "nonexistent".into()]).unwrap();
    assert!(merged >= 2);
}

#[test]
fn pfmerge_multiple_sources() {
    let mut store = HyperLogLogStore::new();
    store.pfadd("src1", vec![b"a".to_vec(), b"b".to_vec()], None).unwrap();
    store.pfadd("src2", vec![b"c".to_vec(), b"d".to_vec()], None).unwrap();
    store.pfadd("src3", vec![b"e".to_vec(), b"f".to_vec()], None).unwrap();
    let merged = pfmerge(&mut store, "dest", vec!["src1".into(), "src2".into(), "src3".into()]).unwrap();
    assert!(merged >= 5);
}

#[test]
fn pfmerge_self_reference_ignored() {
    let mut store = HyperLogLogStore::new();
    store.pfadd("self", vec![b"alpha".to_vec(), b"beta".to_vec()], None).unwrap();
    let merged = pfmerge(&mut store, "self", vec!["self".into()]).unwrap();
    assert!(merged >= 2);
}

#[test]
fn pfmerge_creates_destination_if_missing() {
    let mut store = HyperLogLogStore::new();
    store.pfadd("source", vec![b"data".to_vec()], None).unwrap();
    let merged = pfmerge(&mut store, "new_dest", vec!["source".into()]).unwrap();
    assert!(merged >= 1);
    let count = pfcount(&mut store, "new_dest").unwrap();
    assert!(count >= 1);
}

#[test]
fn stats_track_operations() {
    let mut store = HyperLogLogStore::new();
    store.pfadd("key1", vec![b"a".to_vec()], None).unwrap();
    store.pfadd("key2", vec![b"b".to_vec()], None).unwrap();
    pfcount(&mut store, "key1").unwrap();
    pfmerge(&mut store, "merged", vec!["key1".into(), "key2".into()]).unwrap();
    let stats = stats(&store);
    assert_eq!(stats.total_hlls, 3);
    assert_eq!(stats.pfadd_count, 2);
    assert_eq!(stats.pfcount_count, 1);
    assert_eq!(stats.pfmerge_count, 1);
    assert!(stats.total_cardinality > 0);
}

#[test]
fn pfadd_updates_existing_ttl() {
    let mut store = HyperLogLogStore::new();
    store.pfadd("ttl_key", vec![b"data".to_vec()], Some(60)).unwrap();
    store.pfadd("ttl_key", vec![b"more_data".to_vec()], Some(120)).unwrap();
    assert!(pfcount(&mut store, "ttl_key").is_ok());
}

#[test]
fn pfadd_incremental_updates_cardinality() {
    let mut store = HyperLogLogStore::new();
    let mut count1 = 0;
    for i in 0..10 {
        store.pfadd("incremental", vec![format!("item:{}", i).into_bytes()], None).unwrap();
        count1 = pfcount(&mut store, "incremental").unwrap();
    }
    assert!((8..=12).contains(&count1));
    for i in 10..50 {
        store.pfadd("incremental", vec![format!("item:{}", i).into_bytes()], None).unwrap();
    }
    let count2 = pfcount(&mut store, "incremental").unwrap();
    assert!(count2 > count1);
    assert!((40..=60).contains(&count2));
}

#[test]
fn pfmerge_preserves_destination_data() {
    let mut store = HyperLogLogStore::new();
    store.pfadd("dest", vec![b"dest_data".to_vec()], None).unwrap();
    store.pfadd("source", vec![b"source_data".to_vec()], None).unwrap();
    let merged = pfmerge(&mut store, "dest", vec!["source".into()]).unwrap();
    assert!(merged >= 2);
}

#[test]
fn reset_stats_clears_counters() {
    let mut store = HyperLogLogStore::new();
    store.pfadd("key", vec![b"data".to_vec()], None).unwrap();
    pfcount(&mut store, "key").unwrap();
    let stats_before = stats(&store);
    assert!(stats_before.pfadd_count > 0);
    store.reset_stats();
    let stats_after = stats(&store);
    assert_eq!(stats_after.pfadd_count, 0);
    assert_eq!(stats_after.pfcount_count, 0);
    assert_eq!(stats_after.pfmerge_count, 0);
}

#[test]
fn second_pfadd_of_same_elements_raises_nothing() {
    let mut store = HyperLogLogStore::new();
    let es = vec![b"x".to_vec(), b"y".to_vec(), b"z".to_vec()];
    store.pfadd("k", es.clone(), None).unwrap();
    let before = store.pfcount_sketch("k").unwrap();
    assert_eq!(store.pfadd("k", es, None).unwrap(), 0);
    assert_eq!(store.pfcount_sketch("k").unwrap(), before);
}

#[test]
fn expired_destination_is_reset_by_merge() {
    let mut store = HyperLogLogStore::new();
    store.pfadd_at("d", vec![b"old".to_vec()], Some(10), 100).unwrap();
    store.pfadd_at("s", vec![b"new".to_vec()], None, 100).unwrap();
    let merged = store.pfmerge_sketch_at("d", vec!["s".to_string()], 200).unwrap();
    let source = store.pfcount_sketch_at("s", 200).unwrap();
    // The expired destination started empty, so it now equals the source.
    assert_eq!(merged, source);
    // It keeps its time to live, counted from the merge.
    assert!(store.pfcount_sketch_at("d", 209).is_ok());
    assert!(matches!(store.pfcount_sketch_at("d", 210), Err(SynapError::KeyExpired)));
}
