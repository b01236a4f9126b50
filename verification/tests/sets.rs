use synap_server::error::SynapError;
use synap_server::set::SetStore;

#[test]
fn test_sadd_sismember() {
    let mut store = SetStore::new();

    let added = store
        .sadd("myset", vec![b"a".to_vec(), b"b".to_vec(), b"c".to_vec()])
        .unwrap();
    assert_eq!(added, 3);

    assert!(store.sismember("myset", b"a".to_vec()).unwrap());
    assert!(store.sismember("myset", b"b".to_vec()).unwrap());
    assert!(!store.sismember("myset", b"z".to_vec()).unwrap());

    let added2 = store.sadd("myset", vec![b"a".to_vec()]).unwrap();
    assert_eq!(added2, 0);
}

#[test]
fn test_srem() {
    let mut store = SetStore::new();
    store
        .sadd("myset", vec![b"a".to_vec(), b"b".to_vec(), b"c".to_vec()])
        .unwrap();

    let removed = store
        .srem("myset", vec![b"a".to_vec(), b"b".to_vec()])
        .unwrap();
    assert_eq!(removed, 2);

    assert!(!store.sismember("myset", b"a".to_vec()).unwrap());
    assert!(store.sismember("myset", b"c".to_vec()).unwrap());
}

#[test]
fn test_smembers() {
    let mut store = SetStore::new();
    store
        .sadd("myset", vec![b"a".to_vec(), b"b".to_vec(), b"c".to_vec()])
        .unwrap();

    let members = store.smembers("myset").unwrap();
    assert_eq!(members.len(), 3);
    assert!(members.contains(&b"a".to_vec()));
    assert!(members.contains(&b"b".to_vec()));
    assert!(members.contains(&b"c".to_vec()));
}

#[test]
fn test_scard() {
    let mut store = SetStore::new();
    store
        .sadd("myset", vec![b"a".to_vec(), b"b".to_vec()])
        .unwrap();

    let count = store.scard("myset").unwrap();
    assert_eq!(count, 2);
}

#[test]
fn test_spop() {
    let mut store = SetStore::new();
    store
        .sadd("myset", vec![b"a".to_vec(), b"b".to_vec(), b"c".to_vec()])
        .unwrap();

    let popped = store.spop("myset", Some(2)).unwrap();
    assert_eq!(popped.len(), 2);

    let count = store.scard("myset").unwrap();
    assert_eq!(count, 1);
}

#[test]
fn test_srandmember() {
    let mut store = SetStore::new();
    store
        .sadd("myset", vec![b"a".to_vec(), b"b".to_vec(), b"c".to_vec()])
        .unwrap();

    let random = store.srandmember("myset", Some(2)).unwrap();
    assert_eq!(random.len(), 2);

    let count = store.scard("myset").unwrap();
    assert_eq!(count, 3);
}

#[test]
fn test_smove() {
    let mut store = SetStore::new();
    store
        .sadd("source", vec![b"a".to_vec(), b"b".to_vec()])
        .unwrap();

    let moved = store.smove("source", "dest", b"a".to_vec()).unwrap();
    assert!(moved);

    assert!(!store.sismember("source", b"a".to_vec()).unwrap());
    assert!(store.sismember("dest", b"a".to_vec()).unwrap());
}

#[test]
fn test_sinter() {
    let mut store = SetStore::new();
    store
        .sadd("set1", vec![b"a".to_vec(), b"b".to_vec(), b"c".to_vec()])
        .unwrap();
    store
        .sadd("set2", vec![b"b".to_vec(), b"c".to_vec(), b"d".to_vec()])
        .unwrap();

    let inter = store
        .sinter(&[String::from("set1"), String::from("set2")])
        .unwrap();
    assert_eq!(inter.len(), 2);
    assert!(inter.contains(&b"b".to_vec()));
    assert!(inter.contains(&b"c".to_vec()));
}

#[test]
fn test_sunion() {
    let mut store = SetStore::new();
    store
        .sadd("set1", vec![b"a".to_vec(), b"b".to_vec()])
        .unwrap();
    store
        .sadd("set2", vec![b"b".to_vec(), b"c".to_vec()])
        .unwrap();

    let union = store
        .sunion(&[String::from("set1"), String::from("set2")])
        .unwrap();
    assert_eq!(union.len(), 3);
    assert!(union.contains(&b"a".to_vec()));
    assert!(union.contains(&b"b".to_vec()));
    assert!(union.contains(&b"c".to_vec()));
}

#[test]
fn test_sdiff() {
    let mut store = SetStore::new();
    store
        .sadd("set1", vec![b"a".to_vec(), b"b".to_vec(), b"c".to_vec()])
        .unwrap();
    store.sadd("set2", vec![b"b".to_vec()]).unwrap();

    let diff = store
        .sdiff(&[String::from("set1"), String::from("set2")])
        .unwrap();
    assert_eq!(diff.len(), 2);
    assert!(diff.contains(&b"a".to_vec()));
    assert!(diff.contains(&b"c".to_vec()));
}

#[test]
fn test_sinterstore() {
    let mut store = SetStore::new();
    store
        .sadd("set1", vec![b"a".to_vec(), b"b".to_vec(), b"c".to_vec()])
        .unwrap();
    store
        .sadd("set2", vec![b"b".to_vec(), b"c".to_vec(), b"d".to_vec()])
        .unwrap();

    let count = store
        .sinterstore("result", &[String::from("set1"), String::from("set2")])
        .unwrap();
    assert_eq!(count, 2);

    let members = store.smembers("result").unwrap();
    assert_eq!(members.len(), 2);
    assert!(members.contains(&b"b".to_vec()));
    assert!(members.contains(&b"c".to_vec()));
}

#[test]
fn missing_sets_give_not_found() {
    let mut store = SetStore::new();
    assert!(matches!(store.srem("none", vec![b"a".to_vec()]), Err(SynapError::NotFound)));
    assert!(matches!(store.sismember("none", b"a".to_vec()), Err(SynapError::NotFound)));
    assert!(matches!(store.smembers("none"), Err(SynapError::NotFound)));
    assert!(matches!(store.scard("none"), Err(SynapError::NotFound)));
    assert!(matches!(store.spop("none", None), Err(SynapError::NotFound)));
    assert!(matches!(store.srandmember("none", None), Err(SynapError::NotFound)));
    assert!(matches!(store.smove("none", "dest", b"a".to_vec()), Err(SynapError::NotFound)));
    assert!(!store.key_exists("dest"));
}

#[test]
fn emptied_sets_are_dropped() {
    let mut store = SetStore::new();
    store.sadd("s", vec![b"a".to_vec()]).unwrap();
    assert!(store.key_exists("s"));
    assert_eq!(store.srem("s", vec![b"a".to_vec()]).unwrap(), 1);
    assert!(!store.key_exists("s"));

    store.sadd("s", vec![b"a".to_vec(), b"b".to_vec()]).unwrap();
    assert_eq!(store.spop("s", Some(5)).unwrap().len(), 2);
    assert!(!store.key_exists("s"));

    store.sadd("src", vec![b"x".to_vec()]).unwrap();
    assert!(store.smove("src", "dst", b"x".to_vec()).unwrap());
    assert!(!store.key_exists("src"));
    assert!(!store.smove("dst", "src", b"y".to_vec()).unwrap());
    assert_eq!(store.scard("dst").unwrap(), 1);
}

#[test]
fn set_algebra_edge_cases() {
    let mut store = SetStore::new();
    store.sadd("a", vec![b"1".to_vec(), b"2".to_vec()]).unwrap();
    store.sadd("b", vec![b"2".to_vec(), b"3".to_vec()]).unwrap();
    let none: [String; 0] = [];
    assert!(store.sinter(&none).unwrap().is_empty());
    assert!(store.sunion(&none).unwrap().is_empty());
    assert!(store.sdiff(&none).unwrap().is_empty());
    // A missing key empties an intersection and counts as empty elsewhere.
    let with_missing = [String::from("a"), String::from("zz")];
    assert!(store.sinter(&with_missing).unwrap().is_empty());
    assert_eq!(store.sunion(&with_missing).unwrap().len(), 2);
    assert_eq!(store.sdiff(&with_missing).unwrap().len(), 2);
    let ab = [String::from("a"), String::from("b")];
    assert_eq!(store.sunionstore("u", &ab).unwrap(), 3);
    assert_eq!(store.sdiffstore("d", &ab).unwrap(), 1);
    assert_eq!(store.smembers("d").unwrap(), vec![b"1".to_vec()]);
    assert!(store.delete("u").unwrap());
    assert!(!store.delete("u").unwrap());
    let stats = store.stats();
    assert_eq!(stats.total_sets, 3);
    assert_eq!(stats.total_members, 5);
    assert_eq!(stats.sadd_count, 2);
    assert_eq!(stats.sinter_count, 0);
    assert_eq!(stats.sunion_count, 2);
    assert_eq!(stats.sdiff_count, 2);
}
