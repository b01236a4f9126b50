use synap_server::key_manager::{KeyManager, KeyType};
use synap_server::kv_store::KVStore;
use synap_server::set::SetStore;
use synap_server::types::KVConfig;

fn manager() -> KeyManager {
    KeyManager::new(KVStore::new(KVConfig::default()), SetStore::new())
}

#[test]
fn key_manager_test_exists() {
    let mut manager = manager();
    manager.kv_store.set("key1".to_string(), b"value1".to_vec(), None).unwrap();
    assert!(manager.key_exists("key1").unwrap());
    assert!(!manager.key_exists("nonexistent").unwrap());
}

#[test]
fn test_rename_kv() {
    let mut manager = manager();
    manager.kv_store.set("old".to_string(), b"value".to_vec(), None).unwrap();
    manager.rename("old", "new").unwrap();
    assert!(manager.kv_store.key_exists("new").unwrap());
    assert!(!manager.kv_store.key_exists("old").unwrap());
    let value = manager.kv_store.get("new").unwrap();
    assert_eq!(value, Some(b"value".to_vec()));
}

#[test]
fn test_renamenx() {
    let mut manager = manager();
    manager.kv_store.set("source".to_string(), b"value".to_vec(), None).unwrap();
    manager.kv_store.set("dest".to_string(), b"existing".to_vec(), None).unwrap();
    let result = manager.renamenx("source", "dest").unwrap();
    assert!(!result);
    assert!(manager.kv_store.key_exists("source").unwrap());
    assert_eq!(manager.kv_store.get("dest").unwrap(), Some(b"existing".to_vec()));
    manager.kv_store.delete("dest").unwrap();
    let result = manager.renamenx("source", "dest").unwrap();
    assert!(result);
    assert!(!manager.kv_store.key_exists("source").unwrap());
    assert!(manager.kv_store.key_exists("dest").unwrap());
}

#[test]
fn test_copy_kv() {
    let mut manager = manager();
    manager.kv_store.set("source".to_string(), b"value".to_vec(), None).unwrap();
    let result = manager.copy("source", "dest", false).unwrap();
    assert!(result);
    assert!(manager.kv_store.key_exists("source").unwrap());
    assert!(manager.kv_store.key_exists("dest").unwrap());
    let a = manager.kv_store.get("source").unwrap();
    let b = manager.kv_store.get("dest").unwrap();
    assert_eq!(a, b);
    manager.kv_store.set("dest".to_string(), b"old".to_vec(), None).unwrap();
    let result = manager.copy("source", "dest", true).unwrap();
    assert!(result);
    assert_eq!(manager.kv_store.get("dest").unwrap(), Some(b"value".to_vec()));
}

#[test]
fn test_key_type_set() {
    let mut manager = manager();
    manager.set_store.sadd("key1", vec![b"member1".to_vec()]).unwrap();
    assert_eq!(manager.key_type("key1").unwrap(), KeyType::SetKey);
}

#[test]
fn key_types_and_missing_keys() {
    let mut manager = manager();
    manager.kv_store.set("key1".to_string(), b"value1".to_vec(), None).unwrap();
    assert_eq!(manager.key_type("key1").unwrap(), KeyType::StringKey);
    assert_eq!(manager.key_type("nonexistent").unwrap(), KeyType::Absent);
    assert!(manager.rename("nonexistent", "x").is_err());
    assert!(manager.copy("nonexistent", "x", true).is_err());
    assert!(manager.rename("key1", "key1").is_ok());
    assert!(manager.copy("key1", "key1", false).unwrap());
}

#[test]
fn sets_rename_and_copy() {
    let mut manager = manager();
    manager.set_store.sadd("s", vec![b"a".to_vec(), b"b".to_vec()]).unwrap();
    manager.kv_store.set("t".to_string(), b"string".to_vec(), None).unwrap();
    // The string under "t" is replaced by the set.
    manager.rename("s", "t").unwrap();
    assert!(!manager.kv_store.key_exists("t").unwrap());
    assert!(!manager.set_store.key_exists("s"));
    let mut m = manager.set_store.smembers("t").unwrap();
    m.sort();
    assert_eq!(m, vec![b"a".to_vec(), b"b".to_vec()]);
    assert!(manager.copy("t", "u", false).unwrap());
    assert!(!manager.copy("t", "u", false).unwrap());
    assert_eq!(manager.set_store.smembers("u").unwrap().len(), 2);
    assert_eq!(manager.set_store.smembers("t").unwrap().len(), 2);
}

#[test]
fn randomkey_picks_a_stored_key() {
    let mut manager = manager();
    assert_eq!(manager.randomkey().unwrap(), None);
    manager.kv_store.set("a".to_string(), b"1".to_vec(), None).unwrap();
    manager.kv_store.set("b".to_string(), b"2".to_vec(), None).unwrap();
    let k = manager.randomkey().unwrap().unwrap();
    assert!(k == "a" || k == "b");
}
