use synap_server::kv_store::KVStore;
use synap_server::transaction::{CommandResult, TransactionCommand, TransactionManager};
use synap_server::types::KVConfig;

fn manager() -> TransactionManager {
    TransactionManager::new(KVStore::new(KVConfig::default()))
}

#[test]
fn test_multi_discard() {
    let mut manager = manager();
    let client_id = "client1".to_string();
    manager.multi(client_id.clone()).unwrap();
    assert!(manager.get_transaction(&client_id).is_some());
    manager.discard(&client_id).unwrap();
    assert!(manager.get_transaction(&client_id).is_none());
}

#[test]
fn test_transaction_queue_commands() {
    let mut manager = manager();
    let client_id = "client1".to_string();
    manager.multi(client_id.clone()).unwrap();
    let mut transaction = manager.get_transaction(&client_id).unwrap();
    transaction.queue_command(TransactionCommand::KVSet {
        key: "key1".to_string(),
        value: b"value1".to_vec(),
        ttl: None,
    });
    assert!(!transaction.is_empty());
    assert_eq!(transaction.get_keys_to_lock().len(), 1);
}

#[test]
fn test_transaction_exec() {
    let mut manager = manager();
    let client_id = "client1".to_string();
    manager.multi(client_id.clone()).unwrap();
    let mut transaction = manager.get_transaction(&client_id).unwrap();
    transaction.queue_command(TransactionCommand::KVSet {
        key: "key1".to_string(),
        value: b"value1".to_vec(),
        ttl: None,
    });
    manager.discard(&client_id).unwrap();
    manager.multi(client_id.clone()).unwrap();
    let result = manager.exec(&client_id).unwrap();
    assert_eq!(result, Some(Vec::new()));
}

#[test]
fn test_watch_unwatch() {
    let mut manager = manager();
    let client_id = "client1".to_string();
    manager.multi(client_id.clone()).unwrap();
    manager
        .watch(&client_id, vec!["key1".to_string(), "key2".to_string()])
        .unwrap();
    let transaction = manager.get_transaction(&client_id).unwrap();
    assert_eq!(transaction.get_watched_keys().len(), 2);
    manager.unwatch(&client_id).unwrap();
    let transaction = manager.get_transaction(&client_id).unwrap();
    assert_eq!(transaction.get_watched_keys().len(), 0);
}

#[test]
fn test_multi_twice_fails() {
    let mut manager = manager();
    let client_id = "client1".to_string();
    manager.multi(client_id.clone()).unwrap();
    assert!(manager.multi(client_id.clone()).is_err());
}

#[test]
fn test_discard_without_transaction_fails() {
    let mut manager = manager();
    assert!(manager.discard("client1").is_err());
}

#[test]
fn test_exec_without_transaction_fails() {
    let mut manager = manager();
    assert!(manager.exec("client1").is_err());
}

#[test]
fn exec_runs_queued_commands_in_order() {
    let mut manager = manager();
    manager.multi("c".to_string()).unwrap();
    manager
        .queue_command("c", TransactionCommand::KVSet { key: "n".to_string(), value: b"5".to_vec(), ttl: None })
        .unwrap();
    manager.queue_command("c", TransactionCommand::KVIncr { key: "n".to_string(), delta: 3 }).unwrap();
    manager.queue_command("c", TransactionCommand::KVIncr { key: "n".to_string(), delta: -10 }).unwrap();
    manager
        .queue_command("c", TransactionCommand::KVDel { keys: vec!["n".to_string(), "missing".to_string(), "n".to_string()] })
        .unwrap();
    let result = manager.exec("c").unwrap();
    assert_eq!(
        result,
        Some(vec![
            CommandResult::Stored,
            CommandResult::Value(8),
            CommandResult::Value(-2),
            CommandResult::Deleted(1),
        ])
    );
    assert!(manager.get_transaction("c").is_none());
}

#[test]
fn exec_stops_at_a_value_that_is_no_integer() {
    let mut manager = manager();
    manager.multi("c".to_string()).unwrap();
    manager
        .queue_command("c", TransactionCommand::KVSet { key: "s".to_string(), value: b"abc".to_vec(), ttl: None })
        .unwrap();
    manager.queue_command("c", TransactionCommand::KVIncr { key: "s".to_string(), delta: 1 }).unwrap();
    manager
        .queue_command("c", TransactionCommand::KVSet { key: "t".to_string(), value: b"x".to_vec(), ttl: None })
        .unwrap();
    assert!(manager.exec("c").is_err());
    assert!(manager.get_transaction("c").is_none());
    assert!(manager.kv_store().key_exists_at("s", 0).unwrap());
    assert!(!manager.kv_store().key_exists_at("t", 0).unwrap());
}

#[test]
fn a_write_aborts_a_transaction_watching_the_key() {
    let mut manager = manager();
    manager.multi("a".to_string()).unwrap();
    manager.multi("b".to_string()).unwrap();
    manager.watch("b", vec!["k".to_string()]).unwrap();
    manager
        .queue_command("a", TransactionCommand::KVSet { key: "k".to_string(), value: b"1".to_vec(), ttl: None })
        .unwrap();
    assert_eq!(manager.exec("a").unwrap(), Some(vec![CommandResult::Stored]));
    manager
        .queue_command("b", TransactionCommand::KVSet { key: "k".to_string(), value: b"2".to_vec(), ttl: None })
        .unwrap();
    assert_eq!(manager.exec("b").unwrap(), None);
    assert!(manager.get_transaction("b").is_none());
}

#[test]
fn a_watch_after_the_write_lets_the_transaction_run() {
    let mut manager = manager();
    manager.multi("a".to_string()).unwrap();
    manager
        .queue_command("a", TransactionCommand::KVSet { key: "k".to_string(), value: b"1".to_vec(), ttl: None })
        .unwrap();
    manager.exec("a").unwrap();
    manager.multi("b".to_string()).unwrap();
    manager.watch("b", vec!["k".to_string()]).unwrap();
    manager.queue_command("b", TransactionCommand::KVIncr { key: "k".to_string(), delta: 1 }).unwrap();
    assert_eq!(manager.exec("b").unwrap(), Some(vec![CommandResult::Value(2)]));
}

#[test]
fn queue_without_transaction_fails() {
    let mut manager = manager();
    assert!(manager.queue_command("x", TransactionCommand::KVIncr { key: "k".to_string(), delta: 1 }).is_err());
    assert!(manager.watch("x", vec![]).is_err());
    assert!(manager.unwatch("x").is_err());
}
