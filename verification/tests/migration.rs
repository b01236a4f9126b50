use synap_server::cluster::{ClusterError, MigrationState};
use synap_server::kv_store::KVStore;
use synap_server::migration::{MigrationCommand, SlotMigrationManager};
use synap_server::types::KVConfig;

#[test]
fn migrations_follow_their_commands() {
    let mut mgr = SlotMigrationManager::new(100, 30);
    mgr.start_migration_at(7, "a".to_string(), "b".to_string(), 1000).unwrap();
    assert!(matches!(
        mgr.start_migration_at(7, "a".to_string(), "c".to_string(), 1001),
        Err(ClusterError::SlotMigrating(7))
    ));
    let m = mgr.get_migration(7).unwrap();
    assert_eq!(m.state, MigrationState::Pending);
    assert_eq!(m.started_at, 1000);
    assert_eq!(m.to_node, "b");
    assert!(!mgr.is_migrating(7));

    let mut kv = KVStore::new(KVConfig::default());
    kv.set_at("k1".to_string(), b"v".to_vec(), None, 1000).unwrap();
    kv.set_at("k2".to_string(), b"v".to_vec(), None, 1000).unwrap();
    let cmd = mgr.next_command().unwrap();
    assert!(matches!(cmd, MigrationCommand::Start { slot: 7, .. }));
    let keys = vec!["k1".to_string(), "k2".to_string(), "gone".to_string()];
    mgr.handle_command(cmd, &mut kv, &keys, 1002);
    let m = mgr.get_migration(7).unwrap();
    assert_eq!(m.state, MigrationState::InProgress);
    assert_eq!(m.total_keys, 3);
    assert_eq!(m.keys_migrated, 2);
    assert!(mgr.is_migrating(7));
    assert!(mgr.next_command().is_none());

    mgr.complete_migration_at(7, 1005).unwrap();
    let m = mgr.get_migration(7).unwrap();
    assert_eq!(m.state, MigrationState::Complete);
    assert_eq!(m.completed_at, Some(1005));
    assert!(matches!(mgr.cancel_migration(7), Err(ClusterError::MigrationError(_))));
    assert!(matches!(mgr.next_command(), Some(MigrationCommand::Complete { slot: 7 })));
}

#[test]
fn unknown_slots_are_refused() {
    let mut mgr = SlotMigrationManager::new(10, 5);
    assert!(matches!(mgr.cancel_migration(3), Err(ClusterError::SlotNotAssigned(3))));
    assert!(matches!(mgr.complete_migration(3), Err(ClusterError::SlotNotAssigned(3))));
    assert!(mgr.get_migration(3).is_none());
    mgr.start_migration(3, "x".to_string(), "y".to_string()).unwrap();
    mgr.cancel_migration(3).unwrap();
    assert_eq!(mgr.get_migration(3).unwrap().state, MigrationState::Failed);
}
