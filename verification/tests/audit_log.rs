use synap_server::audit::{AuditLogEntry, AuditLogManager, AuthEventType};

fn entry(t: AuthEventType, user: &str, at: i64) -> AuditLogEntry {
    AuditLogEntry::new_at(t, Some(user.to_string()), "127.0.0.1".to_string(), true, at)
}

#[test]
fn log_keeps_the_last_entries() {
    let mut log = AuditLogManager::new(3);
    for i in 0..5 {
        log.log(entry(AuthEventType::LoginSuccess, "alice", i));
    }
    assert_eq!(log.len(), 3);
    let all = log.get_entries(None, None, None);
    let times: Vec<i64> = all.iter().map(|e| e.timestamp).collect();
    assert_eq!(times, vec![4, 3, 2]);
}

#[test]
fn disabled_log_records_nothing() {
    let mut log = AuditLogManager::default();
    log.set_enabled(false);
    assert!(!log.is_enabled());
    log.log(entry(AuthEventType::Logout, "bob", 1));
    assert!(log.is_empty());
    log.set_enabled(true);
    log.log(entry(AuthEventType::Logout, "bob", 2));
    assert_eq!(log.len(), 1);
}

#[test]
fn filters_and_limit() {
    let mut log = AuditLogManager::new(100);
    log.log(AuditLogEntry::login_failure(Some("alice".to_string()), "10.0.0.1".to_string(), "bad".to_string()));
    log.log(entry(AuthEventType::LoginSuccess, "alice", 2));
    log.log(AuditLogEntry::login_failure(Some("bob".to_string()), "10.0.0.2".to_string(), "bad".to_string()));
    log.log(AuditLogEntry::api_key_failure("10.0.0.3".to_string(), "Invalid API key".to_string()));
    log.log(AuditLogEntry::login_failure(None, "10.0.0.4".to_string(), "bad".to_string()));

    let failed = log.get_failed_logins(None);
    assert_eq!(failed.len(), 3);
    assert_eq!(failed[0].client_ip, "10.0.0.4");
    assert_eq!(failed[2].client_ip, "10.0.0.1");
    assert!(failed.iter().all(|e| !e.success && e.event_type == AuthEventType::LoginFailure));

    let two = log.get_failed_logins(Some(2));
    assert_eq!(two.len(), 2);
    assert_eq!(two[1].client_ip, "10.0.0.2");

    let alice = log.get_entries(None, None, Some("alice"));
    assert_eq!(alice.len(), 2);
    assert_eq!(alice[0].event_type, AuthEventType::LoginSuccess);

    let keys = log.get_failed_api_keys(Some(10));
    assert_eq!(keys.len(), 1);
    assert_eq!(keys[0].error_message.as_deref(), Some("Invalid API key"));

    assert!(log.get_entries(Some(0), None, None).is_empty());
    log.clear();
    assert!(log.is_empty());
}

#[test]
fn entry_constructors() {
    let e = AuditLogEntry::permission_denied(
        Some("carol".to_string()),
        Some("key-1".to_string()),
        "1.2.3.4".to_string(),
        "kv:secret".to_string(),
        "write".to_string(),
    );
    assert_eq!(e.event_type, AuthEventType::PermissionDenied);
    assert!(!e.success);
    assert_eq!(e.error_message.as_deref(), Some("Permission denied for write on kv:secret"));
    assert_eq!(e.resource.as_deref(), Some("kv:secret"));

    let k = AuditLogEntry::api_key_success("key-2".to_string(), None, "1.2.3.4".to_string());
    assert!(k.success);
    assert_eq!(k.api_key_id.as_deref(), Some("key-2"));
    let l = AuditLogEntry::login_success("dave".to_string(), "1.2.3.4".to_string());
    assert_eq!(l.username.as_deref(), Some("dave"));
    assert!(l.timestamp > 0);
    let d = l.duplicate();
    assert_eq!(d.timestamp, l.timestamp);
    assert_eq!(d.username, l.username);
}

#[test]
fn zero_capacity_log_stays_empty() {
    let mut log = AuditLogManager::new(0);
    log.log(entry(AuthEventType::UserCreated, "erin", 1));
    assert!(log.is_empty());
}
