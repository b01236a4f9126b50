use synap_server::acl::IpAddress;
use synap_server::api_key::{ApiKey, ApiKeyManager};
use synap_server::error::SynapError;
use synap_server::permissions::{Action, Permission};

fn now() -> i64 {
    std::time::SystemTime::now()
        .duration_since(std::time::UNIX_EPOCH)
        .unwrap()
        .as_secs() as i64
}

#[test]
fn test_generate_api_key() {
    let key = ApiKey::generate(
        "test-key",
        Some("user1".to_string()),
        vec![Permission::new("queue:*", Action::Read)],
        vec![],
        Some(30),
    );
    assert_eq!(key.name, "test-key");
    assert!(key.key.starts_with("sk_"));
    assert_eq!(key.key.len(), 35);
    assert!(key.is_valid());
    assert!(key.expires_at.is_some());
    assert!(key.has_permission("queue:orders", Action::Read));
    assert!(!key.has_permission("queue:orders", Action::Write));
}

#[test]
fn test_api_key_expiration() {
    let mut key = ApiKey::generate("test", None, vec![], vec![], None);
    assert!(key.is_valid());
    key.expires_at = Some(now() - 86400);
    assert!(!key.is_valid());
}

#[test]
fn test_api_key_ip_restriction() {
    let allowed_ip = IpAddress::V4([192, 168, 1, 100]);
    let other_ip = IpAddress::V4([10, 0, 0, 1]);
    let key = ApiKey::generate("test", None, vec![], vec![allowed_ip], None);
    assert!(key.is_ip_allowed(allowed_ip));
    assert!(!key.is_ip_allowed(other_ip));
}

#[test]
fn test_api_key_manager_create() {
    let mut manager = ApiKeyManager::new();
    let key = manager.create("test-key", Some("user1".to_string()), vec![], vec![], Some(30)).unwrap();
    assert!(key.key.starts_with("sk_"));
    assert_eq!(key.name, "test-key");
    let retrieved = manager.get(&key.id).unwrap();
    assert_eq!(retrieved.id, key.id);
}

#[test]
fn test_api_key_manager_verify() {
    let mut manager = ApiKeyManager::new();
    let key = manager.create("test", None, vec![], vec![], None).unwrap();
    let client_ip = IpAddress::V4([127, 0, 0, 1]);
    assert!(manager.verify(&key.key, client_ip).is_ok());
    assert!(manager.verify("invalid_key", client_ip).is_err());
}

#[test]
fn test_api_key_manager_revoke() {
    let mut manager = ApiKeyManager::new();
    let key = manager.create("test", None, vec![], vec![], None).unwrap();
    assert!(manager.get(&key.id).is_some());
    assert!(manager.revoke(&key.id).unwrap());
    assert!(manager.get(&key.id).is_none());
    assert!(manager.verify(&key.key, IpAddress::V4([127, 0, 0, 1])).is_err());
}

#[test]
fn test_api_key_usage_tracking() {
    let mut manager = ApiKeyManager::new();
    let key = manager.create("test", None, vec![], vec![], None).unwrap();
    let client_ip = IpAddress::V4([127, 0, 0, 1]);
    for _ in 0..5 {
        manager.verify(&key.key, client_ip).unwrap();
    }
    let key_state = manager.get(&key.id).unwrap();
    assert_eq!(key_state.usage_count, 5);
    assert!(key_state.last_used_at.is_some());
}

#[test]
fn refusals_come_in_order() {
    let mut manager = ApiKeyManager::new();
    let t = 1_000_000i64;
    let k = manager.create_at("k", None, vec![], vec![IpAddress::V4([1, 2, 3, 4])], Some(1), t).unwrap();
    match manager.verify_at(&k.key, IpAddress::V4([5, 6, 7, 8]), t) {
        Err(SynapError::InvalidRequest(m)) => assert_eq!(m, "IP 5.6.7.8 not allowed for this API key"),
        other => panic!("unexpected: {other:?}"),
    }
    assert!(manager.verify_at(&k.key, IpAddress::V4([1, 2, 3, 4]), t + 86400).is_ok());
    match manager.verify_at(&k.key, IpAddress::V4([1, 2, 3, 4]), t + 86401) {
        Err(SynapError::InvalidRequest(m)) => assert_eq!(m, "API key expired or disabled"),
        other => panic!("unexpected: {other:?}"),
    }
    manager.set_enabled(&k.id, false).unwrap();
    assert!(matches!(manager.set_enabled("nope", true), Err(SynapError::KeyNotFound(_))));
    assert_eq!(manager.cleanup_expired_at(t + 86401), 1);
    assert!(manager.list().is_empty());
    assert!(manager.verify_at(&k.key, IpAddress::V4([1, 2, 3, 4]), t).is_err());
}
