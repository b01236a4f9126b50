use synap_server::acl::{AuthContext, IpAddress};
use synap_server::error::SynapError;
use synap_server::permission_checker::{
    check_admin_permission, check_custom_permission, check_hash_permission, check_kv_permission,
    check_list_permission, check_pubsub_permission, check_queue_permission, check_script_permission,
    check_set_permission, check_sortedset_permission, check_stream_permission,
    check_transaction_permission, require_admin, require_auth, require_permission,
};
use synap_server::permissions::{Action, Permission};

fn create_test_context(permissions: Vec<Permission>) -> AuthContext {
    AuthContext {
        user_id: Some("test_user".to_string()),
        api_key_id: None,
        client_ip: IpAddress::V4([127, 0, 0, 1]),
        permissions,
        is_admin: false,
    }
}

fn create_context(permissions: Vec<Permission>, is_admin: bool) -> AuthContext {
    AuthContext {
        user_id: Some("test_user".to_string()),
        api_key_id: None,
        client_ip: IpAddress::V4([127, 0, 0, 1]),
        permissions,
        is_admin,
    }
}

#[test]
fn test_check_kv_permission() {
    let ctx = create_test_context(vec![Permission::new("kv:*", Action::Read)]);
    assert!(check_kv_permission(&ctx, "users:123", Action::Read));
    assert!(!check_kv_permission(&ctx, "users:123", Action::Write));
}

#[test]
fn test_check_queue_permission() {
    let ctx = create_test_context(vec![
        Permission::new("queue:orders", Action::Read),
        Permission::new("queue:*", Action::Write),
    ]);
    assert!(check_queue_permission(&ctx, "orders", Action::Read));
    assert!(check_queue_permission(&ctx, "orders", Action::Write));
    assert!(check_queue_permission(&ctx, "payments", Action::Write));
    assert!(!check_queue_permission(&ctx, "payments", Action::Read));
}

#[test]
fn test_check_stream_permission() {
    let ctx = create_test_context(vec![Permission::new("stream:chat-*", Action::Read)]);
    assert!(check_stream_permission(&ctx, "chat-room1", Action::Read));
    assert!(check_stream_permission(&ctx, "chat-room2", Action::Read));
    assert!(!check_stream_permission(&ctx, "notifications", Action::Read));
}

#[test]
fn test_check_pubsub_permission() {
    let ctx = create_test_context(vec![Permission::new("pubsub:*", Action::Write)]);
    assert!(check_pubsub_permission(&ctx, "user.created", Action::Write));
    assert!(check_pubsub_permission(&ctx, "order.placed", Action::Write));
}

#[test]
fn test_check_admin_permission() {
    let ctx = create_test_context(vec![Permission::new("admin:*", Action::Admin)]);
    assert!(check_admin_permission(&ctx));

    let admin_ctx = AuthContext {
        user_id: Some("admin".to_string()),
        api_key_id: None,
        client_ip: IpAddress::V4([127, 0, 0, 1]),
        permissions: vec![],
        is_admin: true,
    };
    assert!(check_admin_permission(&admin_ctx));
}

#[test]
fn test_check_custom_permission() {
    let ctx = create_test_context(vec![Permission::new("custom:*", Action::Read)]);
    assert!(check_custom_permission(&ctx, "custom", "resource1", Action::Read));
    assert!(!check_custom_permission(&ctx, "custom", "resource1", Action::Write));
}

#[test]
fn test_require_permission_success() {
    let ctx = create_context(vec![Permission::new("kv:*", Action::Read)], false);
    assert!(require_permission(&ctx, "kv:key1", Action::Read).is_ok());
}

#[test]
fn test_require_permission_failure() {
    let ctx = create_context(vec![Permission::new("kv:*", Action::Read)], false);
    assert!(require_permission(&ctx, "kv:key1", Action::Write).is_err());
}

#[test]
fn test_require_permission_admin() {
    let ctx = create_context(vec![], true);
    assert!(require_permission(&ctx, "kv:key1", Action::Write).is_ok());
}

#[test]
fn test_require_auth_success() {
    let ctx = create_context(vec![], false);
    assert!(require_auth(&ctx).is_ok());
}

#[test]
fn test_require_auth_failure() {
    let ctx = AuthContext::anonymous(IpAddress::V4([127, 0, 0, 1]));
    assert!(require_auth(&ctx).is_err());
}

#[test]
fn test_require_admin_success() {
    let ctx = create_context(vec![], true);
    assert!(require_admin(&ctx).is_ok());
}

#[test]
fn test_require_admin_with_permission() {
    let ctx = create_context(vec![Permission::new("admin:*", Action::Admin)], false);
    assert!(require_admin(&ctx).is_ok());
}

#[test]
fn test_require_admin_failure() {
    let ctx = create_context(vec![], false);
    assert!(require_admin(&ctx).is_err());
}

#[test]
fn refusal_messages_name_resource_and_action() {
    let ctx = create_context(vec![Permission::new("kv:*", Action::Read)], false);
    match require_permission(&ctx, "kv:key1", Action::Write) {
        Err(SynapError::Forbidden(m)) => {
            assert_eq!(m, "Insufficient permissions for resource: kv:key1, action: write")
        }
        _ => panic!("expected a refusal"),
    }
    let anon = AuthContext::anonymous(IpAddress::V4([10, 0, 0, 1]));
    match require_auth(&anon) {
        Err(e) => {
            assert_eq!(e.status_code(), 401);
            assert_eq!(e.to_string(), "Unauthorized: Authentication required");
        }
        Ok(()) => panic!("expected a refusal"),
    }
    match require_admin(&ctx) {
        Err(e) => assert_eq!(e.status_code(), 403),
        Ok(()) => panic!("expected a refusal"),
    }
}

#[test]
fn each_kind_prefixes_its_own_type() {
    let ctx = create_test_context(vec![
        Permission::new("hash:h1", Action::Read),
        Permission::new("list:*", Action::Write),
        Permission::new("set:s*", Action::Delete),
        Permission::new("sortedset:board", Action::Read),
        Permission::new("transaction:*", Action::Write),
    ]);
    assert!(check_hash_permission(&ctx, "h1", Action::Read));
    assert!(!check_hash_permission(&ctx, "h2", Action::Read));
    assert!(!check_kv_permission(&ctx, "h1", Action::Read));
    assert!(check_list_permission(&ctx, "jobs", Action::Write));
    assert!(check_set_permission(&ctx, "s1", Action::Delete));
    assert!(!check_set_permission(&ctx, "t1", Action::Delete));
    assert!(check_sortedset_permission(&ctx, "board", Action::Read));
    assert!(check_transaction_permission(&ctx, Action::Write));
    assert!(!check_script_permission(&ctx, Action::Write));
    assert!(!check_admin_permission(&ctx));
}
