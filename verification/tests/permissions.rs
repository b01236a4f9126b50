use synap_server::permissions::{Action, Permission, Role};

#[test]
fn test_action_includes() {
    assert!(Action::All.includes(Action::Read));
    assert!(Action::All.includes(Action::Write));
    assert!(Action::All.includes(Action::Delete));
    assert!(Action::All.includes(Action::Admin));

    assert!(!Action::Read.includes(Action::Write));
    assert!(Action::Read.includes(Action::Read));
}

#[test]
fn test_permission_exact_match() {
    let perm = Permission::new("queue:orders", Action::Read);
    assert!(perm.matches("queue:orders", Action::Read));
    assert!(!perm.matches("queue:orders", Action::Write));
    assert!(!perm.matches("queue:payments", Action::Read));
}

#[test]
fn test_permission_wildcard() {
    let perm = Permission::new("*", Action::Read);
    assert!(perm.matches("queue:orders", Action::Read));
    assert!(perm.matches("kv:users:123", Action::Read));
    assert!(!perm.matches("queue:orders", Action::Write));
}

#[test]
fn test_permission_prefix_wildcard() {
    let perm = Permission::new("queue:*", Action::Write);
    assert!(perm.matches("queue:orders", Action::Write));
    assert!(perm.matches("queue:payments", Action::Write));
    assert!(!perm.matches("kv:users", Action::Write));
}

#[test]
fn test_role_admin() {
    let role = Role::admin();
    assert_eq!(role.name, "admin");
    assert!(role.permissions[0].matches("anything", Action::Admin));
}

#[test]
fn test_action_configure_includes() {
    assert!(Action::Configure.includes(Action::Configure));
    assert!(Action::Configure.includes(Action::Read));
    assert!(Action::Configure.includes(Action::Write));
    assert!(!Action::Configure.includes(Action::Delete));
    assert!(!Action::Configure.includes(Action::Admin));
}

#[test]
fn test_permission_middle_wildcard() {
    let perm = Permission::new("queue:*:orders", Action::Read);
    assert!(perm.matches("queue:region1:orders", Action::Read));
    assert!(perm.matches("queue:region2:orders", Action::Read));
    assert!(!perm.matches("queue:orders", Action::Read));
    assert!(!perm.matches("stream:region1:orders", Action::Read));
}

#[test]
fn test_get_resource_type() {
    assert_eq!(Permission::get_resource_type("queue:orders"), Some("queue"));
    assert_eq!(Permission::get_resource_type("kv:users:123"), Some("kv"));
    assert_eq!(Permission::get_resource_type("invalid"), Some("invalid"));
}

#[test]
fn test_get_resource_name() {
    assert_eq!(Permission::get_resource_name("queue:orders"), Some("orders"));
    assert_eq!(Permission::get_resource_name("kv:users:123"), Some("users"));
    assert_eq!(Permission::get_resource_name("invalid"), None);
}

#[test]
fn test_queue_manager_role() {
    let role = Role::queue_manager();
    assert_eq!(role.name, "queue_manager");
    assert!(role.permissions.iter().any(|p| p.matches("queue:orders", Action::Read)));
    assert!(role.permissions.iter().any(|p| p.matches("queue:orders", Action::Write)));
    assert!(role.permissions.iter().any(|p| p.matches("queue:orders", Action::Configure)));
    assert!(!role.permissions.iter().any(|p| p.matches("queue:orders", Action::Delete)));
}

#[test]
fn test_stream_manager_role() {
    let role = Role::stream_manager();
    assert_eq!(role.name, "stream_manager");
    assert!(role.permissions.iter().any(|p| p.matches("stream:chat", Action::Read)));
    assert!(role.permissions.iter().any(|p| p.matches("stream:chat", Action::Write)));
    assert!(role.permissions.iter().any(|p| p.matches("stream:chat", Action::Configure)));
}

#[test]
fn test_data_manager_role() {
    let role = Role::data_manager();
    assert_eq!(role.name, "data_manager");
    assert!(role.permissions.iter().any(|p| p.matches("kv:key1", Action::Read)));
    assert!(role.permissions.iter().any(|p| p.matches("kv:key1", Action::Write)));
    assert!(role.permissions.iter().any(|p| p.matches("hash:key1", Action::Read)));
    assert!(role.permissions.iter().any(|p| p.matches("list:key1", Action::Read)));
}

#[test]
fn test_permission_multiple_patterns() {
    let perms = vec![
        Permission::new("queue:*", Action::Read),
        Permission::new("queue:orders", Action::Write),
    ];
    assert!(perms.iter().any(|p| p.matches("queue:orders", Action::Read)));
    assert!(perms.iter().any(|p| p.matches("queue:orders", Action::Write)));
}

#[test]
fn test_permission_specific_vs_wildcard() {
    let specific = Permission::new("queue:orders", Action::Read);
    let wildcard = Permission::new("queue:*", Action::Write);

    assert!(specific.matches("queue:orders", Action::Read));
    assert!(!specific.matches("queue:orders", Action::Write));
    assert!(!specific.matches("queue:payments", Action::Read));

    assert!(wildcard.matches("queue:orders", Action::Write));
    assert!(wildcard.matches("queue:payments", Action::Write));
}

#[test]
fn test_action_as_str() {
    assert_eq!(Action::Read.as_str(), "read");
    assert_eq!(Action::Write.as_str(), "write");
    assert_eq!(Action::Delete.as_str(), "delete");
    assert_eq!(Action::Configure.as_str(), "configure");
    assert_eq!(Action::Admin.as_str(), "admin");
    assert_eq!(Action::All.as_str(), "all");
}

#[test]
fn test_permission_kv_patterns() {
    let perm1 = Permission::new("kv:*", Action::Read);
    assert!(perm1.matches("kv:users:123", Action::Read));
    assert!(perm1.matches("kv:orders:456", Action::Read));

    let perm2 = Permission::new("kv:users:*", Action::Write);
    assert!(perm2.matches("kv:users:123", Action::Write));
    assert!(perm2.matches("kv:users:456", Action::Write));
    assert!(!perm2.matches("kv:orders:123", Action::Write));
}

#[test]
fn test_permission_stream_patterns() {
    let perm = Permission::new("stream:chat-*", Action::Read);
    assert!(perm.matches("stream:chat-room1", Action::Read));
    assert!(perm.matches("stream:chat-room2", Action::Read));
    assert!(!perm.matches("stream:notifications", Action::Read));
}

#[test]
fn test_permission_pubsub_patterns() {
    let perm = Permission::new("pubsub:*", Action::Write);
    assert!(perm.matches("pubsub:user.created", Action::Write));
    assert!(perm.matches("pubsub:order.placed", Action::Write));
}

#[test]
fn readonly_role_reads_everything_and_writes_nothing() {
    let role = Role::readonly();
    assert!(role.permissions.iter().any(|p| p.matches("kv:any", Action::Read)));
    assert!(!role.permissions.iter().any(|p| p.matches("kv:any", Action::Write)));
}

#[test]
fn custom_role_keeps_its_name_and_permissions() {
    let role = Role::custom("ops", vec![Permission::new("queue:*", Action::Delete)]);
    assert_eq!(role.name, "ops");
    assert_eq!(role.permissions.len(), 1);
    assert!(role.permissions[0].matches("queue:jobs", Action::Delete));
}
