use synap_server::acl::{Acl, AclRule, AuthContext, IpAddress, ResourceType};
use synap_server::permissions::{Action, Permission};

#[test]
fn test_public_rule() {
    let rule = AclRule::public(ResourceType::Queue, "public_queue");
    let ctx = AuthContext::anonymous(IpAddress::V4([127, 0, 0, 1]));
    assert!(rule.check_access(&ctx, Action::Read));
    assert!(rule.check_access(&ctx, Action::Write));
}

#[test]
fn test_authenticated_rule() {
    let rule = AclRule::authenticated(ResourceType::Queue, "private_queue", vec![Action::Read, Action::Write]);
    let anon_ctx = AuthContext::anonymous(IpAddress::V4([127, 0, 0, 1]));
    assert!(!rule.check_access(&anon_ctx, Action::Read));

    let mut auth_ctx = anon_ctx.clone();
    auth_ctx.user_id = Some("user1".to_string());
    auth_ctx.permissions = vec![Permission::new("queue:*", Action::All)];
    assert!(rule.check_access(&auth_ctx, Action::Read));
}

#[test]
fn test_acl_check_access() {
    let mut acl = Acl::new();
    acl.add_rule(
        "queue:orders",
        AclRule::authenticated(ResourceType::Queue, "orders", vec![Action::Read, Action::Write]),
    );

    let anon_ctx = AuthContext::anonymous(IpAddress::V4([127, 0, 0, 1]));
    let result = acl.check_access(ResourceType::Queue, "orders", Action::Read, &anon_ctx);
    assert!(result.is_err());

    let mut auth_ctx = anon_ctx;
    auth_ctx.user_id = Some("user1".to_string());
    auth_ctx.permissions = vec![Permission::new("queue:*", Action::All)];
    let result = acl.check_access(ResourceType::Queue, "orders", Action::Read, &auth_ctx);
    assert!(result.is_ok());
}

#[test]
fn acl_without_rule_denies_everyone() {
    let acl = Acl::new();
    let anon = AuthContext::anonymous(IpAddress::V4([10, 0, 0, 1]));
    assert!(acl.check_access(ResourceType::KV, "k", Action::Read, &anon).is_err());
    let mut admin = AuthContext::anonymous(IpAddress::V4([10, 0, 0, 1]));
    admin.is_admin = true;
    admin.user_id = Some("root".to_string());
    let denied = acl.check_access(ResourceType::KV, "k", Action::Delete, &admin);
    assert!(matches!(denied, Err(synap_server::error::SynapError::InvalidRequest(ref m)) if m == "Access denied"));
}

#[test]
fn wildcard_rule_covers_every_name_of_its_type() {
    let mut acl = Acl::new();
    acl.add_rule("stream:*", AclRule::public(ResourceType::Stream, "*"));
    let anon = AuthContext::anonymous(IpAddress::V6([0; 16]));
    assert!(acl.check_access(ResourceType::Stream, "chat", Action::Write, &anon).is_ok());
    // A public rule asks for no authentication, so it allows every action.
    assert!(acl.check_access(ResourceType::Stream, "chat", Action::Delete, &anon).is_ok());
    assert!(acl.check_access(ResourceType::Queue, "chat", Action::Read, &anon).is_err());
}

#[test]
fn removed_rule_no_longer_applies() {
    let mut acl = Acl::new();
    acl.add_rule("queue:open", AclRule::public(ResourceType::Queue, "open"));
    let anon = AuthContext::anonymous(IpAddress::V4([127, 0, 0, 1]));
    assert!(acl.check_access(ResourceType::Queue, "open", Action::Read, &anon).is_ok());
    assert!(acl.remove_rule("queue:open"));
    assert!(!acl.remove_rule("queue:open"));
    assert!(acl.check_access(ResourceType::Queue, "open", Action::Read, &anon).is_err());
}

#[test]
fn list_rules_gives_every_rule_once() {
    let mut acl = Acl::new();
    acl.add_rule("queue:a", AclRule::public(ResourceType::Queue, "a"));
    acl.add_rule("queue:b", AclRule::public(ResourceType::Queue, "b"));
    acl.add_rule("queue:a", AclRule::public(ResourceType::Queue, "a2"));
    let rules = acl.list_rules();
    assert_eq!(rules.len(), 2);
    let mut keys: Vec<String> = rules.iter().map(|(k, _)| k.clone()).collect();
    keys.sort();
    assert_eq!(keys, vec!["queue:a".to_string(), "queue:b".to_string()]);
    let a = rules.iter().find(|(k, _)| k == "queue:a").unwrap();
    assert_eq!(a.1.resource_name, "a2");
}
