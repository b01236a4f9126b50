use synap_server::acl::IpAddress;
use synap_server::api_key::ApiKeyManager;
use synap_server::middleware::{AuthHeader, AuthMiddleware};
use synap_server::permissions::{Action, Permission};
use synap_server::user::UserManager;

const LOCAL: IpAddress = IpAddress::V4([127, 0, 0, 1]);

fn text(s: &str) -> AuthHeader {
    AuthHeader::Text(s.to_string())
}

fn setup(require_auth: bool) -> (AuthMiddleware, String) {
    let mut users = UserManager::new();
    users.create_user("alice", "secret99", false).unwrap();
    users.create_user("admin", "adminpass1", true).unwrap();
    let mut keys = ApiKeyManager::new();
    let key = keys
        .create(
            "service",
            Some("alice".to_string()),
            vec![Permission::new("queue:*", Action::Write)],
            vec![],
            None,
        )
        .unwrap();
    (AuthMiddleware::new(users, keys, require_auth), key.key)
}

#[test]
fn bearer_key_authenticates() {
    let (mut auth, key) = setup(true);
    let header = text(&format!("Bearer {}", key));
    let ctx = auth.authenticate_request(&header, None, LOCAL).unwrap();
    assert_eq!(ctx.user_id.as_deref(), Some("alice"));
    assert!(ctx.api_key_id.is_some());
    assert!(!ctx.is_admin);
    assert!(ctx.has_permission("queue:orders", Action::Write));
    assert!(!ctx.has_permission("kv:x", Action::Read));
}

#[test]
fn bearer_key_is_trimmed() {
    let (mut auth, key) = setup(true);
    let header = text(&format!("Bearer   {}\t ", key));
    assert!(auth.authenticate_api_key(&header, None, LOCAL).unwrap().is_some());
}

#[test]
fn query_key_authenticates_without_header() {
    let (mut auth, key) = setup(true);
    let query = format!("a=1&api_key={}&b=2", key);
    let ctx = auth.authenticate_api_key(&AuthHeader::Absent, Some(&query), LOCAL).unwrap();
    assert!(ctx.is_some());
    // A query key is not looked at when the request has a header.
    let basic = text("Basic YWxpY2U6c2VjcmV0OTk=");
    assert!(auth.authenticate_api_key(&basic, Some(&query), LOCAL).unwrap().is_none());
}

#[test]
fn unknown_key_is_refused_without_falling_back() {
    let (mut auth, _key) = setup(false);
    let header = text("Bearer sk_unknown");
    assert!(auth.authenticate_api_key(&header, None, LOCAL).is_err());
    assert!(auth.authenticate_request(&header, None, LOCAL).is_err());
    let query = "api_key=sk_unknown";
    assert!(auth.authenticate_request(&AuthHeader::Absent, Some(query), LOCAL).is_err());
}

#[test]
fn empty_key_counts_as_none() {
    let (mut auth, _key) = setup(false);
    assert!(auth.authenticate_api_key(&text("Bearer    "), None, LOCAL).unwrap().is_none());
    assert!(auth.authenticate_api_key(&AuthHeader::Absent, Some("api_key="), LOCAL).unwrap().is_none());
    assert!(auth.authenticate_api_key(&AuthHeader::Absent, Some("apikey=x&other"), LOCAL).unwrap().is_none());
    assert!(auth.authenticate_api_key(&AuthHeader::Absent, None, LOCAL).unwrap().is_none());
}

#[test]
fn basic_credentials_authenticate() {
    let (mut auth, _key) = setup(true);
    let ctx = auth.authenticate_request(&text("Basic YWxpY2U6c2VjcmV0OTk="), None, LOCAL).unwrap();
    assert_eq!(ctx.user_id.as_deref(), Some("alice"));
    assert!(ctx.api_key_id.is_none());
    assert!(!ctx.is_admin);

    let admin = auth.authenticate_basic(&text("Basic YWRtaW46YWRtaW5wYXNzMQ=="), LOCAL).unwrap().unwrap();
    assert!(admin.is_admin);
    assert!(admin.has_permission("anything:at-all", Action::Delete));
}

#[test]
fn basic_credentials_refused() {
    let (mut auth, _key) = setup(false);
    // Wrong password.
    assert!(auth.authenticate_basic(&text("Basic YWxpY2U6d3JvbmdwYXNz"), LOCAL).is_err());
    // No colon.
    assert!(auth.authenticate_basic(&text("Basic YWxpY2VzZWNyZXQ5OQ=="), LOCAL).is_err());
    // Not base64.
    assert!(auth.authenticate_basic(&text("Basic !!!"), LOCAL).is_err());
    // Not UTF-8.
    assert!(auth.authenticate_basic(&text("Basic //46YWI="), LOCAL).is_err());
    // Unreadable header.
    assert!(auth.authenticate_basic(&AuthHeader::Unreadable, LOCAL).is_err());
    // Another scheme is no Basic credential.
    assert!(auth.authenticate_basic(&text("Digest abc"), LOCAL).unwrap().is_none());
    assert!(auth.authenticate_basic(&AuthHeader::Absent, LOCAL).unwrap().is_none());
}

#[test]
fn anonymous_unless_required() {
    let (mut open, _key) = setup(false);
    let ctx = open.authenticate_request(&AuthHeader::Absent, None, LOCAL).unwrap();
    assert!(ctx.user_id.is_none());
    assert!(ctx.api_key_id.is_none());
    assert!(ctx.permissions.is_empty());
    assert!(!ctx.is_authenticated());

    let (mut closed, _key) = setup(true);
    assert!(closed.authenticate_request(&AuthHeader::Absent, None, LOCAL).is_err());
    assert!(closed.authenticate_request(&text("Digest abc"), None, LOCAL).is_err());
}

#[test]
fn key_use_is_recorded() {
    let (mut auth, key) = setup(true);
    let header = text(&format!("Bearer {}", key));
    let ctx = auth.authenticate_request_at(&header, None, LOCAL, 1_000, 1_000).unwrap();
    let id = ctx.api_key_id.unwrap();
    let stored = auth.api_key_manager.get(&id).unwrap();
    assert_eq!(stored.usage_count, 1);
    assert_eq!(stored.last_used_at, Some(1_000));
}

#[test]
fn login_is_recorded() {
    let (mut auth, _key) = setup(true);
    let header = text("Basic YWxpY2U6c2VjcmV0OTk=");
    assert!(auth.authenticate_request_at(&header, None, LOCAL, 5, 4_242).is_ok());
    let alice = auth.user_manager.get_user("alice").unwrap();
    assert_eq!(alice.last_login, Some(4_242));
}
