use synap_server::user::{User, UserManager};

#[test]
fn test_create_user() {
    let user = User::new("testuser", "password123", false).unwrap();
    assert_eq!(user.username, "testuser");
    assert!(user.verify_password("password123"));
    assert!(!user.verify_password("wrongpassword"));
    assert!(!user.is_admin);
    assert!(user.enabled);
}

#[test]
fn test_change_password() {
    let mut user = User::new("testuser", "oldpass123", false).unwrap();
    assert!(user.verify_password("oldpass123"));

    user.change_password("newpass123").unwrap();
    assert!(!user.verify_password("oldpass123"));
    assert!(user.verify_password("newpass123"));
}

#[test]
fn test_user_manager_create() {
    let mut manager = UserManager::new();
    manager.create_user("user1", "pass12345", false).unwrap();

    let user = manager.get_user("user1").unwrap();
    assert_eq!(user.username, "user1");
}

#[test]
fn test_user_manager_authenticate() {
    let mut manager = UserManager::new();
    manager.create_user("user1", "pass12345", false).unwrap();

    // Valid credentials
    let result = manager.authenticate("user1", "pass12345");
    assert!(result.is_ok());

    // Invalid password
    let result = manager.authenticate("user1", "wrongpass");
    assert!(result.is_err());

    // Non-existent user
    let result = manager.authenticate("nonexistent", "pass12345");
    assert!(result.is_err());
}

#[test]
fn test_user_manager_disable_user() {
    let mut manager = UserManager::new();
    manager.create_user("user1", "pass12345", false).unwrap();

    // Can authenticate when enabled
    assert!(manager.authenticate("user1", "pass12345").is_ok());

    // Disable user
    manager.set_user_enabled("user1", false).unwrap();

    // Cannot authenticate when disabled
    assert!(manager.authenticate("user1", "pass12345").is_err());
}

#[test]
fn test_user_roles() {
    let mut manager = UserManager::new();
    manager.create_user("user1", "pass12345", false).unwrap();

    manager.add_user_role("user1", "readonly").unwrap();
    let user = manager.get_user("user1").unwrap();
    assert!(user.roles.contains(&"readonly".to_string()));

    manager.remove_user_role("user1", "readonly").unwrap();
    let user = manager.get_user("user1").unwrap();
    assert!(!user.roles.contains(&"readonly".to_string()));
}

// Root user tests
#[test]
fn test_initialize_root_user() {
    let mut manager = UserManager::new();
    manager
        .initialize_root_user("root", "rootpass", true)
        .unwrap();

    assert!(manager.is_root_user("root"));
    assert_eq!(manager.get_root_username(), Some("root".to_string()));

    let root = manager.get_user("root").unwrap();
    assert!(root.is_admin);
    assert!(root.enabled);
    assert!(root.roles.contains(&"admin".to_string()));
}

#[test]
fn test_root_user_cannot_be_deleted() {
    let mut manager = UserManager::new();
    manager
        .initialize_root_user("root", "rootpass", true)
        .unwrap();

    let result = manager.delete_user("root");
    assert!(result.is_err());
    assert!(
        result
            .unwrap_err()
            .to_string()
            .contains("Cannot delete root user")
    );

    // Root user still exists
    assert!(manager.get_user("root").is_some());
}

#[test]
fn test_root_user_disabled_cannot_authenticate() {
    let mut manager = UserManager::new();
    manager
        .initialize_root_user("root", "rootpass", false)
        .unwrap();

    // Root user exists but is disabled
    let root = manager.get_user("root").unwrap();
    assert!(!root.enabled);

    // Cannot authenticate when disabled
    let result = manager.authenticate("root", "rootpass");
    assert!(result.is_err());
    assert!(
        result
            .unwrap_err()
            .to_string()
            .contains("Root user is disabled")
    );
}

#[test]
fn test_root_user_enabled_can_authenticate() {
    let mut manager = UserManager::new();
    manager
        .initialize_root_user("root", "rootpass", true)
        .unwrap();

    let result = manager.authenticate("root", "rootpass");
    assert!(result.is_ok());

    let authenticated = result.unwrap();
    assert_eq!(authenticated.username, "root");
    assert!(authenticated.is_admin);
}

#[test]
fn test_update_root_user_password() {
    let mut manager = UserManager::new();
    manager
        .initialize_root_user("root", "oldpass123", true)
        .unwrap();

    // Update password
    manager
        .initialize_root_user("root", "newpass123", true)
        .unwrap();

    // Old password doesn't work
    assert!(manager.authenticate("root", "oldpass123").is_err());

    // New password works
    assert!(manager.authenticate("root", "newpass123").is_ok());
}

#[test]
fn test_disable_root_user() {
    let mut manager = UserManager::new();
    manager
        .initialize_root_user("root", "rootpass", true)
        .unwrap();

    // Can authenticate initially
    assert!(manager.authenticate("root", "rootpass").is_ok());

    // Disable root user
    manager.disable_root_user().unwrap();

    // Cannot authenticate after disable
    let result = manager.authenticate("root", "rootpass");
    assert!(result.is_err());
    assert!(
        result
            .unwrap_err()
            .to_string()
            .contains("Root user is disabled")
    );
}

#[test]
fn test_disable_root_user_when_not_configured() {
    let mut manager = UserManager::new();
    // No root user initialized

    let result = manager.disable_root_user();
    assert!(result.is_err());
    assert!(
        result
            .unwrap_err()
            .to_string()
            .contains("No root user configured")
    );
}

#[test]
fn test_root_user_has_admin_permissions() {
    let mut manager = UserManager::new();
    manager
        .initialize_root_user("root", "rootpass", true)
        .unwrap();

    let permissions = manager.get_user_permissions("root");
    assert!(!permissions.is_empty());
    assert!(permissions[0].resource_pattern == "*");
}

#[test]
fn test_multiple_root_users_not_allowed() {
    let mut manager = UserManager::new();
    manager
        .initialize_root_user("root1", "pass12345", true)
        .unwrap();
    assert_eq!(manager.get_root_username(), Some("root1".to_string()));

    // Initialize different root user - should update root_username
    manager
        .initialize_root_user("root2", "pass23456", true)
        .unwrap();
    assert_eq!(manager.get_root_username(), Some("root2".to_string()));

    // root1 is no longer root
    assert!(!manager.is_root_user("root1"));
    assert!(manager.is_root_user("root2"));
}

#[test]
fn test_regular_user_can_be_deleted() {
    let mut manager = UserManager::new();
    manager
        .initialize_root_user("root", "rootpass123", true)
        .unwrap();
    manager.create_user("regular", "pass12345", false).unwrap();

    // Regular user can be deleted
    let deleted = manager.delete_user("regular").unwrap();
    assert!(deleted);
    assert!(manager.get_user("regular").is_none());

    // Root user still exists
    assert!(manager.get_user("root").is_some());
}

#[test]
fn test_root_user_initialization_with_existing_user() {
    let mut manager = UserManager::new();
    // Create regular user first
    manager.create_user("admin", "oldpass123", false).unwrap();

    // Initialize as root user
    manager
        .initialize_root_user("admin", "newpass123", true)
        .unwrap();

    assert!(manager.is_root_user("admin"));
    let admin = manager.get_user("admin").unwrap();
    assert!(admin.is_admin);
    assert!(admin.verify_password("newpass123"));
}

#[test]
fn test_root_user_get_root_username() {
    let mut manager = UserManager::new();
    assert_eq!(manager.get_root_username(), None);

    manager.initialize_root_user("root", "pass12345", true).unwrap();
    assert_eq!(manager.get_root_username(), Some("root".to_string()));
}

#[test]
fn test_is_root_user() {
    let mut manager = UserManager::new();
    assert!(!manager.is_root_user("root"));
    assert!(!manager.is_root_user("admin"));

    manager.initialize_root_user("root", "pass12345", true).unwrap();
    assert!(manager.is_root_user("root"));
    assert!(!manager.is_root_user("admin"));
}
