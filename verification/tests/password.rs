use synap_server::password::{validate_password, validate_password_strict, PasswordRequirements};

#[test]
fn test_min_length() {
    let req = PasswordRequirements::default();
    assert!(req.validate("short").is_err());
    assert!(req.validate("longenough").is_ok());
}

#[test]
fn test_strict_requirements() {
    let req = PasswordRequirements::strict();
    assert!(req.validate("Short1!").is_err());
    assert!(req.validate("longpassword123!").is_err());
    assert!(req.validate("LONGPASSWORD123!").is_err());
    assert!(req.validate("LongPassword!").is_err());
    assert!(req.validate("LongPassword123").is_err());
    assert!(req.validate("LongPassword123!").is_ok());
}

#[test]
fn test_common_password_rejection() {
    let req = PasswordRequirements {
        min_length: 6,
        reject_common_passwords: true,
        ..Default::default()
    };
    assert!(req.validate("password").is_err());
    assert!(req.validate("123456").is_err());
    assert!(req.validate("admin").is_err());
    assert!(req.validate("root").is_err());
}

#[test]
fn test_relaxed_requirements() {
    let req = PasswordRequirements::relaxed();
    assert!(req.validate("short").is_err());
    assert!(req.validate("longenough").is_ok());
}

#[test]
fn default_validation_accepts_long_uncommon_password() {
    assert!(validate_password("correct-horse").is_ok());
    assert!(validate_password("passw0r").is_err());
}

#[test]
fn strict_validation_helper_matches_strict_requirements() {
    assert!(validate_password_strict("LongPassword123!").is_ok());
    assert!(validate_password_strict("LongPassword123").is_err());
}
