use synap_server::error::SynapError;

#[test]
fn test_error_status_codes() {
    assert_eq!(
        SynapError::KeyNotFound("test".to_string()).status_code(),
        axum::http::StatusCode::NOT_FOUND.as_u16()
    );
    assert_eq!(
        SynapError::KeyExists("test".to_string()).status_code(),
        axum::http::StatusCode::CONFLICT.as_u16()
    );
    assert_eq!(
        SynapError::InvalidValue("test".to_string()).status_code(),
        axum::http::StatusCode::BAD_REQUEST.as_u16()
    );
    assert_eq!(
        SynapError::MemoryLimitExceeded.status_code(),
        axum::http::StatusCode::INSUFFICIENT_STORAGE.as_u16()
    );
    assert_eq!(
        SynapError::CASFailed { expected: "1".to_string(), actual: "2".to_string() }.status_code(),
        axum::http::StatusCode::CONFLICT.as_u16()
    );
    assert_eq!(
        SynapError::QueueFull("test".to_string()).status_code(),
        axum::http::StatusCode::INSUFFICIENT_STORAGE.as_u16()
    );
}

#[test]
fn test_error_display() {
    let err = SynapError::KeyNotFound("mykey".to_string());
    assert_eq!(err.to_string(), "Key not found: mykey");

    let err = SynapError::CASFailed { expected: "1".to_string(), actual: "2".to_string() };
    assert_eq!(err.to_string(), "CAS failed - expected: 1, actual: 2");
}

#[test]
fn test_all_error_variants() {
    let _ = SynapError::KeyNotFound("key".to_string());
    let _ = SynapError::KeyExists("key".to_string());
    let _ = SynapError::InvalidValue("val".to_string());
    let _ = SynapError::MemoryLimitExceeded;
    let _ = SynapError::TTLInvalid("ttl".to_string());
    let _ = SynapError::CASFailed { expected: "1".to_string(), actual: "2".to_string() };
    let _ = SynapError::UnknownCommand("cmd".to_string());
    let _ = SynapError::InvalidRequest("req".to_string());
    let _ = SynapError::SerializationError("err".to_string());
    let _ = SynapError::InternalError("err".to_string());
    let _ = SynapError::QueueNotFound("q".to_string());
    let _ = SynapError::QueueFull("q".to_string());
    let _ = SynapError::MessageNotFound("msg".to_string());
    let _ = SynapError::ConsumerNotFound("consumer".to_string());
}

#[test]
fn other_error_messages_and_codes() {
    assert_eq!(SynapError::MemoryLimitExceeded.to_string(), "Memory limit exceeded");
    assert_eq!(SynapError::QueueFull("jobs".to_string()).to_string(), "Queue is full: jobs");
    assert_eq!(SynapError::InternalError("x".to_string()).status_code(), 500);
    assert_eq!(SynapError::TTLInvalid("x".to_string()).status_code(), 400);
    assert_eq!(SynapError::ConsumerNotFound("c".to_string()).status_code(), 404);
}
