//! Error type shared by the data structures of the server.

use vstd::prelude::*;
use crate::text::concat;

verus! {

/// Errors of Synap operations. Each variant carries the detail that its
/// message shows.
#[derive(Debug)]
pub enum SynapError {
    KeyNotFound(String),
    KeyExists(String),
    InvalidValue(String),
    MemoryLimitExceeded,
    TTLInvalid(String),
    CASFailed { expected: String, actual: String },
    UnknownCommand(String),
    InvalidRequest(String),
    SerializationError(String),
    InternalError(String),
    QueueNotFound(String),
    QueueFull(String),
    MessageNotFound(String),
    ConsumerNotFound(String),
    IoError(String),
    /// The request lacks a permission it needs.
    Forbidden(String),
    /// The request is not authenticated.
    Unauthorized(String),
    /// The key does not exist.
    NotFound,
    /// The key existed but its time to live has run out.
    KeyExpired,
}

/// Result type of Synap operations.
pub type Result<T> = std::result::Result<T, SynapError>;

/// The human-readable message of an error.
pub open spec fn error_message(e: SynapError) -> Seq<char> {
    match e {
        SynapError::KeyNotFound(s) => "Key not found: "@ + s@,
        SynapError::KeyExists(s) => "Key already exists: "@ + s@,
        SynapError::InvalidValue(s) => "Invalid value: "@ + s@,
        SynapError::MemoryLimitExceeded => "Memory limit exceeded"@,
        SynapError::TTLInvalid(s) => "Invalid TTL: "@ + s@,
        SynapError::CASFailed { expected, actual } =>
            "CAS failed - expected: "@ + expected@ + ", actual: "@ + actual@,
        SynapError::UnknownCommand(s) => "Unknown command: "@ + s@,
        SynapError::InvalidRequest(s) => "Invalid request: "@ + s@,
        SynapError::SerializationError(s) => "Serialization error: "@ + s@,
        SynapError::InternalError(s) => "Internal error: "@ + s@,
        SynapError::QueueNotFound(s) => "Queue not found: "@ + s@,
        SynapError::QueueFull(s) => "Queue is full: "@ + s@,
        SynapError::MessageNotFound(s) => "Message not found: "@ + s@,
        SynapError::ConsumerNotFound(s) => "Consumer not found: "@ + s@,
        SynapError::IoError(s) => "IO error: "@ + s@,
        SynapError::Forbidden(s) => "Forbidden: "@ + s@,
        SynapError::Unauthorized(s) => "Unauthorized: "@ + s@,
        SynapError::NotFound => "Not found"@,
        SynapError::KeyExpired => "Key expired"@,
    }
}

/// The HTTP status code of an error.
pub open spec fn error_status(e: SynapError) -> u16 {
    match e {
        SynapError::KeyNotFound(_) => 404,
        SynapError::KeyExists(_) => 409,
        SynapError::InvalidValue(_) | SynapError::TTLInvalid(_) | SynapError::InvalidRequest(_) => 400,
        SynapError::MemoryLimitExceeded => 507,
        SynapError::CASFailed { .. } => 409,
        SynapError::UnknownCommand(_) => 400,
        SynapError::SerializationError(_) | SynapError::InternalError(_) => 500,
        SynapError::QueueNotFound(_) | SynapError::MessageNotFound(_)
        | SynapError::ConsumerNotFound(_) => 404,
        SynapError::QueueFull(_) => 507,
        SynapError::IoError(_) => 500,
        SynapError::Forbidden(_) => 403,
        SynapError::Unauthorized(_) => 401,
        SynapError::NotFound => 404,
        SynapError::KeyExpired => 404,
    }
}

impl SynapError {
    /// HTTP status code for this error.
    pub fn status_code(&self) -> (code: u16)
        ensures
            code == error_status(*self),
    {
        match self {
            SynapError::KeyNotFound(_) => 404,
            SynapError::KeyExists(_) => 409,
            SynapError::InvalidValue(_) | SynapError::TTLInvalid(_) | SynapError::InvalidRequest(_) => 400,
            SynapError::MemoryLimitExceeded => 507,
            SynapError::CASFailed { .. } => 409,
            SynapError::UnknownCommand(_) => 400,
            SynapError::SerializationError(_) | SynapError::InternalError(_) => 500,
            SynapError::QueueNotFound(_) | SynapError::MessageNotFound(_)
            | SynapError::ConsumerNotFound(_) => 404,
            SynapError::QueueFull(_) => 507,
            SynapError::IoError(_) => 500,
            SynapError::Forbidden(_) => 403,
            SynapError::Unauthorized(_) => 401,
            SynapError::NotFound => 404,
            SynapError::KeyExpired => 404,
        }
    }

    /// The message of this error, as its `Display` shows it.
    pub fn to_string(&self) -> (msg: String)
        ensures
            msg@ == error_message(*self),
    {
        match self {
            SynapError::KeyNotFound(s) => concat("Key not found: ", s.as_str()),
            SynapError::KeyExists(s) => concat("Key already exists: ", s.as_str()),
            SynapError::InvalidValue(s) => concat("Invalid value: ", s.as_str()),
            SynapError::MemoryLimitExceeded => crate::text::owned("Memory limit exceeded"),
            SynapError::TTLInvalid(s) => concat("Invalid TTL: ", s.as_str()),
            SynapError::CASFailed { expected, actual } => {
                let a = concat("CAS failed - expected: ", expected.as_str());
                let b = concat(a.as_str(), ", actual: ");
                concat(b.as_str(), actual.as_str())
            },
            SynapError::UnknownCommand(s) => concat("Unknown command: ", s.as_str()),
            SynapError::InvalidRequest(s) => concat("Invalid request: ", s.as_str()),
            SynapError::SerializationError(s) => concat("Serialization error: ", s.as_str()),
            SynapError::InternalError(s) => concat("Internal error: ", s.as_str()),
            SynapError::QueueNotFound(s) => concat("Queue not found: ", s.as_str()),
            SynapError::QueueFull(s) => concat("Queue is full: ", s.as_str()),
            SynapError::MessageNotFound(s) => concat("Message not found: ", s.as_str()),
            SynapError::ConsumerNotFound(s) => concat("Consumer not found: ", s.as_str()),
            SynapError::IoError(s) => concat("IO error: ", s.as_str()),
            SynapError::Forbidden(s) => concat("Forbidden: ", s.as_str()),
            SynapError::Unauthorized(s) => concat("Unauthorized: ", s.as_str()),
            SynapError::NotFound => crate::text::owned("Not found"),
            SynapError::KeyExpired => crate::text::owned("Key expired"),
        }
    }
}

} // verus!
