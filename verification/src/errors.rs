//! The error vocabulary shared by every backend, and the failures of a
//! fan-out over several stores.
use vstd::prelude::*;

verus! {

/// What a backend reports when an operation fails.
#[derive(Debug, Clone, PartialEq, Eq)]
pub enum DriverError {
    /// Nothing exists at the path.
    ResourceNotFound,
    /// The path cannot be written as a key of the backend.
    InvalidPath,
    /// The content is not the text that was asked for.
    DecodeError,
    /// The backend could not be reached.
    Network(),
    /// The backend refused the credentials.
    AuthenticationFailed,
    /// Any other failure, with the backend's own message.
    Any(String),
}

/// The message of each kind of error; `Any` shows its detail unchanged.
pub open spec fn message_of(e: DriverError) -> Seq<char> {
    match e {
        DriverError::ResourceNotFound => "Resource not found"@,
        DriverError::InvalidPath => "The provided path contains invalid characters"@,
        DriverError::DecodeError => "Failed to decode file contents"@,
        DriverError::Network() => "network error"@,
        DriverError::AuthenticationFailed => "authentication failed"@,
        DriverError::Any(detail) => detail@,
    }
}

impl DriverError {
    /// The text shown for this error.
    pub fn message(&self) -> (text: String)
        ensures
            text@ == message_of(*self),
    {
        match self {
            DriverError::ResourceNotFound => "Resource not found".to_string(),
            DriverError::InvalidPath => "The provided path contains invalid characters".to_string(),
            DriverError::DecodeError => "Failed to decode file contents".to_string(),
            DriverError::Network() => "network error".to_string(),
            DriverError::AuthenticationFailed => "authentication failed".to_string(),
            DriverError::Any(detail) => detail.clone(),
        }
    }
}

/// How a fan-out over several stores failed.
#[derive(Debug, Clone, PartialEq, Eq)]
pub enum MirrorError {
    /// Every target was tried; these failed, listed in ascending order of
    /// their names, each with its own error.
    MirrorFailedOnStores(Vec<(String, DriverError)>),
    /// The fan-out stopped at this store; no later target was tried.
    MirrorFailedOnStore(String, DriverError),
}

impl MirrorError {
    /// The text shown for this failure.
    pub fn message(&self) -> (text: String)
        ensures
            text@ == (match *self {
                MirrorError::MirrorFailedOnStores(_) => "Mirror name not found"@,
                MirrorError::MirrorFailedOnStore(_, _) => "Mirror failed on store"@,
            }),
    {
        match self {
            MirrorError::MirrorFailedOnStores(_) => "Mirror name not found".to_string(),
            MirrorError::MirrorFailedOnStore(_, _) => "Mirror failed on store".to_string(),
        }
    }
}

pub type DriverResult<T> = Result<T, DriverError>;

pub type MirrorResult<T> = Result<T, MirrorError>;

} // verus!
