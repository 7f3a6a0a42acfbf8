//! Error types of the library.

use vstd::prelude::*;

verus! {

/// Failure of the embedding store.
#[derive(Debug, Clone)]
pub enum StorageError {
    /// `insert`, `search_similar` or `count` was called while the backing
    /// table does not exist; `ensure_schema` must be called first.
    SchemaMissing,
    /// The backing medium refused an operation (read-only, missing, locked,
    /// or another database-level failure). Carries the backend's message.
    Backend(String),
}

impl StorageError {
    /// A human-readable description, in place of `Display`.
    pub fn message(&self) -> (r: String)
        ensures
            self is SchemaMissing ==> r@ == "embeddings table does not exist"@,
    {
        match self {
            StorageError::SchemaMissing => "embeddings table does not exist".to_owned(),
            StorageError::Backend(m) => m.clone(),
        }
    }
}

/// A required piece of external configuration is missing.
#[derive(Debug, Clone, PartialEq, Eq, Structural)]
pub enum ConfigurationError {
    /// The local database path is empty.
    MissingLocalPath,
    /// The remote bucket identifier is empty.
    MissingRemoteBucket,
    /// The remote object key is empty.
    MissingRemoteKey,
}

impl ConfigurationError {
    /// A human-readable description, in place of `Display`.
    pub fn message(&self) -> (r: String)
        ensures
            self is MissingLocalPath ==> r@ == "local database path is not set"@,
            self is MissingRemoteBucket ==> r@ == "remote bucket identifier is not set"@,
            self is MissingRemoteKey ==> r@ == "remote object key is not set"@,
    {
        match self {
            ConfigurationError::MissingLocalPath => "local database path is not set".to_owned(),
            ConfigurationError::MissingRemoteBucket => {
                "remote bucket identifier is not set".to_owned()
            },
            ConfigurationError::MissingRemoteKey => "remote object key is not set".to_owned(),
        }
    }
}

/// Failure to decode a stored embedding blob.
#[derive(Debug, Clone, PartialEq, Eq, Structural)]
pub enum DecodeError {
    /// The blob's byte length is not a multiple of four, so it cannot hold a
    /// whole number of 32-bit words.
    BadLength,
}

impl DecodeError {
    /// A human-readable description, in place of `Display`.
    pub fn message(&self) -> (r: String)
        ensures
            r@ == "embedding blob length is not a multiple of four"@,
    {
        "embedding blob length is not a multiple of four".to_owned()
    }
}

} // verus!
