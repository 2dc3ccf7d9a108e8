//! A sketch index: an inverted index from super-features to the chunk
//! hashes that hold them, kept by a [`store::Store`] and searched by
//! [`palantir::PalantirIndex`].

use vstd::prelude::*;

pub mod palantir;
pub mod store;

pub use palantir::{tier_for_sketch_size, PalantirIndex};
pub use store::index_storage::IndexStorage;
pub use store::mock_store::MockStore;
pub use store::{Store, Tier};

verus! {

/// Errors that index and storage operations report.
#[derive(Debug)]
pub enum IndexError {
    /// The search options are invalid (for instance a sketch size that no
    /// tier takes).
    InvalidSearchOptions,
    /// An internal invariant was violated.
    InternalInvariantViolation(String),
    /// A storage-level failure.
    StorageError(String),
    /// Serialising or deserialising storage data failed.
    SerializationError(String),
    /// The requested key is not in the store.
    KeyNotFound,
    /// The key is invalid.
    InvalidKey,
}

/// The message that describes an error.
pub open spec fn index_error_message(e: IndexError) -> Seq<char> {
    match e {
        IndexError::InvalidSearchOptions => "invalid search options provided"@,
        IndexError::InternalInvariantViolation(s) => "internal invariant violation: "@ + s@,
        IndexError::StorageError(s) => "storage error: "@ + s@,
        IndexError::SerializationError(s) => "serialization error: "@ + s@,
        IndexError::KeyNotFound => "key not found"@,
        IndexError::InvalidKey => "invalid key"@,
    }
}

impl IndexError {
    /// A human-readable description of the error.
    pub fn message(&self) -> (r: String)
        ensures
            r@ == index_error_message(*self),
    {
        match self {
            IndexError::InvalidSearchOptions => String::from_str("invalid search options provided"),
            IndexError::InternalInvariantViolation(s) => {
                let mut m = String::from_str("internal invariant violation: ");
                m.append(s.as_str());
                m
            },
            IndexError::StorageError(s) => {
                let mut m = String::from_str("storage error: ");
                m.append(s.as_str());
                m
            },
            IndexError::SerializationError(s) => {
                let mut m = String::from_str("serialization error: ");
                m.append(s.as_str());
                m
            },
            IndexError::KeyNotFound => String::from_str("key not found"),
            IndexError::InvalidKey => String::from_str("invalid key"),
        }
    }
}

} // verus!
