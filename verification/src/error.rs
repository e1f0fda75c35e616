//! Error kinds reported by the database core.

use vstd::prelude::*;

verus! {

/// Classifies every failure the core can report.  Each variant carries the
/// offending name or a short description where one exists.
#[derive(Debug, Clone)]
pub enum KeraDBError {
    /// Encoding or decoding a document or a collection failed.
    Serialization(String),
    /// A named collection does not exist.
    CollectionNotFound(String),
    /// A document id was not found in the collection.
    DocumentNotFound(String),
    /// Magic bytes, a page kind byte or a length prefix was invalid.
    InvalidFormat(String),
    /// The file's format version is not the one this crate writes.
    VersionMismatch { expected: u32, actual: u32 },
    /// A page's stored checksum does not match its payload.
    ChecksumMismatch,
    /// The document value is not acceptable (not an object, bad `_id`).
    InvalidDocument(String),
    /// A document with the same id already exists in the collection.
    DuplicateKey(String),
    /// A storage-level failure: page out of range, payload too large.
    StorageError(String),
    /// Text could not be parsed.
    ParseError(String),
    /// A collection with this name already exists.
    CollectionExists(String),
    /// A vector node id or similar entity is missing.
    NotFound(String),
    /// A vector operation failed (bad configuration, bad dimensions).
    VectorError(String),
    /// An embedding could not be produced.
    EmbeddingError(String),
}

impl KeraDBError {
    /// A human-readable rendering of the error, for hosts that print it.
    pub fn message(&self) -> String {
        match self {
            KeraDBError::Serialization(s) => "serialization error: ".to_owned().concat(
                s.as_str(),
            ),
            KeraDBError::CollectionNotFound(s) => "collection not found: ".to_owned().concat(
                s.as_str(),
            ),
            KeraDBError::DocumentNotFound(s) => "document not found: ".to_owned().concat(
                s.as_str(),
            ),
            KeraDBError::InvalidFormat(s) => "invalid database format: ".to_owned().concat(
                s.as_str(),
            ),
            KeraDBError::VersionMismatch { expected: _, actual: _ } => {
                "database version mismatch".to_owned()
            },
            KeraDBError::ChecksumMismatch => {
                "checksum mismatch: data may be corrupted".to_owned()
            },
            KeraDBError::InvalidDocument(s) => "invalid document: ".to_owned().concat(
                s.as_str(),
            ),
            KeraDBError::DuplicateKey(s) => "duplicate key: ".to_owned().concat(s.as_str()),
            KeraDBError::StorageError(s) => "storage error: ".to_owned().concat(s.as_str()),
            KeraDBError::ParseError(s) => "parse error: ".to_owned().concat(s.as_str()),
            KeraDBError::CollectionExists(s) => "collection already exists: ".to_owned().concat(
                s.as_str(),
            ),
            KeraDBError::NotFound(s) => "not found: ".to_owned().concat(s.as_str()),
            KeraDBError::VectorError(s) => "vector error: ".to_owned().concat(s.as_str()),
            KeraDBError::EmbeddingError(s) => "embedding error: ".to_owned().concat(s.as_str()),
        }
    }
}

} // verus!
