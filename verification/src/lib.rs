//! An embedded, single-file document-plus-vector database core.
//!
//! The crate is organised around three subsystems that share one on-disk
//! artifact and one lifecycle:
//!
//! * a paged storage engine (fixed-size pages, per-page checksums) together
//!   with a write-through buffer pool,
//! * a document executor with a primary-key index that is rebuilt by
//!   scanning data pages,
//! * a vector subsystem: per-collection HNSW graphs, metadata filters,
//!   and a sparse-delta compressed vector store.
//!
//! All state lives in memory; reading and writing the actual files is left
//! to the embedding application, which exchanges whole byte images with
//! this crate.

pub mod assoc;
pub mod buffer;
pub mod compression;
pub mod db;
pub mod distance;
pub mod embedding;
pub mod error;
pub mod hnsw;
pub mod executor;
pub mod index;
pub mod jsonval;
pub mod jsontext;
pub mod jsonparse;
pub mod jsonround;
mod outside;
pub mod page;
pub mod pager;
pub mod search;
pub mod serializer;
pub mod strutil;
pub mod vectypes;

pub use crate::buffer::BufferPool;
pub use crate::compression::{CompressedVector, CompressedVectorStore, CompressionConfig,
    CompressionMode, CompressionStats, DeltaCompressor};
pub use crate::db::{Database, VectorSearcher};
pub use crate::distance::Distance;
pub use crate::embedding::{EmbeddingConfig, EmbeddingProvider, MockEmbeddingProvider,
    TfIdfEmbeddingProvider};
pub use crate::error::KeraDBError;
pub use crate::executor::{CollectionMetadata, Config, Executor};
pub use crate::hnsw::{HnswIndex, HnswNode, HnswStats};
pub use crate::index::{Index, IndexEntry};
pub use crate::jsonval::Val;
pub use crate::page::{Page, PageType};
pub use crate::pager::Pager;
pub use crate::search::VectorCollection;
pub use crate::serializer::{Document, Serializer};
pub use crate::vectypes::{FilterCondition, MetadataFilter, VectorCollectionStats,
    VectorConfig, VectorDocument, VectorSearchResult};
