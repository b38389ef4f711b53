//! Lightweight in-memory vector storage with exact top-k search and a
//! compact, versioned binary snapshot format.
//!
//! Vector components and scores are IEEE-754 single-precision values; the
//! library carries them as their raw 32-bit patterns (`f32::to_bits`), so that
//! every rule it applies to them (finiteness, the zero test, total ordering,
//! the snapshot encoding) is stated and proved over plain integers. Computing a
//! score is floating-point arithmetic and is left to the caller, who hands the
//! scores of a query to `Store::search`.
pub mod error;
pub mod file_persistence;
pub mod index;
pub mod memory;
pub mod metrics;
pub mod persistence;
pub mod search;
pub mod storage;
pub mod store;
pub mod text;
pub mod vector;

pub use crate::error::{Error, Result};
pub use crate::metrics::Metric;
pub use crate::search::{SearchHit, SearchSnapshot};
pub use crate::storage::VectorId;
pub use crate::store::{Store, UpsertResult};
