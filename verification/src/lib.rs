//! An in-memory full-text index over short text entries with exact-word
//! match semantics.
//!
//! Terms are normalized (case-folded, whitespace-trimmed and -collapsed)
//! identically at build time and at query time; an inverted index maps each
//! normalized term to the entries that carry it, in insertion order; a
//! reader-writer latch serializes mutation while admitting concurrent reads.

pub mod error;
pub mod normalize;
pub mod store;
pub mod index;
pub mod dictionary;
pub mod latch;

pub use error::DictError;

