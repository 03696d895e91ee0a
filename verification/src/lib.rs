//! An in-memory inverted index over whitespace-tokenized documents, with a
//! two-term boolean AND query engine.
//!
//! Documents arrive as JSON-lines records carrying a canonical identifier and
//! a text body. The build phase tokenizes each document, fingerprints each
//! token with a 64-bit hash, deduplicates the fingerprints per document, and
//! appends dense local ids to per-fingerprint posting lists, which are kept
//! strictly ascending by construction. The query phase intersects two posting
//! lists with a two-pointer merge and maps the surviving local ids back to
//! canonical identifiers.

pub mod hashing;
pub mod index;
pub mod laws;
pub mod model;
pub mod records;
pub mod tokens;
