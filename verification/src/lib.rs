//! Content-addressable archive storage.
//!
//! The engine takes arbitrary byte payloads, computes a stable `sha256:`-prefixed
//! identity for each, deduplicates repeated payloads, compresses new ones, keeps
//! size and reference metadata in a durable index, and serves reads back out
//! through a bounded in-memory hot cache.  Around it sit the aggregation pass
//! that turns raw request/response entries into per-session page-fetch records,
//! the redaction helpers that strip known secret values before anything is
//! hashed, and the session index of snapshot file paths.

pub mod errors;
pub mod hashing;
pub mod compress;
pub mod clock;
pub mod bloom;
pub mod cache;
pub mod meta;
pub mod records;
pub mod codec;
pub mod text;
pub mod storage;
pub mod redact;
pub mod laws;
