//! A co-process storage engine: a content-addressed blob store and a document
//! store keyed by string ids, with per-document state digests, a combined
//! Merkle root over the document set, and diff/transfer primitives for
//! anti-entropy sync. Requests and responses travel as length-prefixed binary
//! frames carrying a correlation id.
//!
//! Persistence is an embedded `redb` database; digests are `blake3` hashes.
//! Both are reached through a small set of trusted wrappers; everything built
//! on top of them is verified.

pub mod digest;
pub mod order;
pub mod merkle;
pub mod protocol;
pub mod codec;
pub mod store;
pub mod dispatch;
