//! Wire protocol message catalogue.
//!
//! Every frame on the byte streams is `[4-byte big-endian length][payload]`,
//! and the payload encodes a pair `(ref_id: u64, Request)` inbound or
//! `(ref_id: u64, Response)` outbound. The payload encoding is fixed-schema
//! binary: little-endian fixed-width integers, `u32` variant tags in
//! declaration order, and `u64` byte-length prefixes (see the codec module).

use vstd::prelude::*;

verus! {

/// Correlation id chosen by the requesting peer and echoed in the response.
pub type RefId = u64;

/// A per-document root: the digest currently associated with its CRDT state.
#[derive(Debug, Clone, PartialEq, Eq)]
pub struct Root {
    pub doc_id: String,
    pub hash: Vec<u8>,
}

/// A sync transfer record: a document id, a CRDT payload, and the digest the
/// sender advertises for that payload.
#[derive(Debug, Clone, PartialEq, Eq)]
pub struct Change {
    pub doc_id: String,
    pub data: Vec<u8>,
    pub hash: Vec<u8>,
}

/// The closed request catalogue. The variant order is part of the wire
/// contract: tags are assigned in declaration order.
#[derive(Debug, Clone, PartialEq, Eq)]
pub enum Request {
    PutBlob { data: Vec<u8> },
    GetBlob { hash: Vec<u8> },
    HasBlob { hash: Vec<u8> },
    PutDocument { id: String, meta: Vec<u8>, crdt_state: Vec<u8> },
    GetDocument { id: String },
    DeleteDocument { id: String },
    ListDocuments,
    GetRoots { doc_ids: Vec<String> },
    GetChanges { known_roots: Vec<Vec<u8>> },
    ApplyChanges { changes: Vec<Change> },
}

/// The closed response catalogue. `SyncDiff` is reserved for a higher-level
/// sync operation: no request here produces it, but it can be encoded.
#[derive(Debug, Clone, PartialEq, Eq)]
pub enum Response {
    Okay,
    Blob { data: Vec<u8> },
    BlobStored { hash: Vec<u8> },
    BlobExists { exists: bool },
    Document { id: String, meta: Vec<u8>, crdt_state: Vec<u8> },
    DocumentList { ids: Vec<String> },
    NotFound,
    Roots { roots: Vec<Root> },
    Changes { changes: Vec<Change> },
    SyncDiff { to_send: Vec<Vec<u8>>, to_request: Vec<Vec<u8>> },
    Error { message: String },
}

} // verus!
