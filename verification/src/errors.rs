//! The error type shared by every engine operation.
use vstd::prelude::*;

verus! {

/// Why a node could not be placed in a blob.
#[derive(Debug, Clone, Copy, PartialEq, Eq, Structural)]
pub enum AllocError {
    /// The data area has fewer free bytes than the node needs.
    OutOfSpace { requested: u32, available: u32 },
    /// The slot table is full.
    OutOfSlots,
}

/// Everything an engine operation can fail with.
#[derive(Debug, Clone, Copy)]
pub enum Error {
    /// A node reference or body does not decode.
    NodeCorrupt { context: &'static str },
    /// The request needs a tree shape the engine does not support.
    NotYetImplemented(&'static str),
    /// The key is longer than a leaf can record.
    KeyTooLong { len: usize },
    /// The value is longer than a leaf can record.
    ValueTooLong { len: usize },
    /// A blob ran out of room.
    Alloc(AllocError),
    /// No blob is stored under the GUID.
    BlobNotFound { guid: [u8; 16] },
    /// A blob crossing led to a blob that is being deleted.
    StaleBlobCrossing(&'static str),
    /// The tree was dropped.
    TreeDropped,
    /// A broken internal expectation.
    Internal(&'static str),
}

/// Shorthand for results of engine operations.
pub type Result<T> = std::result::Result<T, Error>;

/// True for the error a stale blob crossing raises.
pub fn is_stale_blob_crossing(error: &Error) -> (r: bool)
    ensures
        r == (*error is StaleBlobCrossing),
{
    match error {
        Error::StaleBlobCrossing(_) => true,
        _ => false,
    }
}

/// True for the error an absent blob raises.
pub fn is_blob_store_not_found(error: &Error) -> (r: bool)
    ensures
        r == (*error is BlobNotFound),
{
    match error {
        Error::BlobNotFound { .. } => true,
        _ => false,
    }
}

} // verus!
