//! The indexer's error type, with outside errors carried as plain
//! messages.

use vstd::prelude::*;

verus! {

/// What can go wrong while building, reducing, loading or storing an
/// index tree.
#[derive(Debug, Clone)]
pub enum IndexerError {
    /// A JSON encode or decode failure.
    Json(String),
    /// A packed-index encode failure.
    IdxEncode(String),
    /// A packed-index decode failure.
    IdxDecode(String),
    /// A syscall-level failure, with the underlying message.
    Io(String),
    /// A directory entry that could not be classified.
    InvalidPath(String),
    /// A symlink target that was required but missing.
    NotFound(String),
    /// A lock left unusable by a panicking writer.
    LockPoisoned,
}

} // verus!
