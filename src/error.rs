//! The library's error taxonomy.

use vstd::prelude::*;

verus! {

/// What can go wrong while storing, reading or scanning.
#[derive(Debug, PartialEq, Eq)]
pub enum PTreeError {
    /// A file could not be opened, read, written or synced.
    Io(String),
    /// The store is in a state that the operation cannot use.
    Cache(String),
    /// A serialized value could not be produced or read back.
    Serialization(String),
    /// The requested root does not exist.
    InvalidDrive(String),
    /// A lock could not be taken.
    LockTimeout(String),
    /// A directory walk failed.
    Traversal(String),
    /// A record's bytes are truncated or malformed.
    CorruptRecord,
    /// A record reaches past the end of the mapped data.
    OutOfRange,
}

} // verus!
