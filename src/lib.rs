//! An embedded, single-writer key-value store laid out as a log-structured
//! merge tree. The library holds the on-disk formats, the write-ahead log
//! framing, the memtable, the table index, the merge of sorted runs, the
//! compaction policy and the store's read and write path; the embedding
//! program moves bytes between these and the file system.
use vstd::prelude::*;

pub mod bytes;
pub mod compactor;
pub mod memtable;
pub mod protocol;
pub mod sst;
pub mod store;
pub mod wal;

verus! {

use crate::protocol::Corruption;

/// What made an operation on stored data fail.
#[derive(Debug, PartialEq, Eq, Clone, Copy)]
pub enum Cause {
    /// The file system reported an error.
    Io,
    /// Stored bytes break the formats.
    Corruption(Corruption),
}

/// Why opening a store failed.
#[derive(Debug, PartialEq, Eq, Clone, Copy)]
pub enum StoreError {
    /// Reading or replaying the existing log failed.
    WalRecovery(Cause),
    /// Turning the recovered log into a level-0 table failed.
    WalConversion(Cause),
    /// Creating or truncating the log failed.
    WalInitialization(Cause),
    /// Scanning the data directory or opening a table failed.
    CatalogInitialization(Cause),
}

} // verus!
