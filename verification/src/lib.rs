//! A log-structured key-value storage core: an append-only record log paired
//! with an in-memory offset index, plus a write-count-driven compaction step
//! that rewrites the live records into a fresh log.
//!
//! The log is modelled as a byte vector; reading and writing the bytes to a
//! file, and scanning directories for segment files, is left to the embedding
//! application.

use vstd::prelude::*;

pub mod codec;
pub mod engine;
pub mod segment;

verus! {

/// Errors surfaced by store operations.
///
/// Truncated records are never surfaced as errors: a read that runs off the
/// end of the log is reported as an absent key, and loading stops silently at
/// the first incomplete record.
#[derive(Clone, Copy, Debug, PartialEq, Eq, Structural)]
pub enum KvError {
    /// The value bytes for a key are not valid UTF-8 text.
    InvalidEncoding,
    /// An index offset does not point at a record for the requested key.
    DataCorruption,
}

} // verus!
