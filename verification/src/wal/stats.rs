//! Observability snapshot of a WAL.

use vstd::prelude::*;

verus! {

/// Snapshot of the state of a WAL.
#[derive(Debug, Clone, Copy, PartialEq, Eq, Structural)]
pub struct WalStats {
    /// One past the highest cursor appended; it may not be durable yet.
    pub pending_cursor: u64,
    /// The cursor up to which records are durable.
    pub durable_cursor: u64,
    /// First cursor still on disk: what is older has been deleted.
    pub oldest_cursor: u64,
    /// Bytes in the segment that is being written.
    pub active_segment_bytes: u64,
    /// Bytes over all segments.
    pub total_wal_bytes: u64,
    /// Number of segments.
    pub segments: usize,
    /// Successful appends since the WAL was opened.
    pub appends_total: u64,
    /// Payload bytes appended since the WAL was opened.
    pub append_bytes_total: u64,
    /// Completed flushes since the WAL was opened: one per publish or one per tick of the
    /// flusher, as the policy has it.
    pub flushes_total: u64,
}

} // verus!
