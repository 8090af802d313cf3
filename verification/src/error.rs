//! Errors of the bus.

use crate::wal::v2::wal::WalError as MappedWalError;
use crate::wal::wal::WalError;
use vstd::prelude::*;

verus! {

/// The kinds of operating-system failure that the bus tells apart.
#[derive(Debug, Clone, Copy, PartialEq, Eq, Structural)]
pub enum IoKind {
    NotFound,
    PermissionDenied,
    ConnectionReset,
    BrokenPipe,
    AlreadyExists,
    WouldBlock,
    InvalidData,
    TimedOut,
    Interrupted,
    UnexpectedEof,
    Other,
}

/// All errors of the bus.
#[derive(Debug, Clone, PartialEq, Eq)]
pub enum Error {
    Io(IoKind),
    /// The ring is full and the backpressure policy refuses messages.
    Full,
    /// The payload exceeds the slot size.
    TooLarge { size: usize, max: usize },
    /// Connecting, or waiting for subscribers, took longer than allowed.
    Timeout(String),
    /// Every slot of the cursor table is taken.
    TooManySubscribers(u32),
    /// This process or another one already publishes the topic.
    AlreadyPublishing(String),
    /// A subscription was asked to start at a cursor that the ring no longer holds.
    CursorTooOld { requested: u64, oldest: u64 },
    /// The log over file-backed segments failed.
    Wal(WalError),
    /// The log over memory-mapped segments failed.
    MappedWal(MappedWalError),
}

} // verus!
