//! WAL configuration and its defaults.

use vstd::prelude::*;

verus! {

/// Per-record durability policy, see [`WalConfig::fsync_policy`].
///
/// | Variant   | Per-publish cost          | Durability on crash                        |
/// |-----------|---------------------------|--------------------------------------------|
/// | `Never`   | append to OS page cache   | last few seconds may be lost               |
/// | `Batched` | append + signal flusher   | last `fsync_interval` may be lost          |
/// | `Each`    | append + fsync            | nothing lost since the last good publish   |
#[derive(Debug, Clone, Copy, PartialEq, Eq, Structural)]
pub enum FsyncPolicy {
    /// No fsync: the OS writes its page cache back when it sees fit.
    Never,
    /// A background flusher syncs every [`WalConfig::fsync_interval`], or as soon as more
    /// than [`WalConfig::fsync_batch_bytes`] are pending.
    Batched,
    /// A sync on every publish. Slowest, with the strictest guarantee.
    Each,
}

impl Default for FsyncPolicy {
    fn default() -> (p: FsyncPolicy)
        ensures
            p == FsyncPolicy::Batched,
    {
        FsyncPolicy::Batched
    }
}

/// WAL configuration of a bus. The default is the disabled one.
#[derive(Debug, Clone, Copy, PartialEq, Eq, Structural)]
pub struct WalConfig {
    /// Enable the WAL for this bus.
    pub enabled: bool,
    /// Per-record fsync policy.
    pub fsync_policy: FsyncPolicy,
    /// Flusher tick interval for [`FsyncPolicy::Batched`], in nanoseconds.
    pub fsync_interval: u64,
    /// Pending bytes that call for a sync regardless of the interval.
    pub fsync_batch_bytes: usize,
    /// Size of a segment that calls for rotation.
    pub segment_size_max: usize,
    /// Total size on disk: the oldest segments are deleted to stay under it.
    pub retention_bytes: u64,
}

/// The default configuration, switched on or off.
pub open spec fn default_config(enabled: bool) -> WalConfig {
    WalConfig {
        enabled,
        fsync_policy: FsyncPolicy::Batched,
        fsync_interval: 5_000_000,
        fsync_batch_bytes: 1_048_576,
        segment_size_max: 67_108_864,
        retention_bytes: 1_073_741_824,
    }
}

impl WalConfig {
    /// The configuration of a bus that does not use the WAL.
    pub fn disabled() -> (c: WalConfig)
        ensures
            c == default_config(false),
    {
        Self::default()
    }

    /// A WAL with the default policy, switched on.
    pub fn batched() -> (c: WalConfig)
        ensures
            c == default_config(true),
    {
        WalConfig { enabled: true, ..Self::default() }
    }
}

impl Default for WalConfig {
    fn default() -> (c: WalConfig)
        ensures
            c == default_config(false),
    {
        WalConfig {
            enabled: false,
            fsync_policy: FsyncPolicy::Batched,
            fsync_interval: 5_000_000,
            fsync_batch_bytes: 1024 * 1024,
            segment_size_max: 64 * 1024 * 1024,
            retention_bytes: 1024 * 1024 * 1024,
        }
    }
}

} // verus!
