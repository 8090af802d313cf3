//! Configuration of a bus.

use crate::wal::config;
use crate::wal::config::WalConfig;
use vstd::prelude::*;

verus! {

/// What the publisher does when the ring buffer is full.
#[derive(Debug, Clone, Copy, PartialEq, Eq, Structural)]
pub enum BackpressurePolicy {
    /// Refuse the message: the caller decides what to do.
    Error,
    /// Overwrite the oldest slot. A subscriber that had not read it notices the skip on
    /// its next read.
    DropOldest,
}

impl Default for BackpressurePolicy {
    fn default() -> (p: BackpressurePolicy)
        ensures
            p == BackpressurePolicy::Error,
    {
        BackpressurePolicy::Error
    }
}

/// Configuration of a bus, a publisher or a subscriber.
#[derive(Debug, Clone)]
pub struct BusConfig {
    /// Max payload bytes per message.
    pub slot_size: u32,
    /// Ring buffer slot count.
    pub capacity: u32,
    /// Root directory for bus files.
    pub base_dir: String,
    /// Maximum number of subscribers per topic at one time.
    pub max_subscribers: u32,
    /// What to do when the ring is full.
    pub backpressure: BackpressurePolicy,
    /// The log behind the ring.
    pub wal: WalConfig,
}

impl Default for BusConfig {
    fn default() -> (c: BusConfig)
        ensures
            c.slot_size == 65536,
            c.capacity == 256,
            c.base_dir@ == "/tmp/mmbus"@,
            c.max_subscribers == 16,
            c.backpressure == BackpressurePolicy::Error,
            c.wal == config::default_config(false),
    {
        BusConfig {
            slot_size: 64 * 1024,
            capacity: 256,
            base_dir: default_base_dir(),
            max_subscribers: 16,
            backpressure: BackpressurePolicy::Error,
            wal: WalConfig::default(),
        }
    }
}

/// Default root for bus files.
pub fn default_base_dir() -> (d: String)
    ensures
        d@ == "/tmp/mmbus"@,
{
    "/tmp/mmbus".to_owned()
}

} // verus!
