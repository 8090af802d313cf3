//! Statistics of a topic.

use crate::ring::RingStats;
use crate::wal::stats::WalStats;
use vstd::prelude::*;

verus! {

/// Snapshot of a topic's ring, sockets, log and counters.
#[derive(Debug, Clone)]
pub struct TopicStats {
    /// Tail, active subscribers and their lags.
    pub ring: RingStats,
    /// Subscriber sockets that the publisher has accepted. It may lag behind the active
    /// subscribers of the ring: the cursor is claimed before the handshake completes.
    pub connected_sockets: usize,
    /// The log, if the topic has one.
    pub wal: Option<WalStats>,
    /// Successful publishes since the publisher was created.
    pub published_total: u64,
    /// Publishes refused because the ring was full.
    pub full_rejected_total: u64,
    /// Subscribers dropped because they could not be woken.
    pub subscribers_dropped_total: u64,
    /// Wakeups sent.
    pub wakeups_sent_total: u64,
}

} // verus!
