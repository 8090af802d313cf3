//! When the background flusher syncs a log.

use vstd::prelude::*;

verus! {

/// The longest nap of a flusher, in nanoseconds: it has to notice a shutdown.
pub const MAX_NAP: u64 = 50_000_000;

/// What a flusher does next.
#[derive(Debug, Clone, Copy, PartialEq, Eq, Structural)]
pub enum FlusherStep {
    /// The log is being closed.
    Stop,
    /// Sleep so many nanoseconds, or until there is news.
    Sleep(u64),
    /// Sync the log.
    Flush,
}

/// The clock of a flusher. Times are nanoseconds of a clock that never goes back.
pub struct Flusher {
    interval: u64,
    batch_bytes: usize,
    next_tick: u128,
    flushed: u64,
}

/// What a flusher knows.
#[verifier::ext_equal]
pub struct FlusherView {
    /// Between two syncs.
    pub interval: u64,
    /// Pending bytes that call for a sync regardless of the interval.
    pub batch_bytes: usize,
    /// When the next sync is due.
    pub next_tick: u128,
    /// How many bytes had been appended at the last sync.
    pub flushed: u64,
}

impl View for Flusher {
    type V = FlusherView;

    closed spec fn view(&self) -> FlusherView {
        FlusherView {
            interval: self.interval,
            batch_bytes: self.batch_bytes,
            next_tick: self.next_tick,
            flushed: self.flushed,
        }
    }
}

/// The time `interval` after `now`.
pub open spec fn tick_after(now: u128, interval: u64) -> u128 {
    if now + interval > u128::MAX {
        u128::MAX
    } else {
        (now + interval) as u128
    }
}

/// The bytes appended since the last sync; the count of appended bytes wraps around.
pub open spec fn pending_bytes(v: FlusherView, appended: u64) -> int {
    if appended >= v.flushed {
        appended - v.flushed
    } else {
        appended - v.flushed + 0x1_0000_0000_0000_0000
    }
}

/// Whether a sync is due: the interval is over, or more bytes are pending than a batch may
/// hold.
pub open spec fn due(v: FlusherView, now: u128, appended: u64) -> bool {
    now >= v.next_tick || pending_bytes(v, appended) > v.batch_bytes
}

impl Flusher {
    /// A flusher that starts `now`.
    pub fn new(interval: u64, batch_bytes: usize, now: u128, appended: u64) -> (f: Flusher)
        ensures
            f@ == (FlusherView {
                interval,
                batch_bytes,
                next_tick: tick_after(now, interval),
                flushed: appended,
            }),
    {
        Flusher {
            interval,
            batch_bytes,
            next_tick: now.saturating_add(interval as u128),
            flushed: appended,
        }
    }

    /// What to do `now`, given how many bytes have been appended so far. The interval starts
    /// anew with every sync.
    pub fn step(&mut self, shutdown: bool, now: u128, appended: u64) -> (s: FlusherStep)
        ensures
            if shutdown {
                s == FlusherStep::Stop && final(self)@ == old(self)@
            } else if due(old(self)@, now, appended) {
                &&& s == FlusherStep::Flush
                &&& final(self)@ == (FlusherView {
                    next_tick: tick_after(now, old(self)@.interval),
                    flushed: appended,
                    ..old(self)@
                })
            } else {
                let left = old(self)@.next_tick - now;
                &&& s == FlusherStep::Sleep(
                    if left < MAX_NAP {
                        left as u64
                    } else {
                        MAX_NAP
                    },
                )
                &&& final(self)@ == old(self)@
            },
    {
        if shutdown {
            return FlusherStep::Stop;
        }
        let pending: u64 = appended.wrapping_sub(self.flushed);
        if now >= self.next_tick || pending as u128 > self.batch_bytes as u128 {
            self.next_tick = now.saturating_add(self.interval as u128);
            self.flushed = appended;
            return FlusherStep::Flush;
        }
        let left: u128 = self.next_tick - now;
        if left < MAX_NAP as u128 {
            FlusherStep::Sleep(left as u64)
        } else {
            FlusherStep::Sleep(MAX_NAP)
        }
    }
}

/// A batch that is too large is synced at once, however much of the interval is left, and
/// then nothing is pending.
pub proof fn law_full_batch_is_flushed_at_once(v: FlusherView, now: u128, appended: u64)
    requires
        pending_bytes(v, appended) > v.batch_bytes,
    ensures
        due(v, now, appended),
        pending_bytes(FlusherView { flushed: appended, ..v }, appended) == 0,
{
}

} // verus!
