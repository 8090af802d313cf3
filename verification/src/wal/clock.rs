//! Wall-clock time, in nanoseconds since the Unix epoch.

use std::time::{Duration, SystemTime, SystemTimeError, UNIX_EPOCH};
use vstd::prelude::*;

verus! {

/// A point of the system clock, carried from `now` to `since_epoch`.
#[verifier::external_type_specification]
#[verifier::external_body]
pub struct ExSystemTime(SystemTime);

/// The error of `SystemTime::duration_since`: the clock stands before the epoch.
#[verifier::external_type_specification]
#[verifier::external_body]
pub struct ExSystemTimeError(SystemTimeError);

/// `SystemTime::now`. Nothing is claimed of the time that it reads.
#[verifier::external_body]
fn now() -> (t: SystemTime) {
    SystemTime::now()
}

/// `SystemTime::duration_since` the Unix epoch. Nothing is claimed of the result:
/// it rests on the machine's clock.
#[verifier::external_body]
fn since_epoch(t: SystemTime) -> (r: Result<Duration, SystemTimeError>) {
    t.duration_since(UNIX_EPOCH)
}

/// `Duration::as_nanos`. Nothing is claimed of the number: the durations that reach
/// it come from the clock.
#[verifier::external_body]
fn as_nanos(d: Duration) -> (n: u128) {
    d.as_nanos()
}

/// The low 64 bits of a nanosecond count, or zero for a clock before the epoch.
pub fn clamp_nanos(nanos: Option<u128>) -> (n: u64)
    ensures
        n as nat == (match nanos {
            Some(v) => v as nat % 0x1_0000_0000_0000_0000,
            None => 0,
        }),
{
    match nanos {
        Some(v) => {
            let low: u128 = v % 0x1_0000_0000_0000_0000;
            low as u64
        },
        None => 0,
    }
}

/// The current wall-clock time in nanoseconds since the Unix epoch.
pub fn unix_nanos() -> (n: u64) {
    match since_epoch(now()) {
        Ok(d) => clamp_nanos(Some(as_nanos(d))),
        Err(_) => clamp_nanos(None),
    }
}

/// The time that lies `elapsed` nanoseconds behind `base`: a clock that is anchored once
/// and read off the monotonic clock from there on.
pub fn anchored_nanos(base: u64, elapsed: u128) -> (n: u64)
    ensures
        ({
            let sum = base as nat + elapsed as nat % 0x1_0000_0000_0000_0000;
            n as nat == (if sum > u64::MAX {
                u64::MAX as nat
            } else {
                sum
            })
        }),
{
    base.saturating_add(clamp_nanos(Some(elapsed)))
}

} // verus!
