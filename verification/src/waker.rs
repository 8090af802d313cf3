//! What the results of the wakeup system calls mean.

use crate::error::IoKind;
use vstd::prelude::*;

verus! {

/// Where a wait for a wakeup stands.
#[derive(Debug, Clone, Copy, PartialEq, Eq)]
pub enum PollStep {
    /// The call was interrupted: make it again.
    Again,
    /// The wait is over.
    Done(Result<(), IoKind>),
}

/// What a call of `poll` on the wakeup descriptor and the handshake socket means: `ready`
/// is what it returned, `failure` the error if that is negative, `hung_up` whether the
/// socket reports that the publisher is gone. Nothing ready is a timeout; a publisher that
/// is gone ends the stream, even if a wakeup is pending.
pub fn poll_outcome(ready: i32, failure: IoKind, hung_up: bool) -> (s: PollStep)
    ensures
        s == (if ready < 0 {
            if failure == IoKind::Interrupted {
                PollStep::Again
            } else {
                PollStep::Done(Err(failure))
            }
        } else if ready == 0 {
            PollStep::Done(Err(IoKind::WouldBlock))
        } else if hung_up {
            PollStep::Done(Err(IoKind::UnexpectedEof))
        } else {
            PollStep::Done(Ok(()))
        }),
{
    if ready < 0 {
        if failure == IoKind::Interrupted {
            return PollStep::Again;
        }
        return PollStep::Done(Err(failure));
    }
    if ready == 0 {
        return PollStep::Done(Err(IoKind::WouldBlock));
    }
    if hung_up {
        return PollStep::Done(Err(IoKind::UnexpectedEof));
    }
    PollStep::Done(Ok(()))
}

/// What draining one wakeup means: whether there was one.
pub fn drain_outcome(drained: Result<(), IoKind>) -> (r: Result<bool, IoKind>)
    ensures
        r == (match drained {
            Ok(_) => Ok::<bool, IoKind>(true),
            Err(IoKind::WouldBlock) => Ok::<bool, IoKind>(false),
            Err(kind) => Err::<bool, IoKind>(kind),
        }),
{
    match drained {
        Ok(_) => Ok(true),
        Err(IoKind::WouldBlock) => Ok(false),
        Err(kind) => Err(kind),
    }
}

/// A wait ends well exactly when something is ready and the publisher is still there. An
/// interrupted call is made again; nothing ready is a timeout, and a publisher that is gone
/// ends the stream.
pub proof fn law_poll_means_what_it_says(
    ready: i32,
    failure: IoKind,
    hung_up: bool,
    s: PollStep,
)
    requires
        call_ensures(poll_outcome, (ready, failure, hung_up), s),
    ensures
        s is Again <==> ready < 0 && failure == IoKind::Interrupted,
        s == PollStep::Done(Ok(())) <==> ready > 0 && !hung_up,
        ready < 0 && failure != IoKind::Interrupted ==> s == PollStep::Done(Err(failure)),
        ready == 0 ==> s == PollStep::Done(Err(IoKind::WouldBlock)),
        ready > 0 && hung_up ==> s == PollStep::Done(Err(IoKind::UnexpectedEof)),
{
}

/// Draining tells whether there was a wakeup; that there was none is no error.
pub proof fn law_drain_means_what_it_says(drained: Result<(), IoKind>, r: Result<bool, IoKind>)
    requires
        call_ensures(drain_outcome, (drained,), r),
    ensures
        r == Ok::<bool, IoKind>(true) <==> drained is Ok,
        r == Ok::<bool, IoKind>(false) <==> drained is Err && drained->Err_0 is WouldBlock,
        r is Err ==> drained is Err && r->Err_0 == drained->Err_0,
{
}

} // verus!
