//! The stream of messages that a subscriber hands out.

use crate::codec;
use crate::error::{Error, IoKind};
use crate::ring;
use crate::ring::RingBuffer;
use crate::subscriber;
use crate::subscriber::{ReceiveIntoStep, ReceiveStep, Subscriber, SubscriberView};
use vstd::prelude::*;

verus! {

/// A live subscription to a topic.
pub struct Subscription {
    sub: Subscriber,
}

impl View for Subscription {
    type V = SubscriberView;

    closed spec fn view(&self) -> SubscriberView {
        self.sub@
    }
}

/// The end of a stream: a publisher that went away ends it, any other failure is handed
/// out.
pub open spec fn ends_stream(r: Result<Vec<u8>, Error>) -> bool {
    r == Err::<Vec<u8>, Error>(Error::Io(IoKind::UnexpectedEof)) || r == Err::<Vec<u8>, Error>(
        Error::Io(IoKind::ConnectionReset),
    )
}

impl Subscription {
    pub fn new(sub: Subscriber) -> (s: Subscription)
        ensures
            s@ == sub@,
    {
        Subscription { sub }
    }

    /// The next item of the stream, given what a receive gave: `None` at its end.
    pub fn next(received: Result<Vec<u8>, Error>) -> (item: Option<Result<Vec<u8>, Error>>)
        ensures
            item == (if ends_stream(received) {
                None
            } else {
                Some(received)
            }),
    {
        match received {
            Err(Error::Io(IoKind::UnexpectedEof)) => None,
            Err(Error::Io(IoKind::ConnectionReset)) => None,
            Ok(msg) => Some(Ok(msg)),
            Err(e) => Some(Err(e)),
        }
    }

    /// A step of a receive that waits for ever.
    pub fn recv(&mut self, rb: &mut RingBuffer) -> (s: ReceiveStep)
        requires
            subscriber::serves(*old(rb), old(self)@),
        ensures
            subscriber::serves(*final(rb), final(self)@),
            subscriber::same_shape(*final(rb), *old(rb)),
            ({
                let want = subscriber::read_next(old(rb)@, old(rb).slot_payload_size, old(self)@);
                &&& final(rb)@ == want.rb
                &&& final(self)@ == want.sub
                &&& match want.msg {
                    None => s == ReceiveStep::Wait(-1i32),
                    Some(msg) => s matches ReceiveStep::Message(m) && m@ == msg,
                }
            }),
    {
        self.sub.receive(rb)
    }

    /// A step of a receive into `out` that waits for ever.
    pub fn recv_into(&mut self, rb: &mut RingBuffer, out: &mut Vec<u8>) -> (s: ReceiveIntoStep)
        requires
            subscriber::serves(*old(rb), old(self)@),
        ensures
            subscriber::serves(*final(rb), final(self)@),
            subscriber::same_shape(*final(rb), *old(rb)),
            ({
                let want = subscriber::read_next(old(rb)@, old(rb).slot_payload_size, old(self)@);
                &&& final(rb)@ == want.rb
                &&& final(self)@ == want.sub
                &&& match want.msg {
                    None => {
                        &&& s == ReceiveIntoStep::Wait(-1i32)
                        &&& final(out)@ == Seq::<u8>::empty()
                    },
                    Some(msg) => s == ReceiveIntoStep::Filled && final(out)@ == msg,
                }
            }),
    {
        self.sub.receive_into(rb, out)
    }

    /// A step of a receive that ends after some time.
    pub fn recv_timeout(&mut self, rb: &mut RingBuffer, remaining_nanos: u128) -> (s: ReceiveStep)
        requires
            subscriber::serves(*old(rb), old(self)@),
        ensures
            subscriber::serves(*final(rb), final(self)@),
            subscriber::same_shape(*final(rb), *old(rb)),
            ({
                let want = subscriber::read_next(old(rb)@, old(rb).slot_payload_size, old(self)@);
                &&& final(rb)@ == want.rb
                &&& final(self)@ == want.sub
                &&& match want.msg {
                    None => s == (match subscriber::wait_limit(remaining_nanos) {
                        Some(ms) => ReceiveStep::Wait(ms),
                        None => ReceiveStep::GaveUp,
                    }),
                    Some(msg) => s matches ReceiveStep::Message(m) && m@ == msg,
                }
            }),
    {
        self.sub.receive_timeout(rb, remaining_nanos)
    }

    /// A step of a receive into `out` that ends after some time.
    pub fn recv_timeout_into(
        &mut self,
        rb: &mut RingBuffer,
        remaining_nanos: u128,
        out: &mut Vec<u8>,
    ) -> (s: ReceiveIntoStep)
        requires
            subscriber::serves(*old(rb), old(self)@),
        ensures
            subscriber::serves(*final(rb), final(self)@),
            subscriber::same_shape(*final(rb), *old(rb)),
            ({
                let want = subscriber::read_next(old(rb)@, old(rb).slot_payload_size, old(self)@);
                &&& final(rb)@ == want.rb
                &&& final(self)@ == want.sub
                &&& match want.msg {
                    None => {
                        &&& s == (match subscriber::wait_limit(remaining_nanos) {
                            Some(ms) => ReceiveIntoStep::Wait(ms),
                            None => ReceiveIntoStep::GaveUp,
                        })
                        &&& final(out)@ == Seq::<u8>::empty()
                    },
                    Some(msg) => s == ReceiveIntoStep::Filled && final(out)@ == msg,
                }
            }),
    {
        self.sub.receive_timeout_into(rb, remaining_nanos, out)
    }

    /// Reads the next message, if there is one.
    pub fn try_recv(&mut self, rb: &mut RingBuffer) -> (r: Option<Vec<u8>>)
        requires
            subscriber::serves(*old(rb), old(self)@),
        ensures
            subscriber::serves(*final(rb), final(self)@),
            subscriber::same_shape(*final(rb), *old(rb)),
            ({
                let want = subscriber::read_next(old(rb)@, old(rb).slot_payload_size, old(self)@);
                &&& subscriber::bytes_of(r) == want.msg
                &&& final(rb)@ == want.rb
                &&& final(self)@ == want.sub
            }),
    {
        self.sub.try_receive(rb)
    }

    /// Reads the next message into `out`, which is empty if there is none.
    pub fn try_recv_into(&mut self, rb: &mut RingBuffer, out: &mut Vec<u8>) -> (got: bool)
        requires
            subscriber::serves(*old(rb), old(self)@),
        ensures
            subscriber::serves(*final(rb), final(self)@),
            subscriber::same_shape(*final(rb), *old(rb)),
            ({
                let want = subscriber::read_next(old(rb)@, old(rb).slot_payload_size, old(self)@);
                &&& got == want.msg is Some
                &&& final(out)@ == (if got {
                    want.msg->Some_0
                } else {
                    Seq::empty()
                })
                &&& final(rb)@ == want.rb
                &&& final(self)@ == want.sub
            }),
    {
        self.sub.try_receive_into(rb, out)
    }

    /// Reads the next message to the start of `out`; `usize::MAX` if it does not fit.
    pub fn try_recv_into_slice(&mut self, rb: &mut RingBuffer, out: &mut [u8]) -> (r: Option<usize>)
        requires
            subscriber::serves(*old(rb), old(self)@),
        ensures
            subscriber::serves(*final(rb), final(self)@),
            subscriber::same_shape(*final(rb), *old(rb)),
            ({
                let want = subscriber::read_next(old(rb)@, old(rb).slot_payload_size, old(self)@);
                &&& final(rb)@ == want.rb
                &&& final(self)@ == want.sub
                &&& match want.msg {
                    None => r is None && final(out)@ == old(out)@,
                    Some(msg) => if msg.len() <= old(out)@.len() {
                        &&& r == Some(msg.len() as usize)
                        &&& final(out)@ == codec::patch(old(out)@, 0, msg)
                    } else {
                        r == Some(usize::MAX) && final(out)@ == old(out)@
                    },
                }
            }),
    {
        self.sub.try_receive_into_slice(rb, out)
    }

    /// Reads the next message to the start of `out`; an error if it does not fit.
    pub fn try_recv_one_into_slice(&mut self, rb: &mut RingBuffer, out: &mut [u8]) -> (r: Result<
        Option<usize>,
        Error,
    >)
        requires
            subscriber::serves(*old(rb), old(self)@),
        ensures
            subscriber::serves(*final(rb), final(self)@),
            subscriber::same_shape(*final(rb), *old(rb)),
            ({
                let want = subscriber::read_next(old(rb)@, old(rb).slot_payload_size, old(self)@);
                &&& final(rb)@ == want.rb
                &&& final(self)@ == want.sub
                &&& match want.msg {
                    None => r == Ok::<Option<usize>, Error>(None) && final(out)@ == old(out)@,
                    Some(msg) => if msg.len() <= old(out)@.len() {
                        &&& r == Ok::<Option<usize>, Error>(Some(msg.len() as usize))
                        &&& final(out)@ == codec::patch(old(out)@, 0, msg)
                    } else {
                        &&& r == Err::<Option<usize>, Error>(
                            Error::TooLarge {
                                size: msg.len() as usize,
                                max: old(out)@.len() as usize,
                            },
                        )
                        &&& final(out)@ == old(out)@
                    },
                }
            }),
    {
        self.sub.try_receive_one_into_slice(rb, out)
    }

    /// What a wait for a wakeup leads to: `true` to look again, `false` if the time is up.
    pub fn wait_readable(&self, waited: Result<(), IoKind>, generation: u64) -> (r: Result<
        bool,
        Error,
    >)
        ensures
            r == subscriber::timed_outcome(
                subscriber::wait_outcome(waited, generation == self@.generation),
            ),
    {
        self.sub.wait_readable(waited, generation)
    }

    /// Whether there is something to read already.
    pub fn arm_wakeup(&self, tail: u64) -> (ready: bool)
        ensures
            ready == (self@.cursor < tail),
    {
        self.sub.arm_wakeup(tail)
    }

    /// Whether a wakeup was pending, given what draining one gave.
    pub fn drain_wakeup(&self, drained: Result<bool, IoKind>) -> (r: Result<bool, Error>)
        ensures
            r == (match drained {
                Ok(pending) => Ok::<bool, Error>(pending),
                Err(kind) => Err::<bool, Error>(Error::Io(kind)),
            }),
    {
        self.sub.drain_wakeup(drained)
    }

    /// The largest payload of a message.
    pub fn slot_size(&self, rb: &RingBuffer) -> (n: u32)
        ensures
            n == rb.slot_payload_size,
    {
        self.sub.slot_size(rb)
    }

    /// How many messages are ahead of this subscription.
    pub fn lag(&self, tail: u64) -> (n: u64)
        ensures
            n == ring::lag_of(tail, self@.cursor),
    {
        self.sub.lag(tail)
    }

    /// The next position to read.
    pub fn cursor(&self) -> (c: u64)
        ensures
            c == self@.cursor,
    {
        self.sub.cursor()
    }

    /// One read for an event loop, given what draining one wakeup gave.
    pub fn poll_recv(&mut self, rb: &mut RingBuffer, drained: Result<bool, IoKind>) -> (r: Result<
        Option<Vec<u8>>,
        Error,
    >)
        requires
            subscriber::serves(*old(rb), old(self)@),
        ensures
            subscriber::serves(*final(rb), final(self)@),
            subscriber::same_shape(*final(rb), *old(rb)),
            ({
                let want = subscriber::read_next(old(rb)@, old(rb).slot_payload_size, old(self)@);
                let same = old(rb)@.generation == old(self)@.generation;
                if drained == Ok::<bool, IoKind>(true) && same {
                    &&& r is Ok
                    &&& subscriber::bytes_of(r->Ok_0) == want.msg
                    &&& final(rb)@ == want.rb
                    &&& final(self)@ == want.sub
                } else {
                    &&& final(rb)@ == old(rb)@
                    &&& final(self)@ == old(self)@
                    &&& r == (match drained {
                        Err(kind) => Err::<Option<Vec<u8>>, Error>(Error::Io(kind)),
                        Ok(false) => Ok::<Option<Vec<u8>>, Error>(None),
                        Ok(true) => Err::<Option<Vec<u8>>, Error>(Error::Io(IoKind::UnexpectedEof)),
                    })
                }
            }),
    {
        self.sub.poll_recv(rb, drained)
    }
}

/// A stream ends with exactly two errors: the end of the file, and a connection that was reset.
pub proof fn law_stream_ends_with_its_publisher(r: Result<Vec<u8>, Error>)
    ensures
        ends_stream(r) <==> r is Err && r->Err_0 is Io && (r->Err_0->Io_0 == IoKind::UnexpectedEof
            || r->Err_0->Io_0 == IoKind::ConnectionReset),
{
}

} // verus!
