//! What a subscriber decides.
//!
//! [`Subscriber`] keeps the cursor of one subscriber. Ring, socket and wakeup descriptor
//! belong to the caller, who reports how the operations on them went.

use crate::codec;
use crate::error::{Error, IoKind};
use crate::ring;
use crate::ring::{RingBuffer, RingView, CURSOR_UNCLAIMED};
use crate::rows;
use crate::rows::{row_capacity, store_row, RowError};
use vstd::prelude::*;

verus! {

/// Where a subscriber starts.
#[derive(Debug, Clone, Copy, PartialEq, Eq, Structural)]
pub enum StartPos {
    /// At the tail: only messages published from now on.
    Now,
    /// So many messages behind the tail, but no more than the ring holds.
    HistoryBack(u64),
    /// At a cursor, which must not be older than the oldest slot of the ring.
    Explicit(u64),
}

/// The cursor to start at, given the tail and the capacity of the ring.
pub open spec fn started_at(start: StartPos, tail: u64, capacity: u32) -> Result<u64, Error> {
    let oldest: u64 = if tail >= capacity {
        (tail - capacity) as u64
    } else {
        0
    };
    match start {
        StartPos::Now => Ok(tail),
        StartPos::HistoryBack(n) => Ok(
            if tail >= n && tail - n >= oldest {
                (tail - n) as u64
            } else {
                oldest
            },
        ),
        StartPos::Explicit(c) => if c < oldest {
            Err(Error::CursorTooOld { requested: c, oldest })
        } else {
            Ok(c)
        },
    }
}

/// Resolves a start position.
pub fn start_cursor(start: StartPos, tail: u64, capacity: u32) -> (r: Result<u64, Error>)
    ensures
        r == started_at(start, tail, capacity),
{
    let oldest: u64 = tail.saturating_sub(capacity as u64);
    match start {
        StartPos::Now => Ok(tail),
        StartPos::HistoryBack(n) => {
            let back: u64 = tail.saturating_sub(n);
            if back < oldest {
                return Ok(oldest);
            }
            Ok(back)
        },
        StartPos::Explicit(c) => {
            if c < oldest {
                return Err(Error::CursorTooOld { requested: c, oldest });
            }
            Ok(c)
        },
    }
}

/// One subscriber of a ring.
pub struct Subscriber {
    cursor: u64,
    cursor_idx: usize,
    generation: u64,
}

/// What a subscriber knows.
#[verifier::ext_equal]
pub struct SubscriberView {
    /// The next position to read.
    pub cursor: u64,
    /// Its place in the cursor table.
    pub idx: usize,
    /// The generation of the publisher it connected to.
    pub generation: u64,
}

impl View for Subscriber {
    type V = SubscriberView;

    closed spec fn view(&self) -> SubscriberView {
        SubscriberView { cursor: self.cursor, idx: self.cursor_idx, generation: self.generation }
    }
}

/// The ring can serve the subscriber: the subscriber has a place in its cursor table, and
/// there are slots wherever there is something to read.
pub open spec fn serves(rb: RingBuffer, s: SubscriberView) -> bool {
    &&& rb.wf()
    &&& rb.capacity > 0 || s.cursor >= rb@.tail
    &&& s.idx < rb.max_subscribers
    &&& forall|i: int| 0 <= i < rb@.slots.len() ==> (#[trigger] rb@.slots[i]).seq < u64::MAX
}

/// The shape of a ring does not change.
pub open spec fn same_shape(a: RingBuffer, b: RingBuffer) -> bool {
    &&& a.capacity == b.capacity
    &&& a.slot_payload_size == b.slot_payload_size
    &&& a.max_subscribers == b.max_subscribers
}

/// Another attempt, or the end of the attempts, while something does not exist yet.
#[derive(Debug, Clone, PartialEq, Eq)]
pub enum ConnectStep {
    Connected,
    Again,
    Fail(Error),
}

/// Decides what an attempt to open the ring, or to connect, leads to: a failed one is
/// repeated until the time is up.
pub fn connect_step(name: &str, succeeded: bool, expired: bool) -> (s: ConnectStep)
    ensures
        if succeeded {
            s == ConnectStep::Connected
        } else if expired {
            s matches ConnectStep::Fail(Error::Timeout(who)) && who@ == name@
        } else {
            s == ConnectStep::Again
        },
{
    if succeeded {
        return ConnectStep::Connected;
    }
    if expired {
        return ConnectStep::Fail(Error::Timeout(name.to_owned()));
    }
    ConnectStep::Again
}

/// The free slot that a subscriber takes: it starts at the tail, so that the producer sees
/// its position as soon as it accepts the connection.
pub fn claim(rb: &mut RingBuffer) -> (r: Result<usize, Error>)
    requires
        old(rb).wf(),
    ensures
        final(rb).wf(),
        same_shape(*final(rb), *old(rb)),
        match ring::first_free(old(rb)@.cursors) {
            None => {
                &&& r == Err::<usize, Error>(Error::TooManySubscribers(old(rb).max_subscribers))
                &&& final(rb)@ == old(rb)@
            },
            Some(i) => {
                &&& 0 <= i < old(rb)@.cursors.len()
                &&& r == Ok::<usize, Error>(i as usize)
                &&& final(rb)@ == (RingView {
                    cursors: old(rb)@.cursors.update(i, old(rb)@.tail),
                    ..old(rb)@
                })
            },
        },
{
    let tail: u64 = rb.current_tail();
    match rb.claim_cursor(tail) {
        Some(i) => Ok(i),
        None => Err(Error::TooManySubscribers(rb.max_subscribers)),
    }
}

/// The ring with the slot at `idx` given back.
pub open spec fn let_go(v: RingView, idx: usize) -> RingView {
    RingView { cursors: v.cursors.update(idx as int, CURSOR_UNCLAIMED), ..v }
}

/// Ends a connection attempt whose slot was claimed, once the handshake is over. The start
/// position is resolved against the ring as it is now: the publisher may have restarted
/// since the claim. A failed attempt gives the slot back.
pub fn finish_connect(
    rb: &mut RingBuffer,
    idx: usize,
    start: StartPos,
    handshake: Result<(), Error>,
) -> (r: Result<Subscriber, Error>)
    requires
        old(rb).wf(),
        idx < old(rb).max_subscribers,
    ensures
        final(rb).wf(),
        same_shape(*final(rb), *old(rb)),
        match (handshake, started_at(start, old(rb)@.tail, old(rb).capacity)) {
            (Err(e), _) => {
                &&& r == Err::<Subscriber, Error>(e)
                &&& final(rb)@ == let_go(old(rb)@, idx)
            },
            (Ok(_), Err(e)) => {
                &&& r == Err::<Subscriber, Error>(e)
                &&& final(rb)@ == let_go(old(rb)@, idx)
            },
            (Ok(_), Ok(cursor)) => {
                &&& r matches Ok(s)
                &&& s@ == (SubscriberView { cursor, idx, generation: old(rb)@.generation })
                &&& final(rb)@ == (RingView {
                    cursors: old(rb)@.cursors.update(idx as int, cursor),
                    ..old(rb)@
                })
            },
        },
{
    match handshake {
        Err(e) => {
            rb.release_cursor(idx);
            return Err(e);
        },
        Ok(_) => {},
    }
    let tail: u64 = rb.current_tail();
    match start_cursor(start, tail, rb.capacity) {
        Err(e) => {
            rb.release_cursor(idx);
            Err(e)
        },
        Ok(cursor) => {
            rb.set_cursor(idx, cursor);
            let generation: u64 = rb.generation();
            Ok(Subscriber { cursor, cursor_idx: idx, generation })
        },
    }
}

/// What the operations of a handshake gave, in the order in which they are made.
pub struct ConnectIo {
    /// Creating the wakeup descriptor.
    pub eventfd: Result<(), IoKind>,
    /// Connecting to the publisher's socket before the time was up.
    pub connected: bool,
    /// Passing the wakeup descriptor to the publisher.
    pub passed: Result<(), IoKind>,
}

/// What a handshake gave: the first operation that failed decides.
pub open spec fn handshake_is(r: Result<(), Error>, name: Seq<char>, io: ConnectIo) -> bool {
    match io.eventfd {
        Err(kind) => r == Err::<(), Error>(Error::Io(kind)),
        Ok(_) => if !io.connected {
            r matches Err(Error::Timeout(who)) && who@ == name
        } else {
            match io.passed {
                Err(kind) => r == Err::<(), Error>(Error::Io(kind)),
                Ok(_) => r == Ok::<(), Error>(()),
            }
        },
    }
}

/// What a handshake gave.
pub fn handshake(name: &str, io: ConnectIo) -> (r: Result<(), Error>)
    ensures
        handshake_is(r, name@, io),
{
    match io.eventfd {
        Err(kind) => Err(Error::Io(kind)),
        Ok(_) => {
            if !io.connected {
                return Err(Error::Timeout(name.to_owned()));
            }
            match io.passed {
                Err(kind) => Err(Error::Io(kind)),
                Ok(_) => Ok(()),
            }
        },
    }
}

/// A step of a receive that waits.
#[derive(Debug, Clone, PartialEq, Eq)]
pub enum ReceiveStep {
    Message(Vec<u8>),
    /// There is none: wait for a wakeup, at most so many milliseconds (for ever if negative).
    Wait(i32),
    /// The time is up.
    GaveUp,
}

/// A step of a receive into a buffer that waits.
#[derive(Debug, Clone, Copy, PartialEq, Eq, Structural)]
pub enum ReceiveIntoStep {
    /// The buffer holds the message.
    Filled,
    /// There is none: wait for a wakeup, at most so many milliseconds (for ever if negative).
    Wait(i32),
    /// The time is up.
    GaveUp,
}

/// The message at position `p`.
pub open spec fn message_at(v: RingView, p: u64) -> Seq<u8> {
    v.slots[ring::slot_of(p, v.slots.len())].payload()
}

/// What one read gives: the message, if there is one, and ring and subscriber after it.
#[verifier::ext_equal]
pub struct Read {
    pub msg: Option<Seq<u8>>,
    pub rb: RingView,
    pub sub: SubscriberView,
}

/// One read: a message moves the cursor of the subscriber, here and in the ring.
pub open spec fn read_next(v: RingView, slot_payload_size: u32, s: SubscriberView) -> Read {
    match ring::readable_at(v, slot_payload_size, s.cursor) {
        None => Read { msg: None, rb: v, sub: s },
        Some(p) => Read {
            msg: Some(message_at(v, p)),
            rb: RingView { cursors: v.cursors.update(s.idx as int, (p + 1) as u64), ..v },
            sub: SubscriberView { cursor: (p + 1) as u64, ..s },
        },
    }
}

/// The contents of an optional buffer.
pub open spec fn bytes_of(msg: Option<Vec<u8>>) -> Option<Seq<u8>> {
    match msg {
        None => None,
        Some(b) => Some(b@),
    }
}

/// How long a wait may take, in milliseconds: `None` if the time is up.
pub open spec fn wait_limit(remaining_nanos: u128) -> Option<i32> {
    if remaining_nanos == 0 {
        None
    } else if remaining_nanos / 1_000_000 > i32::MAX {
        Some(i32::MAX)
    } else {
        Some((remaining_nanos / 1_000_000) as i32)
    }
}

/// How long a wait may take.
pub fn remaining_ms(remaining_nanos: u128) -> (r: Option<i32>)
    ensures
        r == wait_limit(remaining_nanos),
{
    if remaining_nanos == 0 {
        return None;
    }
    let ms: u128 = remaining_nanos / 1_000_000;
    if ms > 0x7FFF_FFFF {
        Some(0x7FFF_FFFF)
    } else {
        Some(ms as i32)
    }
}

/// What a wait for a wakeup leads to. A publisher that restarted ends the stream: its ring
/// was logically reset.
pub open spec fn wait_outcome(waited: Result<(), IoKind>, same_generation: bool) -> Result<
    (),
    IoKind,
> {
    match waited {
        Err(kind) => Err(kind),
        Ok(_) => if same_generation {
            Ok(())
        } else {
            Err(IoKind::UnexpectedEof)
        },
    }
}

/// What a wait that ends after some time leads to: `true` to look again, `false` if the
/// time is up.
pub open spec fn timed_outcome(waited: Result<(), IoKind>) -> Result<bool, Error> {
    match waited {
        Ok(_) => Ok(true),
        Err(IoKind::WouldBlock) => Ok(false),
        Err(IoKind::TimedOut) => Ok(false),
        Err(kind) => Err(Error::Io(kind)),
    }
}

impl Subscriber {
    /// Connects to the ring of the topic `name`: claims a slot of the cursor table, goes by
    /// how the handshake went, and resolves the start position. The slot is given back
    /// unless all of that succeeds.
    pub fn connect_with(rb: &mut RingBuffer, name: &str, start: StartPos, io: ConnectIo) -> (r:
        Result<Subscriber, Error>)
        requires
            old(rb).wf(),
        ensures
            final(rb).wf(),
            same_shape(*final(rb), *old(rb)),
            match ring::first_free(old(rb)@.cursors) {
                None => {
                    &&& r == Err::<Subscriber, Error>(
                        Error::TooManySubscribers(old(rb).max_subscribers),
                    )
                    &&& final(rb)@ == old(rb)@
                },
                Some(i) => exists|h: Result<(), Error>| #[trigger]
                    handshake_is(h, name@, io) && match (
                        h,
                        started_at(start, old(rb)@.tail, old(rb).capacity),
                    ) {
                        (Err(e), _) => {
                            &&& r == Err::<Subscriber, Error>(e)
                            &&& final(rb)@ == old(rb)@
                        },
                        (Ok(_), Err(e)) => {
                            &&& r == Err::<Subscriber, Error>(e)
                            &&& final(rb)@ == old(rb)@
                        },
                        (Ok(_), Ok(cursor)) => {
                            &&& r matches Ok(s)
                            &&& s@ == (SubscriberView {
                                cursor,
                                idx: i as usize,
                                generation: old(rb)@.generation,
                            })
                            &&& final(rb)@ == (RingView {
                                cursors: old(rb)@.cursors.update(i, cursor),
                                ..old(rb)@
                            })
                        },
                    },
            },
    {
        let ghost v0 = rb@;
        let idx: usize = match claim(rb) {
            Err(e) => {
                return Err(e);
            },
            Ok(i) => i,
        };
        proof {
            rb.lemma_wf();
            crate::ring_laws::lemma_first_free(v0.cursors);
            assert(let_go(rb@, idx).cursors =~= v0.cursors);
            assert(forall|c: u64| #[trigger]
                rb@.cursors.update(idx as int, c) =~= v0.cursors.update(idx as int, c));
        }
        let h: Result<(), Error> = handshake(name, io);
        finish_connect(rb, idx, start, h)
    }

    /// Connects at the tail.
    pub fn connect(rb: &mut RingBuffer, name: &str, io: ConnectIo) -> (r: Result<
        Subscriber,
        Error,
    >)
        requires
            old(rb).wf(),
        ensures
            final(rb).wf(),
            same_shape(*final(rb), *old(rb)),
            match ring::first_free(old(rb)@.cursors) {
                None => {
                    &&& r == Err::<Subscriber, Error>(
                        Error::TooManySubscribers(old(rb).max_subscribers),
                    )
                    &&& final(rb)@ == old(rb)@
                },
                Some(i) => exists|h: Result<(), Error>| #[trigger]
                    handshake_is(h, name@, io) && match h {
                        Err(e) => {
                            &&& r == Err::<Subscriber, Error>(e)
                            &&& final(rb)@ == old(rb)@
                        },
                        Ok(_) => {
                            &&& r matches Ok(s)
                            &&& s@ == (SubscriberView {
                                cursor: old(rb)@.tail,
                                idx: i as usize,
                                generation: old(rb)@.generation,
                            })
                            &&& final(rb)@ == (RingView {
                                cursors: old(rb)@.cursors.update(i, old(rb)@.tail),
                                ..old(rb)@
                            })
                        },
                    },
            },
    {
        Subscriber::connect_with(rb, name, StartPos::Now, io)
    }

    /// Takes up the state of a subscriber whose slot was claimed.
    pub fn resume(cursor: u64, cursor_idx: usize, generation: u64) -> (s: Subscriber)
        ensures
            s@ == (SubscriberView { cursor, idx: cursor_idx, generation }),
    {
        Subscriber { cursor, cursor_idx, generation }
    }

    /// Gives the slot of the cursor table back.
    pub fn release(self, rb: &mut RingBuffer)
        requires
            old(rb).wf(),
            self@.idx < old(rb).max_subscribers,
        ensures
            final(rb).wf(),
            same_shape(*final(rb), *old(rb)),
            final(rb)@ == let_go(old(rb)@, self@.idx),
    {
        rb.release_cursor(self.cursor_idx);
    }

    /// Reads the next message, if there is one.
    pub fn try_receive(&mut self, rb: &mut RingBuffer) -> (r: Option<Vec<u8>>)
        requires
            serves(*old(rb), old(self)@),
        ensures
            serves(*final(rb), final(self)@),
            same_shape(*final(rb), *old(rb)),
            ({
                let want = read_next(old(rb)@, old(rb).slot_payload_size, old(self)@);
                &&& bytes_of(r) == want.msg
                &&& final(rb)@ == want.rb
                &&& final(self)@ == want.sub
            }),
    {
        let mut out: Vec<u8> = Vec::new();
        if self.try_receive_into(rb, &mut out) {
            Some(out)
        } else {
            None
        }
    }

    /// Reads the next message, if there is one and the subscriber stands before `durable`:
    /// a subscriber of a topic whose log is synced in batches holds its read position to the
    /// durable cursor of the log in this way.
    pub fn try_receive_durable(&mut self, rb: &mut RingBuffer, durable: u64) -> (r: Option<Vec<u8>>)
        requires
            serves(*old(rb), old(self)@),
        ensures
            serves(*final(rb), final(self)@),
            same_shape(*final(rb), *old(rb)),
            ({
                let want = if old(self)@.cursor < durable {
                    read_next(old(rb)@, old(rb).slot_payload_size, old(self)@)
                } else {
                    Read { msg: None, rb: old(rb)@, sub: old(self)@ }
                };
                &&& bytes_of(r) == want.msg
                &&& final(rb)@ == want.rb
                &&& final(self)@ == want.sub
            }),
    {
        if self.cursor < durable {
            self.try_receive(rb)
        } else {
            None
        }
    }

    /// Reads the next message into `out`, which is empty if there is none.
    pub fn try_receive_into(&mut self, rb: &mut RingBuffer, out: &mut Vec<u8>) -> (got: bool)
        requires
            serves(*old(rb), old(self)@),
        ensures
            serves(*final(rb), final(self)@),
            same_shape(*final(rb), *old(rb)),
            ({
                let want = read_next(old(rb)@, old(rb).slot_payload_size, old(self)@);
                &&& got == want.msg is Some
                &&& final(out)@ == (if got {
                    want.msg->Some_0
                } else {
                    Seq::empty()
                })
                &&& final(rb)@ == want.rb
                &&& final(self)@ == want.sub
            }),
    {
        out.clear();
        match rb.try_receive(self.cursor_idx, self.cursor, out) {
            Some(next) => {
                self.cursor = next;
                true
            },
            None => false,
        }
    }

    /// Reads the next message to the start of `out` and returns its length. A message that
    /// does not fit is passed over, and leaves `out` as it is: the result is `usize::MAX`.
    pub fn try_receive_into_slice(&mut self, rb: &mut RingBuffer, out: &mut [u8]) -> (r: Option<
        usize,
    >)
        requires
            serves(*old(rb), old(self)@),
        ensures
            serves(*final(rb), final(self)@),
            same_shape(*final(rb), *old(rb)),
            ({
                let want = read_next(old(rb)@, old(rb).slot_payload_size, old(self)@);
                &&& final(rb)@ == want.rb
                &&& final(self)@ == want.sub
                &&& match want.msg {
                    None => r is None && final(out)@ == old(out)@,
                    Some(msg) => if msg.len() <= old(out)@.len() {
                        &&& r == Some(msg.len() as usize)
                        &&& final(out)@ == codec::patch(old(out)@, 0, msg)
                    } else {
                        r == Some(usize::MAX) && final(out)@ == old(out)@
                    },
                }
            }),
    {
        match self.try_receive(rb) {
            None => None,
            Some(msg) => {
                if msg.len() > out.len() {
                    return Some(usize::MAX);
                }
                copy_to(out, msg.as_slice());
                Some(msg.len())
            },
        }
    }

    /// Reads the next message to the start of `out` and returns its length. A message that
    /// does not fit is passed over with an error.
    pub fn try_receive_one_into_slice(&mut self, rb: &mut RingBuffer, out: &mut [u8]) -> (r: Result<
        Option<usize>,
        Error,
    >)
        requires
            serves(*old(rb), old(self)@),
        ensures
            serves(*final(rb), final(self)@),
            same_shape(*final(rb), *old(rb)),
            ({
                let want = read_next(old(rb)@, old(rb).slot_payload_size, old(self)@);
                &&& final(rb)@ == want.rb
                &&& final(self)@ == want.sub
                &&& match want.msg {
                    None => r == Ok::<Option<usize>, Error>(None) && final(out)@ == old(out)@,
                    Some(msg) => if msg.len() <= old(out)@.len() {
                        &&& r == Ok::<Option<usize>, Error>(Some(msg.len() as usize))
                        &&& final(out)@ == codec::patch(old(out)@, 0, msg)
                    } else {
                        &&& r == Err::<Option<usize>, Error>(
                            Error::TooLarge {
                                size: msg.len() as usize,
                                max: old(out)@.len() as usize,
                            },
                        )
                        &&& final(out)@ == old(out)@
                    },
                }
            }),
    {
        match self.try_receive(rb) {
            None => Ok(None),
            Some(msg) => {
                if msg.len() > out.len() {
                    return Err(Error::TooLarge { size: msg.len(), max: out.len() });
                }
                copy_to(out, msg.as_slice());
                Ok(Some(msg.len()))
            },
        }
    }

    /// A step of a receive that waits for ever: the message, or a wait. It looks before it
    /// waits, because no wakeup comes for messages that are in the ring already.
    pub fn receive(&mut self, rb: &mut RingBuffer) -> (s: ReceiveStep)
        requires
            serves(*old(rb), old(self)@),
        ensures
            serves(*final(rb), final(self)@),
            same_shape(*final(rb), *old(rb)),
            ({
                let want = read_next(old(rb)@, old(rb).slot_payload_size, old(self)@);
                &&& final(rb)@ == want.rb
                &&& final(self)@ == want.sub
                &&& match want.msg {
                    None => s == ReceiveStep::Wait(-1i32),
                    Some(msg) => s matches ReceiveStep::Message(m) && m@ == msg,
                }
            }),
    {
        match self.try_receive(rb) {
            Some(msg) => ReceiveStep::Message(msg),
            None => ReceiveStep::Wait(-1),
        }
    }

    /// A step of a receive into `out` that waits for ever.
    pub fn receive_into(&mut self, rb: &mut RingBuffer, out: &mut Vec<u8>) -> (s: ReceiveIntoStep)
        requires
            serves(*old(rb), old(self)@),
        ensures
            serves(*final(rb), final(self)@),
            same_shape(*final(rb), *old(rb)),
            ({
                let want = read_next(old(rb)@, old(rb).slot_payload_size, old(self)@);
                &&& final(rb)@ == want.rb
                &&& final(self)@ == want.sub
                &&& match want.msg {
                    None => {
                        &&& s == ReceiveIntoStep::Wait(-1i32)
                        &&& final(out)@ == Seq::<u8>::empty()
                    },
                    Some(msg) => s == ReceiveIntoStep::Filled && final(out)@ == msg,
                }
            }),
    {
        if self.try_receive_into(rb, out) {
            ReceiveIntoStep::Filled
        } else {
            ReceiveIntoStep::Wait(-1)
        }
    }

    /// A step of a receive that ends after some time: the message, a wait, or the end.
    pub fn receive_timeout(&mut self, rb: &mut RingBuffer, remaining_nanos: u128) -> (s:
        ReceiveStep)
        requires
            serves(*old(rb), old(self)@),
        ensures
            serves(*final(rb), final(self)@),
            same_shape(*final(rb), *old(rb)),
            ({
                let want = read_next(old(rb)@, old(rb).slot_payload_size, old(self)@);
                &&& final(rb)@ == want.rb
                &&& final(self)@ == want.sub
                &&& match want.msg {
                    None => s == (match wait_limit(remaining_nanos) {
                        Some(ms) => ReceiveStep::Wait(ms),
                        None => ReceiveStep::GaveUp,
                    }),
                    Some(msg) => s matches ReceiveStep::Message(m) && m@ == msg,
                }
            }),
    {
        match self.try_receive(rb) {
            Some(msg) => ReceiveStep::Message(msg),
            None => match remaining_ms(remaining_nanos) {
                Some(ms) => ReceiveStep::Wait(ms),
                None => ReceiveStep::GaveUp,
            },
        }
    }

    /// A step of a receive into `out` that ends after some time.
    pub fn receive_timeout_into(
        &mut self,
        rb: &mut RingBuffer,
        remaining_nanos: u128,
        out: &mut Vec<u8>,
    ) -> (s: ReceiveIntoStep)
        requires
            serves(*old(rb), old(self)@),
        ensures
            serves(*final(rb), final(self)@),
            same_shape(*final(rb), *old(rb)),
            ({
                let want = read_next(old(rb)@, old(rb).slot_payload_size, old(self)@);
                &&& final(rb)@ == want.rb
                &&& final(self)@ == want.sub
                &&& match want.msg {
                    None => {
                        &&& s == (match wait_limit(remaining_nanos) {
                            Some(ms) => ReceiveIntoStep::Wait(ms),
                            None => ReceiveIntoStep::GaveUp,
                        })
                        &&& final(out)@ == Seq::<u8>::empty()
                    },
                    Some(msg) => s == ReceiveIntoStep::Filled && final(out)@ == msg,
                }
            }),
    {
        if self.try_receive_into(rb, out) {
            return ReceiveIntoStep::Filled;
        }
        match remaining_ms(remaining_nanos) {
            Some(ms) => ReceiveIntoStep::Wait(ms),
            None => ReceiveIntoStep::GaveUp,
        }
    }

    /// What a wait for a wakeup leads to, given the generation that the ring shows now.
    pub fn after_wait(&self, waited: Result<(), IoKind>, generation: u64) -> (r: Result<(), IoKind>)
        ensures
            r == wait_outcome(waited, generation == self@.generation),
    {
        match waited {
            Err(kind) => Err(kind),
            Ok(_) => {
                if generation != self.generation {
                    return Err(IoKind::UnexpectedEof);
                }
                Ok(())
            },
        }
    }

    /// What a wait for a wakeup that ends after some time leads to: `true` to look again,
    /// `false` if the time is up.
    pub fn wait_readable(&self, waited: Result<(), IoKind>, generation: u64) -> (r: Result<
        bool,
        Error,
    >)
        ensures
            r == timed_outcome(wait_outcome(waited, generation == self@.generation)),
    {
        match self.after_wait(waited, generation) {
            Ok(_) => Ok(true),
            Err(IoKind::WouldBlock) => Ok(false),
            Err(IoKind::TimedOut) => Ok(false),
            Err(kind) => Err(Error::Io(kind)),
        }
    }

    /// Whether a wakeup was pending, given what draining one gave.
    pub fn drain_wakeup(&self, drained: Result<bool, IoKind>) -> (r: Result<bool, Error>)
        ensures
            r == (match drained {
                Ok(pending) => Ok::<bool, Error>(pending),
                Err(kind) => Err::<bool, Error>(Error::Io(kind)),
            }),
    {
        match drained {
            Ok(pending) => Ok(pending),
            Err(kind) => Err(Error::Io(kind)),
        }
    }

    /// One read for an event loop, given what draining one wakeup gave: nothing without a
    /// wakeup, an error if the publisher restarted.
    pub fn poll_recv(&mut self, rb: &mut RingBuffer, drained: Result<bool, IoKind>) -> (r: Result<
        Option<Vec<u8>>,
        Error,
    >)
        requires
            serves(*old(rb), old(self)@),
        ensures
            serves(*final(rb), final(self)@),
            same_shape(*final(rb), *old(rb)),
            ({
                let want = read_next(old(rb)@, old(rb).slot_payload_size, old(self)@);
                let same = old(rb)@.generation == old(self)@.generation;
                if drained == Ok::<bool, IoKind>(true) && same {
                    &&& r is Ok
                    &&& bytes_of(r->Ok_0) == want.msg
                    &&& final(rb)@ == want.rb
                    &&& final(self)@ == want.sub
                } else {
                    &&& final(rb)@ == old(rb)@
                    &&& final(self)@ == old(self)@
                    &&& r == (match drained {
                        Err(kind) => Err::<Option<Vec<u8>>, Error>(Error::Io(kind)),
                        Ok(false) => Ok::<Option<Vec<u8>>, Error>(None),
                        Ok(true) => Err::<Option<Vec<u8>>, Error>(Error::Io(IoKind::UnexpectedEof)),
                    })
                }
            }),
    {
        match self.drain_wakeup(drained) {
            Err(e) => Err(e),
            Ok(false) => Ok(None),
            Ok(true) => {
                if rb.generation() != self.generation {
                    return Err(Error::Io(IoKind::UnexpectedEof));
                }
                Ok(self.try_receive(rb))
            },
        }
    }

    /// How many messages are ahead of this subscriber.
    pub fn lag(&self, tail: u64) -> (n: u64)
        ensures
            n == ring::lag_of(tail, self@.cursor),
    {
        tail.saturating_sub(self.cursor)
    }

    /// Whether there is something to read: a waiter that is about to wait has to look once
    /// more after it has made itself known.
    pub fn arm_wakeup(&self, tail: u64) -> (ready: bool)
        ensures
            ready == (self@.cursor < tail),
    {
        self.cursor < tail
    }

    /// The largest payload of a message.
    pub fn slot_size(&self, rb: &RingBuffer) -> (n: u32)
        ensures
            n == rb.slot_payload_size,
    {
        rb.slot_payload_size
    }

    pub fn cursor(&self) -> (c: u64)
        ensures
            c == self@.cursor,
    {
        self.cursor
    }

    /// The place of the subscriber in the cursor table.
    pub fn cursor_idx(&self) -> (i: usize)
        ensures
            i == self@.idx,
    {
        self.cursor_idx
    }

    /// Takes down a read that moved the cursor.
    pub fn set_cursor(&mut self, cursor: u64)
        ensures
            final(self)@ == (SubscriberView { cursor, ..old(self)@ }),
    {
        self.cursor = cursor;
    }

    /// The generation of the publisher that the subscriber connected to.
    pub fn generation(&self) -> (g: u64)
        ensures
            g == self@.generation,
    {
        self.generation
    }

    /// Reads up to `n` messages: `first` is the one that was waited for, and the others are
    /// those that are there already. Nothing if `n` is zero or the wait was in vain.
    pub fn recv_batch(&mut self, rb: &mut RingBuffer, n: usize, first: Option<Vec<u8>>) -> (batch:
        Vec<Vec<u8>>)
        requires
            serves(*old(rb), old(self)@),
        ensures
            serves(*final(rb), final(self)@),
            same_shape(*final(rb), *old(rb)),
            ({
                let want = batch_of(
                    old(rb)@,
                    old(rb).slot_payload_size,
                    old(self)@,
                    n,
                    bytes_of(first),
                );
                &&& batch@.map_values(|m: Vec<u8>| m@) == want.msgs
                &&& final(rb)@ == want.rb
                &&& final(self)@ == want.sub
            }),
    {
        let mut batch: Vec<Vec<u8>> = Vec::new();
        let ghost v0 = rb@;
        let ghost s0 = self@;
        let ghost sps = rb.slot_payload_size;
        let ghost want = batch_of(v0, sps, s0, n, bytes_of(first));
        assert(batch@.map_values(|m: Vec<u8>| m@) =~= Seq::<Seq<u8>>::empty());
        if n == 0 {
            return batch;
        }
        match first {
            None => {
                return batch;
            },
            Some(msg) => {
                batch.push(msg);
            },
        }
        assert(batch@.map_values(|m: Vec<u8>| m@) =~= seq![first->Some_0@]);
        while batch.len() < n
            invariant
                serves(*rb, self@),
                same_shape(*rb, *old(rb)),
                rb.slot_payload_size == sps,
                1 <= batch@.len() <= n,
                want == batch_of(
                    old(rb)@,
                    old(rb).slot_payload_size,
                    old(self)@,
                    n,
                    bytes_of(first),
                ),
                want == after(
                    batch@.map_values(|m: Vec<u8>| m@),
                    drained(rb@, sps, self@, (n - batch@.len()) as nat),
                ),
            decreases n - batch@.len(),
        {
            let ghost before = batch@.map_values(|m: Vec<u8>| m@);
            let ghost v = rb@;
            let ghost s = self@;
            let ghost k = (n - batch@.len()) as nat;
            match self.try_receive(rb) {
                None => {
                    assert(before + drained(v, sps, s, k).msgs =~= before);
                    return batch;
                },
                Some(msg) => {
                    batch.push(msg);
                    proof {
                        let now = batch@.map_values(|m: Vec<u8>| m@);
                        assert(now =~= before.push(msg@));
                        assert(before + drained(v, sps, s, k).msgs =~= now + drained(
                            rb@,
                            sps,
                            self@,
                            (k - 1) as nat,
                        ).msgs);
                    }
                },
            }
        }
        assert(batch@.map_values(|m: Vec<u8>| m@) + drained(rb@, sps, self@, 0).msgs
            =~= batch@.map_values(|m: Vec<u8>| m@));
        batch
    }

    /// Reads messages of `payload_size` bytes into `buf`, row by row: `first` is the one
    /// that was waited for, and the others are those that are there already. Returns how
    /// many rows were filled.
    pub fn recv_into_buffer(
        &mut self,
        rb: &mut RingBuffer,
        buf: &mut [u8],
        payload_size: usize,
        first: Option<Vec<u8>>,
    ) -> (r: Result<usize, RowError>)
        requires
            serves(*old(rb), old(self)@),
        ensures
            serves(*final(rb), final(self)@),
            same_shape(*final(rb), *old(rb)),
            ({
                let want = filled_from(
                    old(rb)@,
                    old(rb).slot_payload_size,
                    old(self)@,
                    old(buf)@,
                    payload_size,
                    bytes_of(first),
                );
                &&& final(rb)@ == want.rb
                &&& final(self)@ == want.sub
                &&& final(buf)@ == want.buf
                &&& r == want.result
            }),
    {
        let capacity: usize = match row_capacity(buf.len(), payload_size) {
            Err(e) => {
                return Err(e);
            },
            Ok(n) => n,
        };
        if capacity == 0 {
            proof {
                lemma_no_row(buf@.len(), payload_size as nat);
            }
            return Ok(0);
        }
        let ghost total = buf@.len();
        let msg: Vec<u8> = match first {
            None => {
                return Ok(0);
            },
            Some(m) => m,
        };
        proof {
            lemma_row_fits(0, capacity, payload_size, total);
        }
        match store_row(buf, 0, msg.as_slice(), payload_size) {
            Err(e) => {
                return Err(e);
            },
            Ok(_) => {},
        }
        let mut count: usize = 1;
        let ghost sps = rb.slot_payload_size;
        let ghost want = filled(rb@, sps, self@, buf@, payload_size, 1, capacity);
        while count < capacity
            invariant
                serves(*rb, self@),
                same_shape(*rb, *old(rb)),
                rb.slot_payload_size == sps,
                1 <= count <= capacity,
                buf@.len() == total,
                capacity * payload_size <= total,
                want == filled(rb@, sps, self@, buf@, payload_size, count, capacity),
                want == filled_from(
                    old(rb)@,
                    old(rb).slot_payload_size,
                    old(self)@,
                    old(buf)@,
                    payload_size,
                    bytes_of(first),
                ),
            decreases capacity - count,
        {
            match self.try_receive(rb) {
                None => {
                    return Ok(count);
                },
                Some(m) => {
                    proof {
                        lemma_row_fits(count, capacity, payload_size, total);
                    }
                    match store_row(buf, count, m.as_slice(), payload_size) {
                        Err(e) => {
                            return Err(e);
                        },
                        Ok(_) => {},
                    }
                    count = count + 1;
                },
            }
        }
        Ok(count)
    }
}

/// A buffer without a whole row is shorter than a row.
proof fn lemma_no_row(total: nat, payload_size: nat)
    requires
        payload_size > 0,
        total / payload_size == 0,
    ensures
        total < payload_size,
{
    assert(total < payload_size) by (nonlinear_arith)
        requires
            payload_size > 0,
            total / payload_size == 0,
    ;
}

/// A row below the capacity lies inside the buffer.
proof fn lemma_row_fits(index: usize, capacity: usize, payload_size: usize, total: nat)
    requires
        index < capacity,
        capacity * payload_size <= total,
    ensures
        (index + 1) * payload_size <= total,
{
    assert((index + 1) * payload_size <= capacity * payload_size) by (nonlinear_arith)
        requires
            index + 1 <= capacity,
            payload_size >= 0,
    ;
}

/// Copies `msg` to the start of `out`.
fn copy_to(out: &mut [u8], msg: &[u8])
    requires
        msg@.len() <= old(out)@.len(),
    ensures
        final(out)@ == codec::patch(old(out)@, 0, msg@),
{
    let ghost before = out@;
    let total: usize = out.len();
    let mut i: usize = 0;
    assert(out@ =~= codec::patch(before, 0, msg@.take(0)));
    while i < msg.len()
        invariant
            i <= msg@.len() <= total,
            total == before.len(),
            out@ == codec::patch(before, 0, msg@.take(i as int)),
        decreases msg@.len() - i,
    {
        out[i] = msg[i];
        i = i + 1;
        assert(out@ =~= codec::patch(before, 0, msg@.take(i as int)));
    }
    assert(msg@.take(i as int) =~= msg@);
}

/// Messages that were read, and ring and subscriber after that.
#[verifier::ext_equal]
pub struct Drained {
    pub msgs: Seq<Seq<u8>>,
    pub rb: RingView,
    pub sub: SubscriberView,
}

/// Up to `n` messages that are there already.
pub open spec fn drained(v: RingView, slot_payload_size: u32, s: SubscriberView, n: nat) -> Drained
    decreases n,
{
    let next = read_next(v, slot_payload_size, s);
    if n == 0 || next.msg is None {
        Drained { msgs: Seq::empty(), rb: v, sub: s }
    } else {
        after(
            seq![next.msg->Some_0],
            drained(next.rb, slot_payload_size, next.sub, (n - 1) as nat),
        )
    }
}

/// The messages `msgs`, and those of `rest` after them.
pub open spec fn after(msgs: Seq<Seq<u8>>, rest: Drained) -> Drained {
    Drained { msgs: msgs + rest.msgs, ..rest }
}

/// Up to `n` messages: the one that was waited for, and those that are there already.
pub open spec fn batch_of(
    v: RingView,
    slot_payload_size: u32,
    s: SubscriberView,
    n: usize,
    first: Option<Seq<u8>>,
) -> Drained {
    if n == 0 || first is None {
        Drained { msgs: Seq::empty(), rb: v, sub: s }
    } else {
        after(seq![first->Some_0], drained(v, slot_payload_size, s, (n - 1) as nat))
    }
}

/// Ring, subscriber and buffer after rows were filled, and how that went.
#[verifier::ext_equal]
pub struct Filled {
    pub rb: RingView,
    pub sub: SubscriberView,
    pub buf: Seq<u8>,
    pub result: Result<usize, RowError>,
}

/// Rows filled from `count` on with messages that are there already.
pub open spec fn filled(
    v: RingView,
    slot_payload_size: u32,
    s: SubscriberView,
    buf: Seq<u8>,
    payload_size: usize,
    count: usize,
    capacity: usize,
) -> Filled
    decreases capacity - count,
{
    let next = read_next(v, slot_payload_size, s);
    if count >= capacity || next.msg is None {
        Filled { rb: v, sub: s, buf, result: Ok(count) }
    } else {
        let msg = next.msg->Some_0;
        let more = rows::with_row(buf, count, msg, payload_size);
        match rows::row_verdict(count, msg.len(), payload_size) {
            Err(e) => Filled { rb: next.rb, sub: next.sub, buf: more, result: Err(e) },
            Ok(_) => filled(
                next.rb,
                slot_payload_size,
                next.sub,
                more,
                payload_size,
                (count + 1) as usize,
                capacity,
            ),
        }
    }
}

/// Rows filled with the message that was waited for and those that are there already.
pub open spec fn filled_from(
    v: RingView,
    slot_payload_size: u32,
    s: SubscriberView,
    buf: Seq<u8>,
    payload_size: usize,
    first: Option<Seq<u8>>,
) -> Filled {
    if payload_size == 0 {
        Filled { rb: v, sub: s, buf, result: Err(RowError::ZeroSize) }
    } else if buf.len() < payload_size || first is None {
        Filled { rb: v, sub: s, buf, result: Ok(0) }
    } else {
        let msg = first->Some_0;
        let more = rows::with_row(buf, 0, msg, payload_size);
        match rows::row_verdict(0, msg.len(), payload_size) {
            Err(e) => Filled { rb: v, sub: s, buf: more, result: Err(e) },
            Ok(_) => filled(
                v,
                slot_payload_size,
                s,
                more,
                payload_size,
                1,
                (buf.len() / payload_size as nat) as usize,
            ),
        }
    }
}

} // verus!
