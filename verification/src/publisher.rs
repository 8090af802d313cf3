//! What a publisher decides.
//!
//! [`Publisher`] keeps the policy, the clients and the counters of one topic. Ring, log,
//! sockets and lock belong to the caller, who reports how the operations on them went. A
//! record goes to the log before it goes to the ring: a failed append leaves the ring
//! untouched, and a ring that is full is noticed before anything is appended.

use crate::config::{BackpressurePolicy, BusConfig};
use crate::error::{Error, IoKind};
use crate::ring;
use crate::ring::{RingBuffer, RingStats};
use crate::stats::TopicStats;
use crate::wal::stats::WalStats;
use crate::wal::wal;
use crate::wal::wal::count_on;
use vstd::prelude::*;

verus! {

/// Bookkeeping of the publisher of one topic.
pub struct Publisher {
    backpressure: BackpressurePolicy,
    slot_size: u32,
    wal: bool,
    clients: Vec<u64>,
    published: u64,
    full_rejected: u64,
    dropped: u64,
    wakeups: u64,
}

/// What a publisher knows.
#[verifier::ext_equal]
pub struct PublisherView {
    pub backpressure: BackpressurePolicy,
    pub slot_size: u32,
    /// Whether records go to a log first.
    pub wal: bool,
    /// The connected subscribers, by the number that their connection was given.
    pub clients: Seq<u64>,
    pub published: u64,
    pub full_rejected: u64,
    pub dropped: u64,
    pub wakeups: u64,
}

impl View for Publisher {
    type V = PublisherView;

    closed spec fn view(&self) -> PublisherView {
        PublisherView {
            backpressure: self.backpressure,
            slot_size: self.slot_size,
            wal: self.wal,
            clients: self.clients@,
            published: self.published,
            full_rejected: self.full_rejected,
            dropped: self.dropped,
            wakeups: self.wakeups,
        }
    }
}

/// A round of wakeups over the clients from place `i` on: a client whose wakeup fails is
/// dropped, and the last one takes its place.
pub open spec fn woken(v: PublisherView, i: int, dead: Seq<u64>) -> PublisherView
    decreases v.clients.len() - i,
{
    if i < 0 || i >= v.clients.len() {
        v
    } else if dead.contains(v.clients[i]) {
        woken(client_lost(v, i), i, dead)
    } else {
        woken(client_woken(v), i + 1, dead)
    }
}

/// One client woken.
pub open spec fn client_woken(v: PublisherView) -> PublisherView {
    PublisherView { wakeups: wal::next_count(v.wakeups, 1), ..v }
}

/// The client at place `i` dropped.
pub open spec fn client_lost(v: PublisherView, i: int) -> PublisherView {
    PublisherView {
        clients: v.clients.update(i, v.clients.last()).drop_last(),
        dropped: wal::next_count(v.dropped, 1),
        ..v
    }
}

/// What the operations around a publish gave.
pub struct PublishIo {
    /// The clients accepted beforehand.
    pub accepted: Vec<u64>,
    /// What ended accepting them, other than that nobody was waiting.
    pub accept_error: Option<IoKind>,
    /// Appending the record to the log; not attempted if the record is refused before.
    pub logged: Result<(), Error>,
    /// The clients whose wakeup fails.
    pub dead: Vec<u64>,
}

/// The publisher with the accepted clients.
pub open spec fn accepting(v: PublisherView, accepted: Seq<u64>) -> PublisherView {
    PublisherView { clients: v.clients + accepted, ..v }
}

/// One message refused because the ring is full.
pub open spec fn rejected(v: PublisherView) -> PublisherView {
    PublisherView { full_rejected: wal::next_count(v.full_rejected, 1), ..v }
}

/// One message published.
pub open spec fn counted(v: PublisherView) -> PublisherView {
    PublisherView { published: wal::next_count(v.published, 1), ..v }
}

/// Whether the policy refuses a message for a ring that is full.
pub open spec fn refuses(v: PublisherView, full: bool) -> bool {
    v.backpressure == BackpressurePolicy::Error && full
}

/// A publish: the publisher and the ring after it, and what it returns.
pub open spec fn publishing(v: PublisherView, r: ring::RingView, data: Seq<u8>, io: PublishIo) -> (
    PublisherView,
    ring::RingView,
    Result<(), Error>,
) {
    let a = accepting(v, io.accepted@);
    let full = ring::full_at(r.tail, r.cursors, r.slots.len() as u32);
    if data.len() > v.slot_size {
        (v, r, Err(Error::TooLarge { size: data.len() as usize, max: v.slot_size as usize }))
    } else if io.accept_error is Some {
        (a, r, Err(Error::Io(io.accept_error->Some_0)))
    } else if refuses(v, full) {
        (rejected(a), r, Err(Error::Full))
    } else if v.wal && io.logged is Err {
        (a, r, Err(io.logged->Err_0))
    } else {
        (woken(counted(a), 0, io.dead@), ring::published(r, data), Ok(()))
    }
}

/// A round of wakeups does not change what a publisher holds messages to.
proof fn lemma_woken_keeps_size(v: PublisherView, i: int, dead: Seq<u64>)
    ensures
        woken(v, i, dead).slot_size == v.slot_size,
    decreases v.clients.len() - i,
{
    if i < 0 || i >= v.clients.len() {
    } else if dead.contains(v.clients[i]) {
        lemma_woken_keeps_size(client_lost(v, i), i, dead);
    } else {
        lemma_woken_keeps_size(client_woken(v), i + 1, dead);
    }
}

/// A publish does not change what a publisher holds messages to.
pub proof fn lemma_publish_keeps_size(
    v: PublisherView,
    r: ring::RingView,
    data: Seq<u8>,
    io: PublishIo,
)
    ensures
        publishing(v, r, data, io).0.slot_size == v.slot_size,
{
    lemma_woken_keeps_size(counted(accepting(v, io.accepted@)), 0, io.dead@);
}

/// What to do with one item of a batch.
#[derive(Debug, Clone, PartialEq, Eq)]
pub enum BatchStep {
    /// Append it to the log, then write it to the ring.
    LogAndWrite,
    /// Write it to the ring.
    Write,
    /// The ring is full: the batch ends here, with what was published so far.
    Stop,
    /// The item is too large: the batch fails, after what was published so far.
    Fail(Error),
}

/// A batch of items from place `i` on, `n` of them published before: the publisher and the
/// ring after it, and what the batch returns. `log_error` is the item whose append to the
/// log fails, and how.
pub open spec fn batch(
    v: PublisherView,
    r: ring::RingView,
    items: Seq<Seq<u8>>,
    i: int,
    n: nat,
    log_error: Option<(usize, Error)>,
) -> (PublisherView, ring::RingView, Result<nat, Error>)
    decreases items.len() - i,
{
    if i < 0 || i >= items.len() {
        (v, r, Ok(n))
    } else if items[i].len() > v.slot_size {
        (
            v,
            r,
            Err(Error::TooLarge { size: items[i].len() as usize, max: v.slot_size as usize }),
        )
    } else if refuses(v, ring::full_at(r.tail, r.cursors, r.slots.len() as u32)) {
        (v, r, Ok(n))
    } else if v.wal && log_error is Some && log_error->Some_0.0 == i {
        (v, r, Err(log_error->Some_0.1))
    } else {
        batch(counted(v), ring::published(r, items[i]), items, i + 1, n + 1, log_error)
    }
}

/// What the operations around a batch gave.
pub struct BatchIo {
    pub accepted: Vec<u64>,
    pub accept_error: Option<IoKind>,
    /// The item whose append to the log fails, and how.
    pub log_error: Option<(usize, Error)>,
    pub dead: Vec<u64>,
}

/// The items of a batch.
pub open spec fn items_view(items: Seq<Vec<u8>>) -> Seq<Seq<u8>> {
    items.map_values(|d: Vec<u8>| d@)
}

/// A batched publish: clients are woken once, at the end, if anything was published.
pub open spec fn publishing_many(
    v: PublisherView,
    r: ring::RingView,
    items: Seq<Seq<u8>>,
    io: BatchIo,
) -> (PublisherView, ring::RingView, Result<nat, Error>) {
    let a = accepting(v, io.accepted@);
    if io.accept_error is Some {
        (a, r, Err(Error::Io(io.accept_error->Some_0)))
    } else {
        let b = batch(a, r, items, 0, 0, io.log_error);
        (
            if b.1.tail != r.tail {
                woken(b.0, 0, io.dead@)
            } else {
                b.0
            },
            b.1,
            b.2,
        )
    }
}

/// What the operations that set a publisher up gave, in the order in which they are made.
/// Those that were not reached do not matter.
pub struct CreateIo {
    /// Creating the directory of the topic.
    pub dir: Result<(), IoKind>,
    /// Taking the producer lock.
    pub lock: Result<(), Error>,
    /// Mapping the ring file: the memory that is there already, if any.
    pub ring: Result<Option<Vec<u8>>, IoKind>,
    /// Opening the log, if there is one: the cursor it goes on at.
    pub log: Result<u64, Error>,
    /// Binding the signal socket.
    pub socket: Result<(), IoKind>,
}

/// The ring of a fresh publisher: what was there, or a new one, with its tail moved up to
/// where the log goes on.
pub open spec fn first_ring(
    existing: Option<Vec<u8>>,
    cfg: BusConfig,
    log: Result<u64, Error>,
) -> ring::RingView {
    let r = match existing {
        Some(mem) => if ring::reusable(mem@, cfg.capacity, cfg.slot_size, cfg.max_subscribers) {
            ring::reused(
                ring::ring_in(mem@, (cfg.capacity, cfg.slot_size, cfg.max_subscribers)),
            )
        } else {
            ring::fresh(cfg.capacity, cfg.slot_size, cfg.max_subscribers)
        },
        None => ring::fresh(cfg.capacity, cfg.slot_size, cfg.max_subscribers),
    };
    if cfg.wal.enabled {
        ring::RingView { tail: log->Ok_0, ..r }
    } else {
        r
    }
}

/// A publisher that has done nothing yet.
pub open spec fn idle(cfg: BusConfig) -> PublisherView {
    PublisherView {
        backpressure: cfg.backpressure,
        slot_size: cfg.slot_size,
        wal: cfg.wal.enabled,
        clients: Seq::empty(),
        published: 0,
        full_rejected: 0,
        dropped: 0,
        wakeups: 0,
    }
}

/// Setting a publisher up: the publisher and its ring, or the first failure.
pub open spec fn created(cfg: BusConfig, io: CreateIo) -> Result<
    (PublisherView, ring::RingView),
    Error,
> {
    match (io.dir, io.lock, io.ring) {
        (Err(kind), _, _) => Err(Error::Io(kind)),
        (Ok(_), Err(e), _) => Err(e),
        (Ok(_), Ok(_), Err(kind)) => Err(Error::Io(kind)),
        (Ok(_), Ok(_), Ok(existing)) => if cfg.wal.enabled && io.log is Err {
            Err(io.log->Err_0)
        } else if io.socket is Err {
            Err(Error::Io(io.socket->Err_0))
        } else {
            Ok((idle(cfg), first_ring(existing, cfg, io.log)))
        },
    }
}

/// Where a wait for subscribers stands.
#[derive(Debug, Clone, PartialEq, Eq)]
pub enum WaitStep {
    Ready,
    Again,
    Fail(Error),
}

/// Where a wait stands with so many clients.
pub open spec fn wait_is(
    s: WaitStep,
    clients: nat,
    accept_error: Option<IoKind>,
    min_count: usize,
    expired: bool,
) -> bool {
    if accept_error is Some {
        s == WaitStep::Fail(Error::Io(accept_error->Some_0))
    } else if clients >= min_count {
        s == WaitStep::Ready
    } else if expired {
        s matches WaitStep::Fail(Error::Timeout(what)) && what@ == "waiting for subscribers"@
    } else {
        s == WaitStep::Again
    }
}

/// The tail that a ring gets when the log behind it goes on at `next`: `None` leaves it.
pub fn aligned_tail(tail: u64, next: u64) -> (r: Option<u64>)
    ensures
        r == (if next > tail {
            Some(next)
        } else {
            None
        }),
{
    if next > tail {
        Some(next)
    } else {
        None
    }
}

impl Publisher {
    /// A publisher for a topic with this configuration.
    pub fn new(cfg: &BusConfig) -> (p: Publisher)
        ensures
            p@ == idle(*cfg),
    {
        let p = Publisher {
            backpressure: cfg.backpressure,
            slot_size: cfg.slot_size,
            wal: cfg.wal.enabled,
            clients: Vec::new(),
            published: 0,
            full_rejected: 0,
            dropped: 0,
            wakeups: 0,
        };
        assert(p@ =~= idle(*cfg));
        p
    }

    /// Sets a publisher up: the first operation that failed decides. The ring is taken over
    /// from an earlier publisher if it has the right shape, and its tail is moved up to
    /// where the log goes on, so that cursors only grow across restarts.
    pub fn create(cfg: &BusConfig, io: CreateIo) -> (r: Result<(Publisher, RingBuffer), Error>)
        requires
            ring::ring_size(cfg.capacity, cfg.slot_size, cfg.max_subscribers) <= usize::MAX,
            ring::slots_start(cfg.max_subscribers) + 63 <= usize::MAX,
            ring::SLOT_OVERHEAD + cfg.slot_size + 7 <= usize::MAX,
        ensures
            match created(*cfg, io) {
                Err(e) => r == Err::<(Publisher, RingBuffer), Error>(e),
                Ok((p, v)) => {
                    &&& r matches Ok((publisher, rb))
                    &&& publisher@ == p
                    &&& rb.wf()
                    &&& rb.capacity == cfg.capacity
                    &&& rb.slot_payload_size == cfg.slot_size
                    &&& rb.max_subscribers == cfg.max_subscribers
                    &&& rb@ == v
                },
            },
    {
        match io.dir {
            Err(kind) => {
                return Err(Error::Io(kind));
            },
            Ok(_) => {},
        }
        match io.lock {
            Err(e) => {
                return Err(e);
            },
            Ok(_) => {},
        }
        let existing: Option<Vec<u8>> = match io.ring {
            Err(kind) => {
                return Err(Error::Io(kind));
            },
            Ok(m) => m,
        };
        let mut rb: RingBuffer = RingBuffer::create_or_reuse(
            existing,
            cfg.capacity,
            cfg.slot_size,
            cfg.max_subscribers,
        );
        if cfg.wal.enabled {
            match io.log {
                Err(e) => {
                    return Err(e);
                },
                Ok(next) => match aligned_tail(rb.current_tail(), next) {
                    Some(tail) => {
                        rb.set_tail(tail);
                    },
                    None => {},
                },
            }
        }
        assert(rb@ =~= first_ring(io.ring->Ok_0, *cfg, io.log));
        match io.socket {
            Err(kind) => Err(Error::Io(kind)),
            Ok(_) => Ok((Publisher::new(cfg), rb)),
        }
    }

    /// Refuses a payload that no slot holds.
    pub fn check_size(&self, len: usize) -> (r: Result<(), Error>)
        ensures
            r == (if len > self@.slot_size {
                Err::<(), Error>(Error::TooLarge { size: len, max: self@.slot_size as usize })
            } else {
                Ok::<(), Error>(())
            }),
    {
        if len > self.slot_size as usize {
            return Err(Error::TooLarge { size: len, max: self.slot_size as usize });
        }
        Ok(())
    }

    /// Takes a client in.
    pub fn add_client(&mut self, id: u64)
        ensures
            final(self)@ == accepting(old(self)@, seq![id]),
    {
        self.clients.push(id);
        assert(self@ =~= accepting(old(self)@, seq![id]));
    }

    /// Takes clients in.
    pub fn add_clients(&mut self, ids: &Vec<u64>)
        ensures
            final(self)@ == accepting(old(self)@, ids@),
    {
        let mut i: usize = 0;
        assert(self@ =~= accepting(old(self)@, ids@.take(0)));
        while i < ids.len()
            invariant
                i <= ids@.len(),
                self@ == accepting(old(self)@, ids@.take(i as int)),
            decreases ids@.len() - i,
        {
            self.add_client(ids[i]);
            i = i + 1;
            assert(self@ =~= accepting(old(self)@, ids@.take(i as int)));
        }
        assert(ids@.take(i as int) =~= ids@);
    }

    /// Decides whether a message goes on to the log: not if the ring is full and the policy
    /// refuses it. A topic without a log leaves that to the ring.
    pub fn before_log(&mut self, full: bool) -> (r: Result<bool, Error>)
        ensures
            if old(self)@.wal && refuses(old(self)@, full) {
                &&& r == Err::<bool, Error>(Error::Full)
                &&& final(self)@ == rejected(old(self)@)
            } else {
                &&& r == Ok::<bool, Error>(old(self)@.wal)
                &&& final(self)@ == old(self)@
            },
    {
        if self.wal && self.rejects(full) {
            self.full_rejected = count_on(self.full_rejected, 1);
            assert(self@ =~= rejected(old(self)@));
            return Err(Error::Full);
        }
        Ok(self.wal)
    }

    /// Whether the policy refuses a message for a ring that is full.
    fn rejects(&self, full: bool) -> (b: bool)
        ensures
            b == refuses(self@, full),
    {
        match self.backpressure {
            BackpressurePolicy::Error => full,
            BackpressurePolicy::DropOldest => false,
        }
    }

    /// Whether messages are written to the ring even if it is full.
    pub fn overwrites(&self) -> (b: bool)
        ensures
            b == (self@.backpressure == BackpressurePolicy::DropOldest),
    {
        match self.backpressure {
            BackpressurePolicy::Error => false,
            BackpressurePolicy::DropOldest => true,
        }
    }

    /// Takes down how writing to the ring went.
    pub fn after_ring(&mut self, written: bool) -> (r: Result<(), Error>)
        ensures
            if written {
                r == Ok::<(), Error>(()) && final(self)@ == counted(old(self)@)
            } else {
                r == Err::<(), Error>(Error::Full) && final(self)@ == rejected(old(self)@)
            },
    {
        if !written {
            self.full_rejected = count_on(self.full_rejected, 1);
            assert(self@ =~= rejected(old(self)@));
            return Err(Error::Full);
        }
        self.published = count_on(self.published, 1);
        assert(self@ =~= counted(old(self)@));
        Ok(())
    }

    /// The client at place `i` of a round of wakeups: `None` when the round is over.
    pub fn client_at(&self, i: usize) -> (r: Option<u64>)
        ensures
            r == (if i < self@.clients.len() {
                Some(self@.clients[i as int])
            } else {
                None
            }),
    {
        if i < self.clients.len() {
            Some(self.clients[i])
        } else {
            None
        }
    }

    /// Takes down how waking the client at place `i` went, and gives the place to go on at:
    /// a client that cannot be woken is dropped.
    pub fn on_wake(&mut self, i: usize, alive: bool) -> (next: usize)
        requires
            i < old(self)@.clients.len(),
        ensures
            if alive {
                next == i + 1 && final(self)@ == client_woken(old(self)@)
            } else {
                next == i && final(self)@ == client_lost(old(self)@, i as int)
            },
    {
        let total: usize = self.clients.len();
        if alive {
            self.wakeups = count_on(self.wakeups, 1);
            assert(self@ =~= client_woken(old(self)@));
            i + 1
        } else {
            let _id: u64 = self.clients.swap_remove(i);
            self.dropped = count_on(self.dropped, 1);
            assert(self@ =~= client_lost(old(self)@, i as int));
            i
        }
    }

    /// Wakes every client once. Those in `dead` cannot be woken and are dropped.
    pub fn broadcast_wakeup(&mut self, dead: &Vec<u64>)
        ensures
            final(self)@ == woken(old(self)@, 0, dead@),
    {
        let mut i: usize = 0;
        loop
            invariant
                i <= self@.clients.len(),
                woken(old(self)@, 0, dead@) == woken(self@, i as int, dead@),
            decreases self@.clients.len() - i,
        {
            match self.client_at(i) {
                None => {
                    return ;
                },
                Some(id) => {
                    let alive: bool = !holds(dead, id);
                    i = self.on_wake(i, alive);
                },
            }
        }
    }

    /// Publishes one message.
    pub fn publish(&mut self, rb: &mut RingBuffer, data: &[u8], io: PublishIo) -> (r: Result<
        (),
        Error,
    >)
        requires
            old(rb).wf(),
            old(rb).capacity > 0,
            old(rb).slot_payload_size == old(self)@.slot_size,
            old(rb)@.tail < u64::MAX,
        ensures
            final(rb).wf(),
            final(rb).capacity == old(rb).capacity,
            final(rb).slot_payload_size == old(rb).slot_payload_size,
            final(rb).max_subscribers == old(rb).max_subscribers,
            (final(self)@, final(rb)@, r) == publishing(old(self)@, old(rb)@, data@, io),
    {
        proof {
            rb.lemma_wf();
        }
        match self.check_size(data.len()) {
            Err(e) => {
                return Err(e);
            },
            Ok(_) => {},
        }
        self.add_clients(&io.accepted);
        match io.accept_error {
            Some(kind) => {
                return Err(Error::Io(kind));
            },
            None => {},
        }
        match self.before_log(rb.is_full()) {
            Err(e) => {
                return Err(e);
            },
            Ok(log) => {
                if log {
                    match io.logged {
                        Err(e) => {
                            return Err(e);
                        },
                        Ok(_) => {},
                    }
                }
            },
        }
        let written: bool = if self.overwrites() {
            rb.publish_drop_oldest(data)
        } else {
            rb.try_publish(data)
        };
        match self.after_ring(written) {
            Err(e) => Err(e),
            Ok(_) => {
                self.broadcast_wakeup(&io.dead);
                Ok(())
            },
        }
    }

    /// Decides about one item of a batch, given whether the ring is full.
    pub fn batch_item(&self, len: usize, full: bool) -> (s: BatchStep)
        ensures
            s == (if len > self@.slot_size {
                BatchStep::Fail(Error::TooLarge { size: len, max: self@.slot_size as usize })
            } else if refuses(self@, full) {
                BatchStep::Stop
            } else if self@.wal {
                BatchStep::LogAndWrite
            } else {
                BatchStep::Write
            }),
    {
        match self.check_size(len) {
            Err(e) => {
                return BatchStep::Fail(e);
            },
            Ok(_) => {},
        }
        if self.rejects(full) {
            return BatchStep::Stop;
        }
        if self.wal {
            BatchStep::LogAndWrite
        } else {
            BatchStep::Write
        }
    }

    /// Takes down one item of a batch that was written to the ring.
    pub fn batch_written(&mut self)
        ensures
            final(self)@ == counted(old(self)@),
    {
        self.published = count_on(self.published, 1);
        assert(self@ =~= counted(old(self)@));
    }

    /// Publishes a batch of messages and wakes every client once, at the end. Returns how
    /// many were published: all of them, or fewer if the ring is full and the policy
    /// refuses messages. A message that is too large, or that the log does not take, ends
    /// the batch with an error.
    pub fn publish_many(&mut self, rb: &mut RingBuffer, items: &Vec<Vec<u8>>, io: BatchIo) -> (r:
        Result<usize, Error>)
        requires
            old(rb).wf(),
            old(rb).capacity > 0,
            old(rb).slot_payload_size == old(self)@.slot_size,
            old(rb)@.tail + items@.len() <= u64::MAX,
        ensures
            final(rb).wf(),
            final(rb).capacity == old(rb).capacity,
            final(rb).slot_payload_size == old(rb).slot_payload_size,
            final(rb).max_subscribers == old(rb).max_subscribers,
            ({
                let want = publishing_many(old(self)@, old(rb)@, items_view(items@), io);
                &&& final(self)@ == want.0
                &&& final(rb)@ == want.1
                &&& match (r, want.2) {
                    (Ok(n), Ok(m)) => n == m,
                    (Err(e), Err(w)) => e == w,
                    _ => false,
                }
            }),
    {
        self.add_clients(&io.accepted);
        match io.accept_error {
            Some(kind) => {
                return Err(Error::Io(kind));
            },
            None => {},
        }
        let ghost start = self@;
        let ghost ring0 = rb@;
        let ghost views = items_view(items@);
        let ghost want = batch(start, ring0, views, 0, 0, io.log_error);
        let mut count: usize = 0;
        let mut failure: Option<Error> = None;
        let mut log_failed: bool = false;
        let mut i: usize = 0;
        loop
            invariant_except_break
                failure is None,
                !log_failed,
                want == batch(self@, rb@, views, i as int, count as nat, io.log_error),
            invariant
                rb.wf(),
                rb.capacity == old(rb).capacity,
                rb.slot_payload_size == old(rb).slot_payload_size,
                rb.max_subscribers == old(rb).max_subscribers,
                rb.capacity > 0,
                rb.slot_payload_size == self@.slot_size,
                views == items_view(items@),
                i <= items@.len(),
                count == i,
                rb@.tail == ring0.tail + count,
                ring0.tail + items@.len() <= u64::MAX,
            ensures
                self@ == want.0,
                rb@ == want.1,
                log_failed ==> io.log_error is Some && want.2 == Err::<nat, Error>(
                    io.log_error->Some_0.1,
                ),
                !log_failed ==> match failure {
                    None => want.2 == Ok::<nat, Error>(count as nat),
                    Some(e) => want.2 == Err::<nat, Error>(e),
                },
            decreases items@.len() - i,
        {
            if i >= items.len() {
                break;
            }
            proof {
                rb.lemma_wf();
                assert(views[i as int] == items@[i as int]@);
            }
            let data: &[u8] = items[i].as_slice();
            match self.batch_item(data.len(), rb.is_full()) {
                BatchStep::Fail(e) => {
                    failure = Some(e);
                    break;
                },
                BatchStep::Stop => {
                    break;
                },
                BatchStep::LogAndWrite => {
                    let fails: bool = match &io.log_error {
                        Some((at, _)) => *at == i,
                        None => false,
                    };
                    if fails {
                        log_failed = true;
                        break;
                    }
                },
                BatchStep::Write => {},
            }
            let _written: bool = if self.overwrites() {
                rb.publish_drop_oldest(data)
            } else {
                rb.try_publish(data)
            };
            self.batch_written();
            count = count + 1;
            i = i + 1;
        }
        if count > 0 {
            self.broadcast_wakeup(&io.dead);
        }
        if log_failed {
            match io.log_error {
                Some((_, e)) => {
                    return Err(e);
                },
                None => {},
            }
        }
        match failure {
            Some(e) => Err(e),
            None => Ok(count),
        }
    }

    /// A step of a wait for `min_count` subscribers: takes in the clients that were accepted,
    /// and decides whether the wait is over.
    pub fn wait_for_subscribers(
        &mut self,
        accepted: &Vec<u64>,
        accept_error: Option<IoKind>,
        min_count: usize,
        expired: bool,
    ) -> (s: WaitStep)
        ensures
            final(self)@ == accepting(old(self)@, accepted@),
            wait_is(s, final(self)@.clients.len(), accept_error, min_count, expired),
    {
        self.add_clients(accepted);
        match accept_error {
            Some(kind) => {
                return WaitStep::Fail(Error::Io(kind));
            },
            None => {},
        }
        if self.clients.len() >= min_count {
            return WaitStep::Ready;
        }
        if expired {
            return WaitStep::Fail(Error::Timeout("waiting for subscribers".to_owned()));
        }
        WaitStep::Again
    }

    /// The place in the cursor table and the lag of every subscriber that is `threshold`
    /// messages or more behind.
    pub fn slow_subscribers(&self, rb: &RingBuffer, threshold: u64) -> (slow: Vec<(usize, u64)>)
        requires
            rb.wf(),
        ensures
            slow@ == ring::lags_at(rb@.tail, rb@.cursors).filter(
                |p: (usize, u64)| p.1 >= threshold,
            ),
    {
        let lags: Vec<(usize, u64)> = rb.lags_with_idx();
        lagging(&lags, threshold)
    }

    /// Snapshot of the topic.
    pub fn stats(&self, ring_stats: RingStats, wal_stats: Option<WalStats>) -> (s: TopicStats)
        ensures
            s.ring == ring_stats,
            s.connected_sockets == self@.clients.len(),
            s.wal == wal_stats,
            s.published_total == self@.published,
            s.full_rejected_total == self@.full_rejected,
            s.subscribers_dropped_total == self@.dropped,
            s.wakeups_sent_total == self@.wakeups,
    {
        TopicStats {
            ring: ring_stats,
            connected_sockets: self.clients.len(),
            wal: wal_stats,
            published_total: self.published,
            full_rejected_total: self.full_rejected,
            subscribers_dropped_total: self.dropped,
            wakeups_sent_total: self.wakeups,
        }
    }

    pub fn slot_size(&self) -> (n: u32)
        ensures
            n == self@.slot_size,
    {
        self.slot_size
    }

    pub fn connected_subscribers(&self) -> (n: usize)
        ensures
            n == self@.clients.len(),
    {
        self.clients.len()
    }
}

/// Those of the subscribers that are `threshold` messages or more behind.
pub fn lagging(lags: &Vec<(usize, u64)>, threshold: u64) -> (slow: Vec<(usize, u64)>)
    ensures
        slow@ == lags@.filter(|p: (usize, u64)| p.1 >= threshold),
{
    let ghost keep = |p: (usize, u64)| p.1 >= threshold;
    let mut slow: Vec<(usize, u64)> = Vec::new();
    let mut i: usize = 0;
    proof {
        reveal(Seq::filter);
        assert(lags@.take(0).filter(keep) =~= Seq::empty());
    }
    while i < lags.len()
        invariant
            i <= lags@.len(),
            keep == (|p: (usize, u64)| p.1 >= threshold),
            slow@ == lags@.take(i as int).filter(keep),
        decreases lags@.len() - i,
    {
        let p: (usize, u64) = lags[i];
        proof {
            let next = lags@.take(i + 1);
            assert(next.drop_last() =~= lags@.take(i as int));
            assert(next.last() == p);
            reveal(Seq::filter);
        }
        if p.1 >= threshold {
            slow.push(p);
        }
        i = i + 1;
    }
    assert(lags@.take(i as int) =~= lags@);
    slow
}

/// Whether `id` is among `ids`.
fn holds(ids: &Vec<u64>, id: u64) -> (b: bool)
    ensures
        b == ids@.contains(id),
{
    let mut i: usize = 0;
    while i < ids.len()
        invariant
            i <= ids@.len(),
            forall|j: int| 0 <= j < i ==> ids@[j] != id,
        decreases ids@.len() - i,
    {
        if ids[i] == id {
            assert(ids@[i as int] == id);
            return true;
        }
        i = i + 1;
    }
    false
}

} // verus!
