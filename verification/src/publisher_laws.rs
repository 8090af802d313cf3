//! What users of a publisher can rely on.

use crate::config::{BackpressurePolicy, BusConfig};
use crate::error::{Error, IoKind};
use crate::publisher;
use crate::publisher::{BatchIo, CreateIo, PublishIo, PublisherView, WaitStep};
use crate::ring;
use crate::ring::RingView;
use crate::ring_laws;
use vstd::prelude::*;

verus! {

/// Whether the ring is full.
pub open spec fn is_full(r: RingView) -> bool {
    ring::full_at(r.tail, r.cursors, r.slots.len() as u32)
}

/// A message that is refused because the ring is full never reaches the log: what the log
/// would have said makes no difference, and the ring stays as it is.
pub proof fn law_full_ring_spares_the_log(
    v: PublisherView,
    r: RingView,
    data: Seq<u8>,
    io: PublishIo,
)
    requires
        data.len() <= v.slot_size,
        io.accept_error is None,
        v.backpressure == BackpressurePolicy::Error,
        is_full(r),
    ensures
        publisher::publishing(v, r, data, io).1 == r,
        publisher::publishing(v, r, data, io).2 == Err::<(), Error>(Error::Full),
        publisher::publishing(v, r, data, io).0.published == v.published,
{
}

/// A message that the log does not take never reaches the ring.
pub proof fn law_failed_log_spares_the_ring(
    v: PublisherView,
    r: RingView,
    data: Seq<u8>,
    io: PublishIo,
)
    requires
        v.wal,
        io.logged is Err,
    ensures
        publisher::publishing(v, r, data, io).1 == r,
        publisher::publishing(v, r, data, io).2 is Err,
{
}

/// A publish that fails, for whatever reason, leaves the ring as it is; one that succeeds
/// puts exactly the message there.
pub proof fn law_publish_is_all_or_nothing(
    v: PublisherView,
    r: RingView,
    data: Seq<u8>,
    io: PublishIo,
)
    ensures
        publisher::publishing(v, r, data, io).1 == (if publisher::publishing(v, r, data, io).2 is Ok {
            ring::published(r, data)
        } else {
            r
        }),
{
}

/// Under the policy that overwrites, no message is refused because the ring is full.
pub proof fn law_drop_oldest_never_full(
    v: PublisherView,
    r: RingView,
    data: Seq<u8>,
    io: PublishIo,
)
    requires
        v.backpressure == BackpressurePolicy::DropOldest,
        io.logged != Err::<(), Error>(Error::Full),
    ensures
        publisher::publishing(v, r, data, io).2 != Err::<(), Error>(Error::Full),
{
}

/// The ring after the first `n` items.
pub open spec fn published_all(r: RingView, items: Seq<Seq<u8>>, n: nat) -> RingView
    decreases n,
{
    if n == 0 {
        r
    } else {
        ring::published(published_all(r, items, (n - 1) as nat), items[n - 1])
    }
}

/// A batch publishes a prefix of its items, in order: as many as it counts, or as many as
/// came before the item that it failed at.
pub proof fn law_batch_publishes_a_prefix(
    v: PublisherView,
    r: RingView,
    items: Seq<Seq<u8>>,
    log_error: Option<(usize, Error)>,
) -> (n: nat)
    requires
        r.tail + items.len() <= u64::MAX,
    ensures
        n <= items.len(),
        publisher::batch(v, r, items, 0, 0, log_error).1 == published_all(r, items, n),
        publisher::batch(v, r, items, 0, 0, log_error).1.tail == r.tail + n,
        publisher::batch(v, r, items, 0, 0, log_error).2 is Ok ==> publisher::batch(
            v,
            r,
            items,
            0,
            0,
            log_error,
        ).2 == Ok::<nat, Error>(n),
{
    lemma_batch_from(v, r, r, items, 0, log_error)
}

proof fn lemma_batch_from(
    v: PublisherView,
    r0: RingView,
    r: RingView,
    items: Seq<Seq<u8>>,
    i: nat,
    log_error: Option<(usize, Error)>,
) -> (n: nat)
    requires
        i <= items.len(),
        r == published_all(r0, items, i),
        r.tail == r0.tail + i,
        r0.tail + items.len() <= u64::MAX,
    ensures
        i <= n <= items.len(),
        publisher::batch(v, r, items, i as int, i, log_error).1 == published_all(r0, items, n),
        publisher::batch(v, r, items, i as int, i, log_error).1.tail == r0.tail + n,
        publisher::batch(v, r, items, i as int, i, log_error).2 is Ok ==> publisher::batch(
            v,
            r,
            items,
            i as int,
            i,
            log_error,
        ).2 == Ok::<nat, Error>(n),
    decreases items.len() - i,
{
    if i >= items.len() || items[i as int].len() > v.slot_size || publisher::refuses(v, is_full(r))
        || (v.wal && log_error is Some && log_error->Some_0.0 == i) {
        i
    } else {
        lemma_batch_from(
            publisher::counted(v),
            r0,
            ring::published(r, items[i as int]),
            items,
            i + 1,
            log_error,
        )
    }
}

/// Under the policy that overwrites, a batch of messages that all fit, and that the log
/// takes, is published to the last one.
pub proof fn law_drop_oldest_publishes_all(
    v: PublisherView,
    r: RingView,
    items: Seq<Seq<u8>>,
    i: nat,
)
    requires
        v.backpressure == BackpressurePolicy::DropOldest,
        i <= items.len(),
        forall|k: int| 0 <= k < items.len() ==> (#[trigger] items[k]).len() <= v.slot_size,
    ensures
        publisher::batch(v, r, items, i as int, i, None).2 == Ok::<nat, Error>(items.len()),
    decreases items.len() - i,
{
    if i < items.len() {
        assert(items[i as int].len() <= v.slot_size);
        law_drop_oldest_publishes_all(
            publisher::counted(v),
            ring::published(r, items[i as int]),
            items,
            i + 1,
        );
    }
}

/// A round of wakeups drops the clients that cannot be woken, and no others.
pub proof fn law_wakeups_drop_the_dead(v: PublisherView, dead: Seq<u64>, id: u64)
    ensures
        publisher::woken(v, 0, dead).clients.contains(id) <==> v.clients.contains(id)
            && !dead.contains(id),
{
    lemma_woken(v, 0, dead, id);
}

proof fn lemma_woken(v: PublisherView, i: int, dead: Seq<u64>, id: u64)
    requires
        0 <= i <= v.clients.len(),
        forall|j: int| 0 <= j < i ==> !dead.contains(#[trigger] v.clients[j]),
    ensures
        publisher::woken(v, i, dead).clients.contains(id) <==> v.clients.contains(id)
            && !dead.contains(id),
    decreases v.clients.len() - i,
{
    if i < v.clients.len() {
        if dead.contains(v.clients[i]) {
            let w = publisher::client_lost(v, i);
            let last = v.clients.len() - 1;
            assert forall|j: int| 0 <= j < i implies !dead.contains(#[trigger] w.clients[j]) by {
                assert(w.clients[j] == v.clients[j]);
            }
            lemma_woken(w, i, dead, id);
            if w.clients.contains(id) {
                let j = choose|j: int| 0 <= j < w.clients.len() && w.clients[j] == id;
                if j == i {
                    assert(v.clients[last] == id);
                } else {
                    assert(v.clients[j] == id);
                }
            }
            if v.clients.contains(id) && !dead.contains(id) {
                let j = choose|j: int| 0 <= j < v.clients.len() && v.clients[j] == id;
                assert(j != i);
                if j == last {
                    assert(w.clients[i] == id);
                } else {
                    assert(w.clients[j] == id);
                }
            }
        } else {
            lemma_woken(publisher::client_woken(v), i + 1, dead, id);
        }
    } else {
        if v.clients.contains(id) {
            let j = choose|j: int| 0 <= j < v.clients.len() && v.clients[j] == id;
            assert(!dead.contains(v.clients[j]));
        }
    }
}

/// Across a restart the cursors only grow: a ring that is taken over starts where the log
/// goes on.
pub proof fn law_ring_resumes_behind_the_log(existing: Option<Vec<u8>>, cfg: crate::config::BusConfig, next: u64)
    requires
        cfg.wal.enabled,
    ensures
        publisher::first_ring(existing, cfg, Ok(next)).tail == next,
{
}

// ── What each operation gives ────────────────────────────────────────────────

/// A counter one further: it wraps around behind the largest number.
pub open spec fn one_more(n: u64) -> u64 {
    if n == u64::MAX {
        0
    } else {
        (n + 1) as u64
    }
}

/// A publish succeeds whenever it has no reason to fail: the message fits into a slot,
/// accepting clients gave no error, the ring has room or the policy overwrites, and the log
/// took the record, if there is a log. The ring then holds the message in the slot of the
/// old tail, and nothing else changed there.
pub proof fn law_publish_succeeds(v: PublisherView, r: RingView, data: Seq<u8>, io: PublishIo, j: int)
    requires
        0 < r.slots.len() <= u32::MAX,
        r.tail < u64::MAX,
        0 <= j < r.slots.len(),
        forall|i: int| 0 <= i < r.slots.len() ==> (#[trigger] r.slots[i]).area.len() == v.slot_size,
        data.len() <= v.slot_size,
        io.accept_error is None,
        v.backpressure == BackpressurePolicy::DropOldest || !ring::full_at(
            r.tail,
            r.cursors,
            r.slots.len() as u32,
        ),
        v.wal ==> io.logged is Ok,
    ensures
        ({
            let p = publisher::publishing(v, r, data, io);
            let at = r.tail as int % r.slots.len() as int;
            &&& p.2 == Ok::<(), Error>(())
            &&& p.1.tail == r.tail + 1
            &&& p.1.generation == r.generation
            &&& p.1.cursors == r.cursors
            &&& p.1.slots.len() == r.slots.len()
            &&& p.1.slots[at].seq == r.tail
            &&& p.1.slots[at].len == data.len()
            &&& p.1.slots[at].payload() == data
            &&& j != at ==> p.1.slots[j] == r.slots[j]
            &&& p.0.published == one_more(v.published)
            &&& p.0.full_rejected == v.full_rejected
            &&& p.0.slot_size == v.slot_size
            &&& p.0.backpressure == v.backpressure
            &&& p.0.wal == v.wal
        }),
{
    let at = r.tail as int % r.slots.len() as int;
    assert(r.slots[at].area.len() == v.slot_size);
    ring_laws::law_published_message_stands_in_its_slot(r, data, j);
    law_wakeups_count_the_living(
        publisher::counted(publisher::accepting(v, io.accepted@)),
        io.dead@,
    );
}

/// A publish that fails has one of four reasons, looked at in this order: the message is
/// longer than a slot, accepting clients gave an error, the ring is full and the policy
/// refuses, the log did not take the record. The ring stays as it is, and nothing counts as
/// published. A full ring alone is counted. A message that is too long is noticed before any
/// client is taken in.
pub proof fn law_publish_fails_for_a_reason(
    v: PublisherView,
    r: RingView,
    data: Seq<u8>,
    io: PublishIo,
)
    ensures
        ({
            let p = publisher::publishing(v, r, data, io);
            let full = ring::full_at(r.tail, r.cursors, r.slots.len() as u32);
            let refused = full && v.backpressure == BackpressurePolicy::Error;
            let taken_in = PublisherView { clients: v.clients + io.accepted@, ..v };
            &&& data.len() > v.slot_size ==> p == (
                v,
                r,
                Err::<(), Error>(
                    Error::TooLarge { size: data.len() as usize, max: v.slot_size as usize },
                ),
            )
            &&& data.len() <= v.slot_size && io.accept_error is Some ==> p == (
                taken_in,
                r,
                Err::<(), Error>(Error::Io(io.accept_error->Some_0)),
            )
            &&& data.len() <= v.slot_size && io.accept_error is None && refused ==> p == (
                PublisherView { full_rejected: one_more(v.full_rejected), ..taken_in },
                r,
                Err::<(), Error>(Error::Full),
            )
            &&& data.len() <= v.slot_size && io.accept_error is None && !refused && v.wal
                && io.logged is Err ==> p == (taken_in, r, Err::<(), Error>(io.logged->Err_0))
            &&& p.2 is Err <==> data.len() > v.slot_size || io.accept_error is Some || refused || (
            v.wal && io.logged is Err)
            &&& p.2 is Err ==> p.1 == r && p.0.published == v.published
        }),
{
}

/// A round of wakeups wakes every client that is left once, and counts it, and counts every
/// client that is gone. No client is there twice that was there once, and the rest of the
/// publisher stays.
pub proof fn law_wakeups_count_the_living(v: PublisherView, dead: Seq<u64>)
    ensures
        ({
            let w = publisher::woken(v, 0, dead);
            &&& w.clients.len() <= v.clients.len()
            &&& w.wakeups == (v.wakeups + w.clients.len()) % 0x1_0000_0000_0000_0000
            &&& w.dropped == (v.dropped + (v.clients.len() - w.clients.len()))
                % 0x1_0000_0000_0000_0000
            &&& v.clients.no_duplicates() ==> w.clients.no_duplicates()
            &&& w.published == v.published
            &&& w.full_rejected == v.full_rejected
            &&& w.slot_size == v.slot_size
            &&& w.backpressure == v.backpressure
            &&& w.wal == v.wal
            &&& (forall|i: int| 0 <= i < v.clients.len() ==> !dead.contains(#[trigger] v.clients[i]))
                ==> w.clients == v.clients
        }),
{
    lemma_woken_counts(v, 0, dead);
}

proof fn lemma_woken_counts(v: PublisherView, i: int, dead: Seq<u64>)
    requires
        0 <= i <= v.clients.len(),
    ensures
        ({
            let w = publisher::woken(v, i, dead);
            &&& i <= w.clients.len() <= v.clients.len()
            &&& w.wakeups == (v.wakeups + (w.clients.len() - i)) % 0x1_0000_0000_0000_0000
            &&& w.dropped == (v.dropped + (v.clients.len() - w.clients.len()))
                % 0x1_0000_0000_0000_0000
            &&& v.clients.no_duplicates() ==> w.clients.no_duplicates()
            &&& w.published == v.published
            &&& w.full_rejected == v.full_rejected
            &&& w.slot_size == v.slot_size
            &&& w.backpressure == v.backpressure
            &&& w.wal == v.wal
            &&& (forall|k: int| i <= k < v.clients.len() ==> !dead.contains(#[trigger] v.clients[k]))
                ==> w.clients == v.clients
        }),
    decreases v.clients.len() - i,
{
    if i < v.clients.len() {
        if dead.contains(v.clients[i]) {
            let w = publisher::client_lost(v, i);
            lemma_woken_counts(w, i, dead);
            if v.clients.no_duplicates() {
                assert(w.clients.no_duplicates()) by {
                    assert forall|a: int, b: int|
                        0 <= a < w.clients.len() && 0 <= b < w.clients.len() && a != b implies
                        w.clients[a] != w.clients[b] by {
                        let last = v.clients.len() - 1;
                        let x = if a == i {
                            last
                        } else {
                            a
                        };
                        let y = if b == i {
                            last
                        } else {
                            b
                        };
                        assert(w.clients[a] == v.clients[x] && w.clients[b] == v.clients[y]);
                    }
                }
            }
        } else {
            lemma_woken_counts(publisher::client_woken(v), i + 1, dead);
        }
    }
}

/// The message at `k` of a batch is published, given the ring after those before it.
pub open spec fn goes_in(
    v: PublisherView,
    r: RingView,
    items: Seq<Seq<u8>>,
    k: nat,
    log_error: Option<(usize, Error)>,
) -> bool {
    let now = published_all(r, items, k);
    &&& items[k as int].len() <= v.slot_size
    &&& v.backpressure == BackpressurePolicy::DropOldest || !ring::full_at(
        now.tail,
        now.cursors,
        now.slots.len() as u32,
    )
    &&& !(v.wal && log_error is Some && log_error->Some_0.0 == k)
}

/// A batch goes on while messages can be published, and not further: every message before
/// the place where it ends goes in, and the one there does not. It returns the number of its
/// messages if all went in, and the number of those that did if the ring is full; a message
/// that is too long, or that the log does not take, is the error. Clients are woken once if
/// anything was published, and every message is counted.
pub proof fn law_batch_goes_as_far_as_it_can(
    v: PublisherView,
    r: RingView,
    items: Seq<Seq<u8>>,
    io: BatchIo,
) -> (n: nat)
    requires
        r.tail + items.len() <= u64::MAX,
        io.accept_error is None,
    ensures
        ({
            let p = publisher::publishing_many(v, r, items, io);
            let now = published_all(r, items, n);
            let counted = PublisherView {
                clients: v.clients + io.accepted@,
                published: ((v.published + n) % 0x1_0000_0000_0000_0000) as u64,
                ..v
            };
            &&& n <= items.len()
            &&& forall|k: nat| k < n ==> #[trigger] goes_in(v, r, items, k, io.log_error)
            &&& n < items.len() ==> !goes_in(v, r, items, n, io.log_error)
            &&& p.1 == now
            &&& p.1.tail == r.tail + n
            &&& p.0 == (if n > 0 {
                publisher::woken(counted, 0, io.dead@)
            } else {
                counted
            })
            &&& p.2 == (if n == items.len() {
                Ok::<nat, Error>(n)
            } else if items[n as int].len() > v.slot_size {
                Err::<nat, Error>(
                    Error::TooLarge {
                        size: items[n as int].len() as usize,
                        max: v.slot_size as usize,
                    },
                )
            } else if v.backpressure == BackpressurePolicy::Error && ring::full_at(
                now.tail,
                now.cursors,
                now.slots.len() as u32,
            ) {
                Ok::<nat, Error>(n)
            } else {
                Err::<nat, Error>(io.log_error->Some_0.1)
            })
        }),
{
    let a = publisher::accepting(v, io.accepted@);
    let n = lemma_batch_extent(v, a, r, items, 0, io.log_error);
    let b = publisher::batch(a, r, items, 0, 0, io.log_error);
    assert(b.1.tail != r.tail <==> n > 0);
    n
}

/// A batch whose clients could not be accepted publishes nothing.
pub proof fn law_batch_needs_its_clients(
    v: PublisherView,
    r: RingView,
    items: Seq<Seq<u8>>,
    io: BatchIo,
)
    requires
        io.accept_error is Some,
    ensures
        publisher::publishing_many(v, r, items, io) == (
            PublisherView { clients: v.clients + io.accepted@, ..v },
            r,
            Err::<nat, Error>(Error::Io(io.accept_error->Some_0)),
        ),
{
}

proof fn lemma_batch_extent(
    v: PublisherView,
    a: PublisherView,
    r: RingView,
    items: Seq<Seq<u8>>,
    i: nat,
    log_error: Option<(usize, Error)>,
) -> (n: nat)
    requires
        i <= items.len(),
        r.tail + items.len() <= u64::MAX,
        a.slot_size == v.slot_size,
        a.backpressure == v.backpressure,
        a.wal == v.wal,
        published_all(r, items, i).tail == r.tail + i,
        forall|k: nat| k < i ==> #[trigger] goes_in(v, r, items, k, log_error),
    ensures
        ({
            let b = publisher::batch(
                a,
                published_all(r, items, i),
                items,
                i as int,
                i,
                log_error,
            );
            let now = published_all(r, items, n);
            &&& i <= n <= items.len()
            &&& forall|k: nat| k < n ==> #[trigger] goes_in(v, r, items, k, log_error)
            &&& n < items.len() ==> !goes_in(v, r, items, n, log_error)
            &&& b.1 == now
            &&& now.tail == r.tail + n
            &&& b.0 == (PublisherView {
                published: ((a.published + (n - i)) % 0x1_0000_0000_0000_0000) as u64,
                ..a
            })
            &&& b.2 == (if n == items.len() {
                Ok::<nat, Error>(n)
            } else if items[n as int].len() > v.slot_size {
                Err::<nat, Error>(
                    Error::TooLarge {
                        size: items[n as int].len() as usize,
                        max: v.slot_size as usize,
                    },
                )
            } else if v.backpressure == BackpressurePolicy::Error && ring::full_at(
                now.tail,
                now.cursors,
                now.slots.len() as u32,
            ) {
                Ok::<nat, Error>(n)
            } else {
                Err::<nat, Error>(log_error->Some_0.1)
            })
        }),
    decreases items.len() - i,
{
    let now = published_all(r, items, i);
    if i < items.len() && goes_in(v, r, items, i, log_error) {
        assert(published_all(r, items, i + 1) == ring::published(now, items[i as int]));
        lemma_batch_extent(v, publisher::counted(a), r, items, i + 1, log_error)
    } else {
        i
    }
}

/// A publisher is set up exactly when every operation that it takes went well; otherwise the
/// first one that did not decides. The log is opened only where it is switched on.
pub proof fn law_publisher_is_set_up(cfg: BusConfig, io: CreateIo)
    ensures
        ({
            let c = publisher::created(cfg, io);
            &&& c is Ok <==> io.dir is Ok && io.lock is Ok && io.ring is Ok && (cfg.wal.enabled
                ==> io.log is Ok) && io.socket is Ok
            &&& io.dir is Err ==> c == Err::<(PublisherView, RingView), Error>(
                Error::Io(io.dir->Err_0),
            )
            &&& io.dir is Ok && io.lock is Err ==> c == Err::<(PublisherView, RingView), Error>(
                io.lock->Err_0,
            )
            &&& io.dir is Ok && io.lock is Ok && io.ring is Err ==> c == Err::<
                (PublisherView, RingView),
                Error,
            >(Error::Io(io.ring->Err_0))
            &&& io.dir is Ok && io.lock is Ok && io.ring is Ok && cfg.wal.enabled && io.log is Err
                ==> c == Err::<(PublisherView, RingView), Error>(io.log->Err_0)
            &&& io.dir is Ok && io.lock is Ok && io.ring is Ok && (cfg.wal.enabled ==> io.log is Ok)
                && io.socket is Err ==> c == Err::<(PublisherView, RingView), Error>(
                Error::Io(io.socket->Err_0),
            )
            &&& c matches Ok((p, _)) ==> {
                &&& p.backpressure == cfg.backpressure
                &&& p.slot_size == cfg.slot_size
                &&& p.wal == cfg.wal.enabled
                &&& p.clients.len() == 0
                &&& p.published == 0
                &&& p.full_rejected == 0
                &&& p.dropped == 0
                &&& p.wakeups == 0
            }
        }),
{
}

/// The ring of a publisher that was set up: one of its shape that was there is taken over,
/// with the next generation and its cursors and slots; anything else gives a fresh one. The
/// tail is where the log goes on, and zero without a log.
pub proof fn law_ring_is_taken_over(cfg: BusConfig, io: CreateIo)
    requires
        publisher::created(cfg, io) is Ok,
    ensures
        ({
            let v = publisher::created(cfg, io)->Ok_0.1;
            let shape = (cfg.capacity, cfg.slot_size, cfg.max_subscribers);
            &&& v.tail == (if cfg.wal.enabled {
                io.log->Ok_0
            } else {
                0
            })
            &&& match io.ring->Ok_0 {
                Some(mem) if ring::shape_in(mem@) == Ok::<(u32, u32, u32), IoKind>(shape) => {
                    let was = ring::ring_in(mem@, shape);
                    &&& v.slots == was.slots
                    &&& v.cursors == was.cursors
                    &&& v.generation == one_more(was.generation)
                },
                _ => {
                    let fresh = ring::fresh(cfg.capacity, cfg.slot_size, cfg.max_subscribers);
                    &&& v.slots == fresh.slots
                    &&& v.cursors == fresh.cursors
                    &&& v.generation == 1
                },
            }
        }),
{
}

/// A wait for subscribers is over once there are enough of them. It fails with what accepting
/// gave, or when the time is up, and goes on otherwise.
pub proof fn law_wait_ends_with_enough_clients(
    s: WaitStep,
    clients: nat,
    accept_error: Option<IoKind>,
    min_count: usize,
    expired: bool,
)
    requires
        publisher::wait_is(s, clients, accept_error, min_count, expired),
    ensures
        s is Ready <==> accept_error is None && clients >= min_count,
        s is Again <==> accept_error is None && clients < min_count && !expired,
        accept_error is Some ==> s == WaitStep::Fail(Error::Io(accept_error->Some_0)),
        accept_error is None && clients < min_count && expired ==> s is Fail && s->Fail_0 is Timeout
            && s->Fail_0->Timeout_0@ == "waiting for subscribers"@,
{
}

/// A publish that succeeds counts the message, takes in the clients that were accepted, and
/// wakes every one.
pub proof fn law_publish_wakes_everyone(
    v: PublisherView,
    r: RingView,
    data: Seq<u8>,
    io: PublishIo,
)
    requires
        publisher::publishing(v, r, data, io).2 is Ok,
    ensures
        publisher::publishing(v, r, data, io).0 == publisher::woken(
            PublisherView {
                clients: v.clients + io.accepted@,
                published: one_more(v.published),
                ..v
            },
            0,
            io.dead@,
        ),
        publisher::publishing(v, r, data, io).1 == ring::published(r, data),
{
}

/// The small steps of a publisher: a client that is accepted stands behind the others, a
/// message that is refused or published and a wakeup that is sent are counted, and a client
/// that is gone is counted and its place taken by the last one. Nothing else changes.
pub proof fn law_small_steps_change_one_thing(v: PublisherView, ids: Seq<u64>, i: int)
    requires
        0 <= i < v.clients.len(),
    ensures
        publisher::accepting(v, ids) == (PublisherView { clients: v.clients + ids, ..v }),
        publisher::rejected(v) == (PublisherView {
            full_rejected: one_more(v.full_rejected),
            ..v
        }),
        publisher::counted(v) == (PublisherView { published: one_more(v.published), ..v }),
        publisher::client_woken(v) == (PublisherView { wakeups: one_more(v.wakeups), ..v }),
        ({
            let w = publisher::client_lost(v, i);
            &&& w == (PublisherView {
                clients: w.clients,
                dropped: one_more(v.dropped),
                ..v
            })
            &&& w.clients.len() == v.clients.len() - 1
            &&& i < w.clients.len() ==> w.clients[i] == v.clients.last()
            &&& forall|k: int|
                0 <= k < w.clients.len() && k != i ==> #[trigger] w.clients[k] == v.clients[k]
        }),
{
}

/// The messages of a batch are the buffers that were handed in, one for each and in order.
pub proof fn law_batch_holds_its_buffers(items: Seq<Vec<u8>>, i: int)
    requires
        0 <= i < items.len(),
    ensures
        publisher::items_view(items).len() == items.len(),
        publisher::items_view(items)[i] == items[i]@,
{
}

} // verus!
