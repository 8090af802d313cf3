//! What publishers of one topic that come one after the other can rely on.

use crate::config::BusConfig;
use crate::error::{Error, IoKind};
use crate::logged_publisher;
use crate::logged_publisher::{LogIo, LoggedBatchIo, LoggedIo, Topic};
use crate::producer_lock;
use crate::publisher;
use crate::publisher::CreateIo;
use crate::ring;
use crate::wal::history_laws;
use crate::wal::run_laws;
use crate::wal::run_laws::{Appending, Stored};
use crate::wal::wal_laws::Written;
use vstd::prelude::*;

verus! {

/// A topic with a log, and the segment files of the log.
pub struct Kept {
    pub topic: Topic,
    pub files: Seq<Written>,
}

/// A publish or a batch, what the operations around it gave, and when a segment that it
/// starts is created: for a batch, one time for each item.
pub enum Publishing {
    One { ts_unix_nanos: u64, data: Seq<u8>, io: LoggedIo, created: u64 },
    Batch { items: Seq<Seq<u8>>, io: LoggedBatchIo, created: Seq<u64> },
}

/// The append that publishing a message makes.
pub open spec fn appending(
    t: Topic,
    ts_unix_nanos: u64,
    data: Seq<u8>,
    io: LogIo,
    created: u64,
) -> Appending {
    Appending {
        rec: logged_publisher::as_record(t, ts_unix_nanos, data),
        io: io.append,
        synced: io.synced,
        created,
    }
}

/// The log of a topic and its files.
pub open spec fn log_of(k: Kept) -> Stored {
    Stored { log: k.topic.log, files: k.files }
}

/// The topic after a publish or a batch.
pub open spec fn topic_after(t: Topic, x: Publishing) -> Topic {
    match x {
        Publishing::One { ts_unix_nanos, data, io, .. } => logged_publisher::publishing(
            t,
            ts_unix_nanos,
            data,
            io,
        ).0,
        Publishing::Batch { items, io, .. } => logged_publisher::publishing_many(t, items, io).0,
    }
}

/// The log does not fail: the publish succeeds, or it is refused before it comes to the log.
pub open spec fn regular(k: Kept, x: Publishing) -> bool {
    match x {
        Publishing::One { ts_unix_nanos, data, io, .. } => {
            &&& k.topic.ring.tail < u64::MAX
            &&& !(logged_publisher::publishing(k.topic, ts_unix_nanos, data, io).1 matches Err(
                Error::Wal(_),
            ))
        },
        Publishing::Batch { items, io, .. } => {
            &&& k.topic.ring.tail + items.len() <= u64::MAX
            &&& !(logged_publisher::publishing_many(k.topic, items, io).2 matches Err(
                Error::Wal(_),
            ))
        },
    }
}

/// The next message of a batch is published.
pub open spec fn goes_on(t: Topic, items: Seq<Seq<u8>>, i: int) -> bool {
    &&& 0 <= i < items.len()
    &&& items[i].len() <= t.publisher.slot_size
    &&& !publisher::refuses(t.publisher, logged_publisher::is_full(t))
}

/// The topic and its files after one message of a batch.
pub open spec fn after_item(
    k: Kept,
    data: Seq<u8>,
    log: (u64, LogIo),
    created: u64,
) -> Kept {
    let x = appending(k.topic, log.0, data, log.1, created);
    Kept {
        topic: Topic {
            publisher: publisher::counted(k.topic.publisher),
            ring: ring::published(k.topic.ring, data),
            log: logged_publisher::logging(k.topic.log, x.rec, log.1).0,
        },
        files: run_laws::stored(log_of(k), x).files,
    }
}

/// The files after a batch from place `i` on, and how many of its messages were published.
pub open spec fn after_items(
    k: Kept,
    items: Seq<Seq<u8>>,
    i: int,
    log: Seq<(u64, LogIo)>,
    created: Seq<u64>,
) -> (Seq<Written>, nat)
    decreases items.len() - i,
{
    if goes_on(k.topic, items, i) {
        let rest = after_items(
            after_item(k, items[i], log[i], created[i]),
            items,
            i + 1,
            log,
            created,
        );
        (rest.0, rest.1 + 1)
    } else {
        (k.files, 0)
    }
}

/// The topic as a batch finds it: the waiting clients are accepted.
pub open spec fn accepted(k: Kept, io: LoggedBatchIo) -> Kept {
    Kept {
        topic: Topic {
            publisher: publisher::accepting(k.topic.publisher, io.accepted@),
            ..k.topic
        },
        ..k
    }
}

/// The files after a publish or a batch, and how many messages it published.
pub open spec fn files_after(k: Kept, x: Publishing) -> (Seq<Written>, nat) {
    match x {
        Publishing::One { ts_unix_nanos, data, io, created } => if logged_publisher::publishing(
            k.topic,
            ts_unix_nanos,
            data,
            io,
        ).1 is Ok {
            let a = appending(k.topic, ts_unix_nanos, data, io.log, created);
            (run_laws::stored(log_of(k), a).files, 1)
        } else {
            (k.files, 0)
        },
        Publishing::Batch { items, io, created } => if io.accept_error is Some {
            (k.files, 0)
        } else {
            after_items(accepted(k, io), items, 0, io.log@, created)
        },
    }
}

/// The topic and its files after a publish or a batch.
pub open spec fn after(k: Kept, x: Publishing) -> Kept {
    Kept { topic: topic_after(k.topic, x), files: files_after(k, x).0 }
}

/// The topic and its files after these publishes, one after the other.
pub open spec fn after_all(k: Kept, xs: Seq<Publishing>) -> Kept
    decreases xs.len(),
{
    if xs.len() == 0 {
        k
    } else {
        after(after_all(k, xs.drop_last()), xs.last())
    }
}

/// The log fails none of these publishes.
pub open spec fn all_regular(k: Kept, xs: Seq<Publishing>) -> bool
    decreases xs.len(),
{
    xs.len() > 0 ==> {
        &&& all_regular(k, xs.drop_last())
        &&& regular(after_all(k, xs.drop_last()), xs.last())
    }
}

/// How many messages these publishes published.
pub open spec fn messages(k: Kept, xs: Seq<Publishing>) -> nat
    decreases xs.len(),
{
    if xs.len() == 0 {
        0
    } else {
        messages(k, xs.drop_last()) + files_after(after_all(k, xs.drop_last()), xs.last()).1
    }
}

/// The log consists of its files, and starts at 0.
pub open spec fn whole(s: Stored) -> bool {
    &&& history_laws::holds(s.log, s.files)
    &&& s.files.len() == 0 ==> s.log.pending() == 0
}

/// Log and ring go on at the same cursor, and the log consists of its files.
pub open spec fn sound(k: Kept) -> bool {
    &&& k.topic.log.cfg.enabled
    &&& k.topic.log.pending() == k.topic.ring.tail
    &&& whole(log_of(k))
}

/// One message that the log takes.
proof fn lemma_after_item(k: Kept, data: Seq<u8>, log: (u64, LogIo), created: u64)
    requires
        sound(k),
        k.topic.ring.tail < u64::MAX,
        logged_publisher::logging(
            k.topic.log,
            logged_publisher::as_record(k.topic, log.0, data),
            log.1,
        ).1 is Ok,
    ensures
        sound(after_item(k, data, log, created)),
        after_item(k, data, log, created).topic.log.cfg == k.topic.log.cfg,
        after_item(k, data, log, created).topic.ring.tail == k.topic.ring.tail + 1,
{
    reveal(run_laws::taken);
    reveal(run_laws::stored);
    run_laws::lemma_stored(log_of(k), appending(k.topic, log.0, data, log.1, created));
}

/// A batch of which the log takes every message that comes to it.
proof fn lemma_after_items(
    k: Kept,
    items: Seq<Seq<u8>>,
    i: int,
    log: Seq<(u64, LogIo)>,
    created: Seq<u64>,
)
    requires
        sound(k),
        0 <= i <= items.len(),
        k.topic.ring.tail + (items.len() - i) <= u64::MAX,
        !(logged_publisher::batch(k.topic, items, i, log).2 matches Err(Error::Wal(_))),
    ensures
        ({
            let after = Kept {
                topic: logged_publisher::batch(k.topic, items, i, log).0,
                files: after_items(k, items, i, log, created).0,
            };
            &&& sound(after)
            &&& after.topic.log.cfg == k.topic.log.cfg
            &&& after.topic.ring.tail == k.topic.ring.tail + after_items(
                k,
                items,
                i,
                log,
                created,
            ).1
        }),
    decreases items.len() - i,
{
    if goes_on(k.topic, items, i) {
        lemma_after_item(k, items[i], log[i], created[i]);
        lemma_after_items(
            after_item(k, items[i], log[i], created[i]),
            items,
            i + 1,
            log,
            created,
        );
    }
}

/// One publish or batch.
proof fn lemma_after(k: Kept, x: Publishing)
    requires
        sound(k),
        regular(k, x),
    ensures
        sound(after(k, x)),
        after(k, x).topic.log.cfg == k.topic.log.cfg,
        after(k, x).topic.ring.tail == k.topic.ring.tail + files_after(k, x).1,
{
    match x {
        Publishing::One { ts_unix_nanos, data, io, created } => {
            if logged_publisher::publishing(k.topic, ts_unix_nanos, data, io).1 is Ok {
                lemma_after_item(k, data, (ts_unix_nanos, io.log), created);
            }
        },
        Publishing::Batch { items, io, created } => {
            if io.accept_error is None {
                lemma_after_items(accepted(k, io), items, 0, io.log@, created);
            }
        },
    }
}

proof fn lemma_after_all(k: Kept, xs: Seq<Publishing>)
    requires
        sound(k),
        all_regular(k, xs),
    ensures
        sound(after_all(k, xs)),
        after_all(k, xs).topic.log.cfg == k.topic.log.cfg,
        after_all(k, xs).topic.ring.tail == k.topic.ring.tail + messages(k, xs),
    decreases xs.len(),
{
    if xs.len() > 0 {
        lemma_after_all(k, xs.drop_last());
        lemma_after(after_all(k, xs.drop_last()), xs.last());
    }
}

/// The time of one publisher: what setting it up gave, the order in which recovery looked at
/// the segment files of the log, when a segment that opening the log starts is created, and
/// its publishes.
pub struct Tenure {
    pub io: CreateIo,
    pub found: Seq<Written>,
    pub created: u64,
    pub publishes: Seq<Publishing>,
}

/// The log as a publisher opens it: recovered from its files, with a fresh segment if the
/// newest one holds records.
pub open spec fn opened(cfg: BusConfig, s: Stored, found: Seq<Written>, created: u64) -> Stored {
    let log = history_laws::reopened(cfg.wal, found);
    if s.files.len() > 0 && s.files.last().records.len() > 0 {
        Stored {
            log: log.opened(log.pending() as u64),
            files: history_laws::started(s.files, log.pending() as u64, created),
        }
    } else {
        Stored { log, files: s.files }
    }
}

/// A publisher that was just set up over the log that another one left.
#[verifier::opaque]
pub open spec fn set_up(cfg: BusConfig, s: Stored, t: Tenure) -> Kept {
    let (publisher, ring) = publisher::created(cfg, t.io)->Ok_0;
    let o = opened(cfg, s, t.found, t.created);
    Kept { topic: Topic { publisher, ring, log: o.log }, files: o.files }
}

/// What publishers that came one after the other leave of the log.
pub open spec fn left(cfg: BusConfig, ts: Seq<Tenure>) -> Stored
    decreases ts.len(),
{
    if ts.len() == 0 {
        run_laws::empty(cfg.wal)
    } else {
        log_of(
            after_all(set_up(cfg, left(cfg, ts.drop_last()), ts.last()), ts.last().publishes),
        )
    }
}

/// Setting up a publisher succeeds over the log that was left: recovery looked at its files,
/// in whatever order, and the publisher was told where the log goes on.
pub open spec fn succeeds(cfg: BusConfig, s: Stored, io: CreateIo, found: Seq<Written>) -> bool {
    &&& publisher::created(cfg, io) is Ok
    &&& forall|f: Written| #[trigger] found.contains(f) <==> s.files.contains(f)
    &&& io.log == Ok::<u64, Error>(history_laws::reopened(cfg.wal, found).pending() as u64)
}

/// Each of these publishers was set up, and the log failed none of its publishes.
pub open spec fn all_succeed(cfg: BusConfig, ts: Seq<Tenure>) -> bool
    decreases ts.len(),
{
    ts.len() > 0 ==> {
        let s = left(cfg, ts.drop_last());
        &&& all_succeed(cfg, ts.drop_last())
        &&& succeeds(cfg, s, ts.last().io, ts.last().found)
        &&& all_regular(set_up(cfg, s, ts.last()), ts.last().publishes)
    }
}

/// How many messages these publishers published.
pub open spec fn published(cfg: BusConfig, ts: Seq<Tenure>) -> nat
    decreases ts.len(),
{
    if ts.len() == 0 {
        0
    } else {
        published(cfg, ts.drop_last()) + messages(
            set_up(cfg, left(cfg, ts.drop_last()), ts.last()),
            ts.last().publishes,
        )
    }
}

/// A publisher over what is left of a log.
proof fn lemma_set_up(cfg: BusConfig, s: Stored, t: Tenure)
    requires
        cfg.wal.enabled,
        whole(s),
        succeeds(cfg, s, t.io, t.found),
    ensures
        sound(set_up(cfg, s, t)),
        set_up(cfg, s, t).topic.log.cfg == cfg.wal,
        publisher::created(cfg, t.io)->Ok_0.1.tail == s.log.pending(),
        set_up(cfg, s, t).topic.ring.tail == s.log.pending(),
{
    reveal(set_up);
    if s.files.len() > 0 {
        history_laws::law_restart_finds_the_log(s.log, s.files, t.found, cfg.wal, t.created);
    } else {
        if t.found.len() > 0 {
            assert(t.found.contains(t.found[0]));
        }
        assert(t.found =~= Seq::empty());
    }
}

proof fn lemma_left(cfg: BusConfig, ts: Seq<Tenure>)
    requires
        cfg.wal.enabled,
        all_succeed(cfg, ts),
    ensures
        whole(left(cfg, ts)),
        left(cfg, ts).log.pending() == published(cfg, ts),
    decreases ts.len(),
{
    if ts.len() > 0 {
        let s = left(cfg, ts.drop_last());
        lemma_left(cfg, ts.drop_last());
        lemma_set_up(cfg, s, ts.last());
        lemma_after_all(set_up(cfg, s, ts.last()), ts.last().publishes);
    }
}

/// A publisher goes on where those before it stopped: set up over the log that they left, its
/// ring starts at the number of messages that they published. Without a log it starts at 0.
pub proof fn law_publisher_resumes(
    cfg: BusConfig,
    ts: Seq<Tenure>,
    io: CreateIo,
    found: Seq<Written>,
)
    requires
        cfg.wal.enabled ==> all_succeed(cfg, ts) && succeeds(cfg, left(cfg, ts), io, found),
        publisher::created(cfg, io) is Ok,
    ensures
        publisher::created(cfg, io)->Ok_0.1.tail == (if cfg.wal.enabled {
            published(cfg, ts)
        } else {
            0
        }),
{
    if cfg.wal.enabled {
        lemma_left(cfg, ts);
        lemma_set_up(
            cfg,
            left(cfg, ts),
            Tenure { io, found, created: 0, publishes: Seq::empty() },
        );
    }
}

/// There is one publisher of a topic at a time: while another one holds the producer lock, in
/// this process or in another, setting one up is refused, whatever stands in the ring and the
/// log, and gives no ring.
pub proof fn law_second_publisher_is_refused(
    cfg: BusConfig,
    name: Seq<char>,
    held: bool,
    opened: Result<(), IoKind>,
    locked: bool,
    io: CreateIo,
)
    requires
        held || (opened is Ok && !locked),
        io.dir is Ok,
        producer_lock::acquired(io.lock, name, held, opened, locked),
    ensures
        publisher::created(cfg, io) matches Err(Error::AlreadyPublishing(who)) && who@ == name,
{
}

} // verus!
