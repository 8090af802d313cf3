//! What publishers of one topic with a log over memory-mapped segments that come one after
//! the other can rely on.

use crate::config::BusConfig;
use crate::error::Error;
use crate::mapped_publisher;
use crate::mapped_publisher::{LogIo, LoggedBatchIo, LoggedIo, Topic};
use crate::publisher;
use crate::publisher::CreateIo;
use crate::ring;
use crate::wal::v2::active::ActiveCoord;
use crate::wal::v2::history_laws;
use crate::wal::v2::mmap_segment_writer;
use crate::wal::v2::run_laws;
use crate::wal::v2::run_laws::{Appending, Stored};
use crate::wal::v2::wal;
use crate::wal::v2::wal::{WalRecovery, WalView};
use crate::wal::v2::wal_laws::Mapped;
use vstd::prelude::*;

verus! {

/// A topic with a log, and the segment files of the log.
pub struct Kept {
    pub topic: Topic,
    pub files: Seq<Mapped>,
}

/// A publish or a batch, and what the operations around it gave.
pub enum Publishing {
    One { ts_unix_nanos: u64, data: Seq<u8>, io: LoggedIo },
    Batch { items: Seq<Seq<u8>>, io: LoggedBatchIo },
}

/// The append that publishing a message makes.
pub open spec fn appending(
    t: Topic,
    ts_unix_nanos: u64,
    data: Seq<u8>,
    io: LogIo,
) -> Appending {
    Appending {
        rec: mapped_publisher::as_record(t, ts_unix_nanos, data),
        io: io.append,
        flushed: io.flushed,
    }
}

/// The log of a topic and its files.
pub open spec fn log_of(k: Kept) -> Stored {
    Stored { log: k.topic.log, files: k.files }
}

/// The topic after a publish or a batch.
pub open spec fn topic_after(t: Topic, x: Publishing) -> Topic {
    match x {
        Publishing::One { ts_unix_nanos, data, io } => mapped_publisher::publishing(
            t,
            ts_unix_nanos,
            data,
            io,
        ).0,
        Publishing::Batch { items, io } => mapped_publisher::publishing_many(t, items, io).0,
    }
}

/// The log does not fail: the publish succeeds, or it is refused before it comes to the log.
pub open spec fn regular(k: Kept, x: Publishing) -> bool {
    match x {
        Publishing::One { ts_unix_nanos, data, io } => {
            &&& k.topic.ring.tail < u64::MAX
            &&& !(mapped_publisher::publishing(k.topic, ts_unix_nanos, data, io).2 matches Err(
                Error::MappedWal(_),
            ))
        },
        Publishing::Batch { items, io } => {
            &&& k.topic.ring.tail + items.len() <= u64::MAX
            &&& !(mapped_publisher::publishing_many(k.topic, items, io).3 matches Err(
                Error::MappedWal(_),
            ))
        },
    }
}

/// The next message of a batch is published.
pub open spec fn goes_on(t: Topic, items: Seq<Seq<u8>>, i: int) -> bool {
    &&& 0 <= i < items.len()
    &&& items[i].len() <= t.publisher.slot_size
    &&& !publisher::refuses(t.publisher, mapped_publisher::is_full(t))
}

/// The topic and its files after one message of a batch.
pub open spec fn after_item(
    k: Kept,
    data: Seq<u8>,
    log: (u64, LogIo),
) -> Kept {
    let x = appending(k.topic, log.0, data, log.1);
    Kept {
        topic: Topic {
            publisher: publisher::counted(k.topic.publisher),
            ring: ring::published(k.topic.ring, data),
            log: mapped_publisher::logging(k.topic.log, x.rec, log.1).0,
        },
        files: run_laws::stored(log_of(k), x).files,
    }
}

/// The files after a batch from place `i` on, and how many of its messages were published.
pub open spec fn after_items(
    k: Kept,
    items: Seq<Seq<u8>>,
    i: int,
    log: Seq<(u64, LogIo)>,
) -> (Seq<Mapped>, nat)
    decreases items.len() - i,
{
    if goes_on(k.topic, items, i) {
        let rest = after_items(
            after_item(k, items[i], log[i]),
            items,
            i + 1,
            log,
        );
        (rest.0, rest.1 + 1)
    } else {
        (k.files, 0)
    }
}

/// The topic as a batch finds it: the waiting clients are accepted.
pub open spec fn accepted(k: Kept, io: LoggedBatchIo) -> Kept {
    Kept {
        topic: Topic {
            publisher: publisher::accepting(k.topic.publisher, io.accepted@),
            ..k.topic
        },
        ..k
    }
}

/// The files after a publish or a batch, and how many messages it published.
pub open spec fn files_after(k: Kept, x: Publishing) -> (Seq<Mapped>, nat) {
    match x {
        Publishing::One { ts_unix_nanos, data, io } => if mapped_publisher::publishing(
            k.topic,
            ts_unix_nanos,
            data,
            io,
        ).2 is Ok {
            let a = appending(k.topic, ts_unix_nanos, data, io.log);
            (run_laws::stored(log_of(k), a).files, 1)
        } else {
            (k.files, 0)
        },
        Publishing::Batch { items, io } => if io.accept_error is Some {
            (k.files, 0)
        } else {
            after_items(accepted(k, io), items, 0, io.log@)
        },
    }
}

/// The topic and its files after a publish or a batch.
pub open spec fn after(k: Kept, x: Publishing) -> Kept {
    Kept { topic: topic_after(k.topic, x), files: files_after(k, x).0 }
}

/// The topic and its files after these publishes, one after the other.
pub open spec fn after_all(k: Kept, xs: Seq<Publishing>) -> Kept
    decreases xs.len(),
{
    if xs.len() == 0 {
        k
    } else {
        after(after_all(k, xs.drop_last()), xs.last())
    }
}

/// The log fails none of these publishes.
pub open spec fn all_regular(k: Kept, xs: Seq<Publishing>) -> bool
    decreases xs.len(),
{
    xs.len() > 0 ==> {
        &&& all_regular(k, xs.drop_last())
        &&& regular(after_all(k, xs.drop_last()), xs.last())
    }
}

/// How many messages these publishes published.
pub open spec fn messages(k: Kept, xs: Seq<Publishing>) -> nat
    decreases xs.len(),
{
    if xs.len() == 0 {
        0
    } else {
        messages(k, xs.drop_last()) + files_after(after_all(k, xs.drop_last()), xs.last()).1
    }
}

/// The log consists of its files, and starts at 0.
pub open spec fn whole(s: Stored) -> bool {
    &&& history_laws::holds(s.log, s.files)
    &&& s.files.len() == 0 ==> s.log.pending == 0
}

/// Log and ring go on at the same cursor, and the log consists of its files.
pub open spec fn sound(k: Kept) -> bool {
    &&& k.topic.log.cfg.enabled
    &&& k.topic.log.pending == k.topic.ring.tail
    &&& whole(log_of(k))
}

/// One message that the log takes.
proof fn lemma_after_item(k: Kept, data: Seq<u8>, log: (u64, LogIo))
    requires
        sound(k),
        k.topic.ring.tail < u64::MAX,
        mapped_publisher::logging(
            k.topic.log,
            mapped_publisher::as_record(k.topic, log.0, data),
            log.1,
        ).2 is Ok,
    ensures
        sound(after_item(k, data, log)),
        after_item(k, data, log).topic.log.cfg == k.topic.log.cfg,
        after_item(k, data, log).topic.ring.tail == k.topic.ring.tail + 1,
{
    reveal(run_laws::taken);
    reveal(run_laws::stored);
    run_laws::lemma_stored(log_of(k), appending(k.topic, log.0, data, log.1));
}

/// A batch of which the log takes every message that comes to it.
proof fn lemma_after_items(
    k: Kept,
    items: Seq<Seq<u8>>,
    i: int,
    log: Seq<(u64, LogIo)>,
)
    requires
        sound(k),
        0 <= i <= items.len(),
        k.topic.ring.tail + (items.len() - i) <= u64::MAX,
        !(mapped_publisher::batch(k.topic, items, i, log).3 matches Err(Error::MappedWal(_))),
    ensures
        ({
            let after = Kept {
                topic: mapped_publisher::batch(k.topic, items, i, log).0,
                files: after_items(k, items, i, log).0,
            };
            &&& sound(after)
            &&& after.topic.log.cfg == k.topic.log.cfg
            &&& after.topic.ring.tail == k.topic.ring.tail + after_items(
                k,
                items,
                i,
                log,
            ).1
        }),
    decreases items.len() - i,
{
    if goes_on(k.topic, items, i) {
        lemma_after_item(k, items[i], log[i]);
        lemma_after_items(
            after_item(k, items[i], log[i]),
            items,
            i + 1,
            log,
        );
    }
}

/// One publish or batch.
proof fn lemma_after(k: Kept, x: Publishing)
    requires
        sound(k),
        regular(k, x),
    ensures
        sound(after(k, x)),
        after(k, x).topic.log.cfg == k.topic.log.cfg,
        after(k, x).topic.ring.tail == k.topic.ring.tail + files_after(k, x).1,
{
    match x {
        Publishing::One { ts_unix_nanos, data, io } => {
            if mapped_publisher::publishing(k.topic, ts_unix_nanos, data, io).2 is Ok {
                lemma_after_item(k, data, (ts_unix_nanos, io.log));
            }
        },
        Publishing::Batch { items, io } => {
            if io.accept_error is None {
                lemma_after_items(accepted(k, io), items, 0, io.log@);
            }
        },
    }
}

proof fn lemma_after_all(k: Kept, xs: Seq<Publishing>)
    requires
        sound(k),
        all_regular(k, xs),
    ensures
        sound(after_all(k, xs)),
        after_all(k, xs).topic.log.cfg == k.topic.log.cfg,
        after_all(k, xs).topic.ring.tail == k.topic.ring.tail + messages(k, xs),
    decreases xs.len(),
{
    if xs.len() > 0 {
        lemma_after_all(k, xs.drop_last());
        lemma_after(after_all(k, xs.drop_last()), xs.last());
    }
}

/// The time of one publisher: what setting it up gave, the order in which recovery listed the
/// segments of the log, what it found, the coordination file, and its publishes.
pub struct Tenure {
    pub io: CreateIo,
    pub listing: Seq<Mapped>,
    pub found: WalRecovery,
    pub coord: ActiveCoord,
    pub publishes: Seq<Publishing>,
}

/// The log as a publisher opens it: recovered from its files, with a fresh segment if the
/// newest one holds records.
pub open spec fn opened(
    cfg: BusConfig,
    files: Seq<Mapped>,
    found: WalRecovery,
    coord: ActiveCoord,
) -> Stored {
    let log = wal::recovered(cfg.wal, found, coord);
    if found.segments().len() == 0 {
        Stored { log, files }
    } else if found.needs_segment_is() {
        Stored {
            log: log.opened(log.pending).named(log.pending),
            files: history_laws::started(
                files,
                log.pending,
                cfg.wal.segment_size_max as int,
            ),
        }
    } else {
        Stored { log: log.named(log.pending), files }
    }
}

/// A publisher that was just set up over the log that another one left.
#[verifier::opaque]
pub open spec fn set_up(cfg: BusConfig, s: Stored, t: Tenure) -> Kept {
    let (publisher, ring) = publisher::created(cfg, t.io)->Ok_0;
    let o = opened(cfg, s.files, t.found, t.coord);
    Kept { topic: Topic { publisher, ring, log: o.log }, files: o.files }
}

/// A log in which nothing was ever put.
pub open spec fn nothing(cfg: BusConfig) -> Stored {
    Stored {
        log: WalView {
            cfg: cfg.wal,
            segments: Seq::empty(),
            retained_bytes: 0,
            active_bytes: 0,
            active: None,
            vacant: None,
            coord: (0, 0),
            pending: 0,
            durable: 0,
            poisoned: false,
            appends: 0,
            append_bytes: 0,
            flushes: 0,
        },
        files: Seq::empty(),
    }
}

/// What publishers that came one after the other leave of the log.
pub open spec fn left(cfg: BusConfig, ts: Seq<Tenure>) -> Stored
    decreases ts.len(),
{
    if ts.len() == 0 {
        nothing(cfg)
    } else {
        log_of(
            after_all(set_up(cfg, left(cfg, ts.drop_last()), ts.last()), ts.last().publishes),
        )
    }
}

/// Setting up a publisher succeeds over the log that was left: recovery listed its segments,
/// in whatever order, and scanned the newest one, the segment that it needs can be created,
/// and the publisher was told where the log goes on.
pub open spec fn succeeds(cfg: BusConfig, s: Stored, t: Tenure) -> bool {
    let newest = s.files.last();
    &&& publisher::created(cfg, t.io) is Ok
    &&& forall|m: Mapped| #[trigger] t.listing.contains(m) <==> s.files.contains(m)
    &&& t.found.segments() == run_laws::listed(t.listing)
    &&& s.files.len() > 0 ==> t.found.last() == wal::last_intact(
        mmap_segment_writer::image_of(newest.size, newest.first, newest.log),
    )
    &&& t.found.needs_segment_is() ==> mmap_segment_writer::size_verdict(
        cfg.wal.segment_size_max,
    ) is Ok
    &&& t.io.log == Ok::<u64, Error>(wal::recovered(cfg.wal, t.found, t.coord).pending)
}

/// Each of these publishers was set up, and the log failed none of its publishes.
pub open spec fn all_succeed(cfg: BusConfig, ts: Seq<Tenure>) -> bool
    decreases ts.len(),
{
    ts.len() > 0 ==> {
        let s = left(cfg, ts.drop_last());
        &&& all_succeed(cfg, ts.drop_last())
        &&& succeeds(cfg, s, ts.last())
        &&& all_regular(set_up(cfg, s, ts.last()), ts.last().publishes)
    }
}

/// How many messages these publishers published.
pub open spec fn published(cfg: BusConfig, ts: Seq<Tenure>) -> nat
    decreases ts.len(),
{
    if ts.len() == 0 {
        0
    } else {
        published(cfg, ts.drop_last()) + messages(
            set_up(cfg, left(cfg, ts.drop_last()), ts.last()),
            ts.last().publishes,
        )
    }
}

/// A publisher over what is left of a log.
proof fn lemma_set_up(cfg: BusConfig, s: Stored, t: Tenure)
    requires
        cfg.wal.enabled,
        whole(s),
        succeeds(cfg, s, t),
    ensures
        sound(set_up(cfg, s, t)),
        set_up(cfg, s, t).topic.log.cfg == cfg.wal,
        publisher::created(cfg, t.io)->Ok_0.1.tail == s.log.pending,
        set_up(cfg, s, t).topic.ring.tail == s.log.pending,
{
    reveal(set_up);
    if s.files.len() > 0 {
        run_laws::lemma_listed_log(s.log, s.files, t.listing);
        history_laws::law_restart_finds_the_log(s.log, s.files, t.found, cfg.wal, t.coord);
        assert(t.found.segments().len() > 0);
    } else {
        if t.listing.len() > 0 {
            assert(t.listing.contains(t.listing[0]));
        }
        assert(t.listing =~= Seq::empty());
        assert(t.found.segments() =~= Seq::empty());
    }
}

proof fn lemma_left(cfg: BusConfig, ts: Seq<Tenure>)
    requires
        cfg.wal.enabled,
        all_succeed(cfg, ts),
    ensures
        whole(left(cfg, ts)),
        left(cfg, ts).log.pending == published(cfg, ts),
    decreases ts.len(),
{
    if ts.len() > 0 {
        let s = left(cfg, ts.drop_last());
        lemma_left(cfg, ts.drop_last());
        lemma_set_up(cfg, s, ts.last());
        lemma_after_all(set_up(cfg, s, ts.last()), ts.last().publishes);
    }
}

/// A publisher goes on where those before it stopped: set up over the log that they left, its
/// ring starts at the number of messages that they published.
pub proof fn law_publisher_resumes(cfg: BusConfig, ts: Seq<Tenure>, next: Tenure)
    requires
        cfg.wal.enabled,
        all_succeed(cfg, ts),
        succeeds(cfg, left(cfg, ts), next),
    ensures
        publisher::created(cfg, next.io)->Ok_0.1.tail == published(cfg, ts),
{
    lemma_left(cfg, ts);
    lemma_set_up(cfg, left(cfg, ts), next);
}

} // verus!
