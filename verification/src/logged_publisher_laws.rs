//! What users of a topic with a log can rely on.

use crate::config::BackpressurePolicy;
use crate::error::Error;
use crate::logged_publisher;
use crate::logged_publisher::{LogIo, LoggedBatchIo, LoggedIo, Topic};
use crate::publisher;
use crate::publisher::PublisherView;
use crate::publisher_laws;
use crate::ring;
use crate::ring_laws;
use crate::wal::config::FsyncPolicy;
use crate::wal::history_laws;
use crate::wal::record;
use crate::wal::wal;
use crate::wal::wal::WalView;
use crate::wal::wal_laws;
use crate::wal::wal_laws::Written;
use vstd::prelude::*;

verus! {

/// The log goes on at the cursor that the ring publishes next.
pub open spec fn in_step(t: Topic) -> bool {
    t.log.cfg.enabled && t.log.pending() == t.ring.tail
}

/// No append of which the record is kept ends in a failed sync.
pub open spec fn syncs(w: WalView, io: LogIo) -> bool {
    w.cfg.fsync_policy == FsyncPolicy::Each ==> io.synced is Ok
}

/// A message that is refused because the ring is full touches neither log nor ring.
pub proof fn law_full_ring_spares_the_log(
    t: Topic,
    ts_unix_nanos: u64,
    data: Seq<u8>,
    io: LoggedIo,
)
    requires
        logged_publisher::publishing(t, ts_unix_nanos, data, io).1 == Err::<Seq<u64>, Error>(
            Error::Full,
        ),
    ensures
        logged_publisher::publishing(t, ts_unix_nanos, data, io).0.log == t.log,
        logged_publisher::publishing(t, ts_unix_nanos, data, io).0.ring == t.ring,
        t.publisher.backpressure == BackpressurePolicy::Error,
        logged_publisher::is_full(t),
{
}

/// A publish that fails, for whatever reason, leaves the ring as it is.
pub proof fn law_failed_publish_spares_the_ring(
    t: Topic,
    ts_unix_nanos: u64,
    data: Seq<u8>,
    io: LoggedIo,
)
    requires
        logged_publisher::publishing(t, ts_unix_nanos, data, io).1 is Err,
    ensures
        logged_publisher::publishing(t, ts_unix_nanos, data, io).0.ring == t.ring,
{
}

/// What an append at the pending cursor makes of the next cursor.
proof fn lemma_logging_pending(w: WalView, rec: record::RecordView, io: LogIo)
    requires
        w.cfg.enabled,
        rec.cursor == w.pending(),
        rec.cursor < u64::MAX,
        syncs(w, io),
    ensures
        logged_publisher::logging(w, rec, io).0.cfg == w.cfg,
        logged_publisher::logging(w, rec, io).0.pending() == rec.cursor + (
        if logged_publisher::logging(w, rec, io).1 is Ok {
            1int
        } else {
            0
        }),
{
    let a = wal::appended(w, rec, io.append);
    let p = wal::prepared(w, rec.cursor, rec.payload.len(), io.append).0;
    if a.1 is Ok {
        assert(p.active->Some_0.log.push(rec).len() == p.active->Some_0.log.len() + 1);
    }
}

/// Log and ring stay in step: whatever comes of a publish, the log goes on at the cursor
/// that the ring publishes next. The one exception is a sync that fails after the record
/// was appended.
pub proof fn law_log_and_ring_stay_in_step(
    t: Topic,
    ts_unix_nanos: u64,
    data: Seq<u8>,
    io: LoggedIo,
)
    requires
        in_step(t),
        t.ring.tail < u64::MAX,
        syncs(t.log, io.log),
    ensures
        in_step(logged_publisher::publishing(t, ts_unix_nanos, data, io).0),
{
    lemma_logging_pending(
        t.log,
        logged_publisher::as_record(t, ts_unix_nanos, data),
        io.log,
    );
}

/// Log and ring stay in step through a batch, wherever it ends.
pub proof fn law_batch_stays_in_step(
    t: Topic,
    items: Seq<Seq<u8>>,
    i: int,
    log: Seq<(u64, LogIo)>,
)
    requires
        in_step(t),
        0 <= i <= items.len(),
        log.len() == items.len(),
        t.ring.tail + (items.len() - i) <= u64::MAX,
        forall|j: int| i <= j < log.len() ==> syncs(t.log, (#[trigger] log[j]).1),
    ensures
        in_step(logged_publisher::batch(t, items, i, log).0),
    decreases items.len() - i,
{
    if i < items.len() {
        let rec = logged_publisher::as_record(t, log[i].0, items[i]);
        assert(syncs(t.log, log[i].1));
        lemma_logging_pending(t.log, rec, log[i].1);
        match logged_publisher::logging(t.log, rec, log[i].1) {
            (w, Ok(_)) => {
                law_batch_stays_in_step(
                    Topic {
                        publisher: crate::publisher::counted(t.publisher),
                        ring: ring::published(t.ring, items[i]),
                        log: w,
                    },
                    items,
                    i + 1,
                    log,
                );
            },
            _ => {},
        }
    }
}

/// The records of the log agree with the messages that were published from position `base`
/// on: a record has the payload of the message with its cursor.
pub open spec fn agree(ss: Seq<Written>, base: u64, msgs: Seq<Seq<u8>>) -> bool {
    let records = wal_laws::all_records(ss);
    forall|i: int|
        0 <= i < records.len() && base <= (#[trigger] records[i]).cursor ==> {
            &&& records[i].cursor < base + msgs.len()
            &&& records[i].payload == msgs[records[i].cursor - base]
        }
}

/// What is published is logged: after a publish the ring carries one message more, the log
/// ends in its record, and log and ring agree on all messages that both hold. The law gives
/// the segments of the log after the publish; `created` is when one that is started was
/// created.
pub proof fn law_published_is_logged(
    t: Topic,
    ss: Seq<Written>,
    base: u64,
    msgs: Seq<Seq<u8>>,
    ts_unix_nanos: u64,
    data: Seq<u8>,
    io: LoggedIo,
    created: u64,
) -> (after: Seq<Written>)
    requires
        in_step(t),
        t.ring.tail < u64::MAX,
        history_laws::holds(t.log, ss),
        ring_laws::carries(t.ring, t.publisher.slot_size, base, msgs),
        agree(ss, base, msgs),
        logged_publisher::publishing(t, ts_unix_nanos, data, io).1 is Ok,
    ensures
        ({
            let p = logged_publisher::publishing(t, ts_unix_nanos, data, io).0;
            &&& history_laws::holds(p.log, after)
            &&& ring_laws::carries(p.ring, t.publisher.slot_size, base, msgs.push(data))
            &&& agree(after, base, msgs.push(data))
            &&& wal_laws::all_records(after).len() > 0
            &&& wal_laws::all_records(after).last() == logged_publisher::as_record(
                t,
                ts_unix_nanos,
                data,
            )
        }),
{
    let rec = logged_publisher::as_record(t, ts_unix_nanos, data);
    let w = wal::appended(t.log, rec, io.log.append).0;
    ring_laws::law_publish_adds_message(t.ring, t.publisher.slot_size, base, msgs, data);
    let more = history_laws::law_append_extends_the_log(t.log, ss, rec, io.log.append, created);
    let n = history_laws::law_retention_keeps_the_newest(w, more, data.len(), io.log.synced);
    let after = more.skip(n as int);
    let all = wal_laws::all_records(more);
    let kept = wal_laws::all_records(after);
    assert(w.active is Some);
    assert(n < more.len());
    history_laws::lemma_skip_segments(more, n as int);
    let gone = more[n as int].first - more[0].first;
    assert(kept == all.skip(gone));
    assert(after.last() == more.last());
    assert(more.last().records.last() == rec);
    assert(more.last().records.len() > 0);
    assert(kept.last() == all.last());
    assert(all.last() == rec);
    let next = msgs.push(data);
    assert forall|i: int| 0 <= i < kept.len() && base <= (#[trigger] kept[i]).cursor implies {
        &&& kept[i].cursor < base + next.len()
        &&& kept[i].payload == next[kept[i].cursor - base]
    } by {
        assert(kept[i] == all[gone + i]);
        let before = wal_laws::all_records(ss);
        if gone + i < before.len() {
            assert(all[gone + i] == before[gone + i]);
        } else {
            assert(kept[i] == rec);
        }
    }
    after
}

// ── What each operation gives ────────────────────────────────────────────────

/// A publish goes through its steps in this order, and the first that fails decides: the
/// message fits into a slot, clients are accepted, the ring has room or the policy overwrites,
/// the log takes the record at the cursor that the ring publishes next, and the append is
/// ended. Then the message is in the ring, and everyone is woken.
pub proof fn law_publish_goes_step_by_step(
    t: Topic,
    ts_unix_nanos: u64,
    data: Seq<u8>,
    io: LoggedIo,
)
    ensures
        ({
            let p = logged_publisher::publishing(t, ts_unix_nanos, data, io);
            let rec = record::RecordView { cursor: t.ring.tail, ts_unix_nanos, payload: data };
            let took = wal::appended(t.log, rec, io.log.append);
            let ended = wal::finished(took.0, data.len(), io.log.synced);
            let full = ring::full_at(t.ring.tail, t.ring.cursors, t.ring.slots.len() as u32);
            let v = t.publisher;
            let taken_in = PublisherView { clients: v.clients + io.accepted@, ..v };
            if data.len() > v.slot_size {
                p == (
                    t,
                    Err::<Seq<u64>, Error>(
                        Error::TooLarge { size: data.len() as usize, max: v.slot_size as usize },
                    ),
                )
            } else if io.accept_error is Some {
                p == (
                    Topic { publisher: taken_in, ..t },
                    Err::<Seq<u64>, Error>(Error::Io(io.accept_error->Some_0)),
                )
            } else if full && v.backpressure == BackpressurePolicy::Error {
                p == (
                    Topic {
                        publisher: PublisherView {
                            full_rejected: publisher_laws::one_more(v.full_rejected),
                            ..taken_in
                        },
                        ..t
                    },
                    Err::<Seq<u64>, Error>(Error::Full),
                )
            } else if took.1 is Err {
                p == (
                    Topic { publisher: taken_in, log: took.0, ..t },
                    Err::<Seq<u64>, Error>(Error::Wal(took.1->Err_0)),
                )
            } else if ended.1 is Err {
                p == (
                    Topic { publisher: taken_in, log: ended.0, ..t },
                    Err::<Seq<u64>, Error>(Error::Wal(ended.1->Err_0)),
                )
            } else {
                p == (
                    Topic {
                        publisher: publisher::woken(
                            PublisherView {
                                published: publisher_laws::one_more(v.published),
                                ..taken_in
                            },
                            0,
                            io.dead@,
                        ),
                        ring: ring::published(t.ring, data),
                        log: ended.0,
                    },
                    Ok::<Seq<u64>, Error>(ended.1->Ok_0),
                )
            }
        }),
{
}

/// A batch goes message by message: it ends where all are in, where a message does not fit into
/// a slot, where the ring is full and the policy refuses, or where the log fails. A message
/// that went in is counted, stands in the ring and in the log, and the batch goes on behind it.
pub proof fn law_batch_goes_message_by_message(
    t: Topic,
    items: Seq<Seq<u8>>,
    i: int,
    log: Seq<(u64, LogIo)>,
)
    requires
        0 <= i <= items.len(),
    ensures
        ({
            let b = logged_publisher::batch(t, items, i, log);
            let v = t.publisher;
            let rec = record::RecordView {
                cursor: t.ring.tail,
                ts_unix_nanos: log[i].0,
                payload: items[i],
            };
            let took = wal::appended(t.log, rec, log[i].1.append);
            let ended = wal::finished(took.0, items[i].len(), log[i].1.synced);
            let full = ring::full_at(t.ring.tail, t.ring.cursors, t.ring.slots.len() as u32);
            if i == items.len() {
                b == (t, Seq::<u64>::empty(), Ok::<nat, Error>(i as nat))
            } else if items[i].len() > v.slot_size {
                b == (
                    t,
                    Seq::<u64>::empty(),
                    Err::<nat, Error>(
                        Error::TooLarge {
                            size: items[i].len() as usize,
                            max: v.slot_size as usize,
                        },
                    ),
                )
            } else if full && v.backpressure == BackpressurePolicy::Error {
                b == (t, Seq::<u64>::empty(), Ok::<nat, Error>(i as nat))
            } else if took.1 is Err {
                b == (
                    Topic { log: took.0, ..t },
                    Seq::<u64>::empty(),
                    Err::<nat, Error>(Error::Wal(took.1->Err_0)),
                )
            } else if ended.1 is Err {
                b == (
                    Topic { log: ended.0, ..t },
                    Seq::<u64>::empty(),
                    Err::<nat, Error>(Error::Wal(ended.1->Err_0)),
                )
            } else {
                let next = Topic {
                    publisher: PublisherView {
                        published: publisher_laws::one_more(v.published),
                        ..v
                    },
                    ring: ring::published(t.ring, items[i]),
                    log: ended.0,
                };
                let rest = logged_publisher::batch(next, items, i + 1, log);
                b == (rest.0, ended.1->Ok_0 + rest.1, rest.2)
            }
        }),
{
    reveal_with_fuel(logged_publisher::batch, 2);
}

/// A batch accepts clients first and wakes them once at its end, if anything was published.
/// Where accepting fails nothing is published.
pub proof fn law_batch_wakes_once(t: Topic, items: Seq<Seq<u8>>, io: LoggedBatchIo)
    ensures
        ({
            let p = logged_publisher::publishing_many(t, items, io);
            let a = Topic {
                publisher: PublisherView {
                    clients: t.publisher.clients + io.accepted@,
                    ..t.publisher
                },
                ..t
            };
            let b = logged_publisher::batch(a, items, 0, io.log@);
            &&& io.accept_error is Some ==> p == (
                a,
                Seq::<u64>::empty(),
                Err::<nat, Error>(Error::Io(io.accept_error->Some_0)),
            )
            &&& io.accept_error is None && b.0.ring.tail == t.ring.tail ==> p == b
            &&& io.accept_error is None && b.0.ring.tail != t.ring.tail ==> p == (
                Topic { publisher: publisher::woken(b.0.publisher, 0, io.dead@), ..b.0 },
                b.1,
                b.2,
            )
        }),
{
}

} // verus!
