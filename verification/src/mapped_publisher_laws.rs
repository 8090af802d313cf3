//! What users of a topic with a log over memory-mapped segments can rely on.

use crate::config::BackpressurePolicy;
use crate::error::Error;
use crate::mapped_publisher;
use crate::mapped_publisher::{LogIo, LoggedBatchIo, LoggedIo, Put, Stores, Topic};
use crate::publisher;
use crate::publisher::PublisherView;
use crate::publisher_laws;
use crate::ring;
use crate::ring_laws;
use crate::wal::config::FsyncPolicy;
use crate::wal::history_laws as file_history_laws;
use crate::wal::record;
use crate::wal::v2::history_laws;
use crate::wal::v2::mmap_segment_writer;
use crate::wal::v2::run_laws;
use crate::wal::v2::wal;
use crate::wal::v2::wal::WalView;
use crate::wal::v2::wal_laws;
use crate::wal::v2::wal_laws::Mapped;
use vstd::prelude::*;

verus! {

/// The log goes on at the cursor that the ring publishes next.
pub open spec fn in_step(t: Topic) -> bool {
    t.log.cfg.enabled && t.log.pending == t.ring.tail
}

/// No append of which the record is kept ends in a failed flush.
pub open spec fn syncs(w: WalView, io: LogIo) -> bool {
    w.cfg.fsync_policy == FsyncPolicy::Each ==> io.flushed is Ok
}

/// A message that is refused because the ring is full touches neither log nor ring.
pub proof fn law_full_ring_spares_the_log(
    t: Topic,
    ts_unix_nanos: u64,
    data: Seq<u8>,
    io: LoggedIo,
)
    requires
        mapped_publisher::publishing(t, ts_unix_nanos, data, io).2 == Err::<Seq<u64>, Error>(
            Error::Full,
        ),
    ensures
        mapped_publisher::publishing(t, ts_unix_nanos, data, io).0.log == t.log,
        mapped_publisher::publishing(t, ts_unix_nanos, data, io).0.ring == t.ring,
        t.publisher.backpressure == BackpressurePolicy::Error,
        mapped_publisher::is_full(t),
{
}

/// A publish that fails, for whatever reason, leaves the ring as it is.
pub proof fn law_failed_publish_spares_the_ring(
    t: Topic,
    ts_unix_nanos: u64,
    data: Seq<u8>,
    io: LoggedIo,
)
    requires
        mapped_publisher::publishing(t, ts_unix_nanos, data, io).2 is Err,
    ensures
        mapped_publisher::publishing(t, ts_unix_nanos, data, io).0.ring == t.ring,
{
}

/// What an append at the pending cursor makes of the next cursor.
proof fn lemma_logging_pending(w: WalView, rec: record::RecordView, io: LogIo)
    requires
        w.cfg.enabled,
        rec.cursor == w.pending,
        rec.cursor < u64::MAX,
        syncs(w, io),
    ensures
        mapped_publisher::logging(w, rec, io).0.cfg == w.cfg,
        mapped_publisher::logging(w, rec, io).0.pending == rec.cursor + (
        if mapped_publisher::logging(w, rec, io).2 is Ok {
            1int
        } else {
            0
        }),
{
    wal_laws::lemma_finished_keeps(
        wal::appended(w, rec, io.append).0,
        rec.payload.len(),
        io.flushed,
    );
}

/// Log and ring stay in step: whatever comes of a publish, the log goes on at the cursor
/// that the ring publishes next. The one exception is a flush that fails after the record
/// was appended.
pub proof fn law_log_and_ring_stay_in_step(
    t: Topic,
    ts_unix_nanos: u64,
    data: Seq<u8>,
    io: LoggedIo,
)
    requires
        in_step(t),
        t.ring.tail < u64::MAX,
        syncs(t.log, io.log),
    ensures
        in_step(mapped_publisher::publishing(t, ts_unix_nanos, data, io).0),
{
    lemma_logging_pending(
        t.log,
        mapped_publisher::as_record(t, ts_unix_nanos, data),
        io.log,
    );
}

/// Log and ring stay in step through a batch, wherever it ends.
pub proof fn law_batch_stays_in_step(
    t: Topic,
    items: Seq<Seq<u8>>,
    i: int,
    log: Seq<(u64, LogIo)>,
)
    requires
        in_step(t),
        0 <= i <= items.len(),
        log.len() == items.len(),
        t.ring.tail + (items.len() - i) <= u64::MAX,
        forall|j: int| i <= j < log.len() ==> syncs(t.log, (#[trigger] log[j]).1),
    ensures
        in_step(mapped_publisher::batch(t, items, i, log).0),
    decreases items.len() - i,
{
    if i < items.len() {
        let rec = mapped_publisher::as_record(t, log[i].0, items[i]);
        assert(syncs(t.log, log[i].1));
        lemma_logging_pending(t.log, rec, log[i].1);
        match mapped_publisher::logging(t.log, rec, log[i].1) {
            (w, _, Ok(_)) => {
                law_batch_stays_in_step(
                    Topic {
                        publisher: crate::publisher::counted(t.publisher),
                        ring: ring::published(t.ring, items[i]),
                        log: w,
                    },
                    items,
                    i + 1,
                    log,
                );
            },
            _ => {},
        }
    }
}

/// The records of the log agree with the messages that were published from position `base`
/// on: a record has the payload of the message with its cursor.
pub open spec fn agree(ss: Seq<Mapped>, base: u64, msgs: Seq<Seq<u8>>) -> bool {
    let records = history_laws::all_records(ss);
    forall|i: int|
        0 <= i < records.len() && base <= (#[trigger] records[i]).cursor ==> {
            &&& records[i].cursor < base + msgs.len()
            &&& records[i].payload == msgs[records[i].cursor - base]
        }
}

/// Where the newest segment holds a record, the segments from any place on do.
proof fn lemma_newest_stays(v: WalView, ms: Seq<Mapped>, n: int)
    requires
        history_laws::holds(v, ms),
        v.active is Some,
        v.active->Some_0.log.len() > 0,
        0 <= n < ms.len(),
    ensures
        ms[n].first - ms[0].first < history_laws::all_records(ms).len(),
{
    let ws = wal_laws::as_written(ms);
    let log = ms.last().log;
    let last = ms.len() - 1;
    file_history_laws::lemma_skip_segments(ws, n);
    assert forall|i: int| 0 <= i < log.drop_last().len() implies (
    #[trigger] log.drop_last()[i]) is Record by {
        assert(log.drop_last()[i] == log[i]);
    }
    history_laws::lemma_readable_push(log.drop_last(), log.last());
    assert(log.drop_last().push(log.last()) =~= log);
    assert(log[log.len() - 1] is Record);
    assert(ws.last() == ws[last]);
    assert(v.segments[n].0 == ws[n].first && v.segments[last].0 == ws[last].first);
    if n < last {
        assert(v.segments[n].0 < v.segments[last].0);
    }
}

/// What logging one record leaves of the segments: those from one on, and with them all
/// records but the `gone` oldest ones, the new one last.
proof fn lemma_logged(w: WalView, ms: Seq<Mapped>, rec: record::RecordView, io: LogIo) -> (r: (
    Seq<Mapped>,
    int,
))
    requires
        w.cfg.enabled,
        rec.cursor == w.pending,
        rec.cursor < u64::MAX,
        history_laws::holds(w, ms),
        mapped_publisher::logging(w, rec, io).2 is Ok,
    ensures
        ({
            let before = history_laws::all_records(ms);
            let kept = history_laws::all_records(r.0);
            &&& history_laws::holds(mapped_publisher::logging(w, rec, io).0, r.0)
            &&& 0 <= r.1
            &&& r.1 + kept.len() <= before.len() + 1
            &&& kept.len() > 0
            &&& kept.last() == rec
            &&& forall|i: int|
                0 <= i < kept.len() ==> #[trigger] kept[i] == before.push(rec)[r.1 + i]
        }),
{
    let x = wal::appended(w, rec, io.append).0;
    let more = history_laws::law_append_extends_the_log(w, ms, rec, io.append);
    let n = history_laws::law_retention_keeps_the_newest(x, more, rec.payload.len(), io.flushed);
    run_laws::lemma_appended(w, rec, io.append);
    run_laws::lemma_skip_mapped(more, n as int);
    lemma_newest_stays(x, more, n as int);
    (more.skip(n as int), more[n as int].first - more[0].first)
}

/// Records that agreed with the messages agree with one message more, when it was logged and
/// the oldest records are gone.
proof fn lemma_still_agree(
    before: Seq<record::RecordView>,
    kept: Seq<record::RecordView>,
    gone: int,
    rec: record::RecordView,
    base: u64,
    msgs: Seq<Seq<u8>>,
)
    requires
        0 <= gone,
        gone + kept.len() <= before.len() + 1,
        forall|i: int|
            0 <= i < kept.len() ==> #[trigger] kept[i] == before.push(rec)[gone + i],
        forall|i: int|
            0 <= i < before.len() && base <= (#[trigger] before[i]).cursor ==> before[i].cursor
                < base + msgs.len() && before[i].payload == msgs[before[i].cursor - base],
        rec.cursor == base + msgs.len(),
    ensures
        forall|i: int|
            0 <= i < kept.len() && base <= (#[trigger] kept[i]).cursor ==> kept[i].cursor < base
                + msgs.push(rec.payload).len() && kept[i].payload == msgs.push(
                rec.payload,
            )[kept[i].cursor - base],
{
    assert forall|i: int| 0 <= i < kept.len() && base <= (#[trigger] kept[i]).cursor implies {
        &&& kept[i].cursor < base + msgs.push(rec.payload).len()
        &&& kept[i].payload == msgs.push(rec.payload)[kept[i].cursor - base]
    } by {
        if gone + i < before.len() {
            assert(kept[i] == before[gone + i]);
        } else {
            assert(kept[i] == rec);
        }
    }
}

/// What is published is logged: after a publish the ring carries one message more, the log
/// ends in its record, log and ring agree on all messages that both hold, and the stores put
/// that record into the log. The law gives the segments of the log after the publish.
pub proof fn law_published_is_logged(
    t: Topic,
    ms: Seq<Mapped>,
    base: u64,
    msgs: Seq<Seq<u8>>,
    ts_unix_nanos: u64,
    data: Seq<u8>,
    io: LoggedIo,
) -> (after: Seq<Mapped>)
    requires
        in_step(t),
        t.ring.tail < u64::MAX,
        history_laws::holds(t.log, ms),
        ring_laws::carries(t.ring, t.publisher.slot_size, base, msgs),
        agree(ms, base, msgs),
        mapped_publisher::publishing(t, ts_unix_nanos, data, io).2 is Ok,
    ensures
        ({
            let p = mapped_publisher::publishing(t, ts_unix_nanos, data, io);
            let rec = mapped_publisher::as_record(t, ts_unix_nanos, data);
            &&& history_laws::holds(p.0.log, after)
            &&& ring_laws::carries(p.0.ring, t.publisher.slot_size, base, msgs.push(data))
            &&& agree(after, base, msgs.push(data))
            &&& history_laws::all_records(after).len() > 0
            &&& history_laws::all_records(after).last() == rec
            &&& p.1 matches Some(put)
            &&& put.rec == rec
        }),
{
    let rec = mapped_publisher::as_record(t, ts_unix_nanos, data);
    ring_laws::law_publish_adds_message(t.ring, t.publisher.slot_size, base, msgs, data);
    let (after, gone) = lemma_logged(t.log, ms, rec, io.log);
    lemma_still_agree(
        history_laws::all_records(ms),
        history_laws::all_records(after),
        gone,
        rec,
        base,
        msgs,
    );
    after
}

// ── What each operation gives ────────────────────────────────────────────────

/// A publish goes through its steps in this order, and the first that fails decides: the
/// message fits into a slot, clients are accepted, the ring has room or the policy overwrites,
/// the log takes the record at the cursor that the ring publishes next, and the append is
/// ended. Then the message is in the ring, and everyone is woken.
pub proof fn law_publish_goes_step_by_step(
    t: Topic,
    ts_unix_nanos: u64,
    data: Seq<u8>,
    io: LoggedIo,
)
    ensures
        ({
            let p = mapped_publisher::publishing(t, ts_unix_nanos, data, io);
            let rec = record::RecordView { cursor: t.ring.tail, ts_unix_nanos, payload: data };
            let took = wal::appended(t.log, rec, io.log.append);
            let ended = wal::finished(took.0, data.len(), io.log.flushed);
            let full = ring::full_at(t.ring.tail, t.ring.cursors, t.ring.slots.len() as u32);
            let v = t.publisher;
            let taken_in = PublisherView { clients: v.clients + io.accepted@, ..v };
            let put = if t.log.cfg.enabled {
                Some(Put { rec, log: took.0 })
            } else {
                None
            };
            if data.len() > v.slot_size {
                p == (
                    t,
                    None::<Put>,
                    Err::<Seq<u64>, Error>(
                        Error::TooLarge { size: data.len() as usize, max: v.slot_size as usize },
                    ),
                )
            } else if io.accept_error is Some {
                p == (
                    Topic { publisher: taken_in, ..t },
                    None::<Put>,
                    Err::<Seq<u64>, Error>(Error::Io(io.accept_error->Some_0)),
                )
            } else if full && v.backpressure == BackpressurePolicy::Error {
                p == (
                    Topic {
                        publisher: PublisherView {
                            full_rejected: publisher_laws::one_more(v.full_rejected),
                            ..taken_in
                        },
                        ..t
                    },
                    None::<Put>,
                    Err::<Seq<u64>, Error>(Error::Full),
                )
            } else if took.1 is Err {
                p == (
                    Topic { publisher: taken_in, log: took.0, ..t },
                    None::<Put>,
                    Err::<Seq<u64>, Error>(Error::MappedWal(took.1->Err_0)),
                )
            } else if ended.1 is Err {
                p == (
                    Topic { publisher: taken_in, log: ended.0, ..t },
                    put,
                    Err::<Seq<u64>, Error>(Error::MappedWal(ended.1->Err_0)),
                )
            } else {
                p == (
                    Topic {
                        publisher: publisher::woken(
                            PublisherView {
                                published: publisher_laws::one_more(v.published),
                                ..taken_in
                            },
                            0,
                            io.dead@,
                        ),
                        ring: ring::published(t.ring, data),
                        log: ended.0,
                    },
                    put,
                    Ok::<Seq<u64>, Error>(ended.1->Ok_0),
                )
            }
        }),
{
}

/// A batch goes message by message: it ends where all are in, where a message does not fit into
/// a slot, where the ring is full and the policy refuses, or where the log fails. A message
/// that went in is counted, stands in the ring and in the log, and the batch goes on behind it.
pub proof fn law_batch_goes_message_by_message(
    t: Topic,
    items: Seq<Seq<u8>>,
    i: int,
    log: Seq<(u64, LogIo)>,
)
    requires
        0 <= i <= items.len(),
    ensures
        ({
            let b = mapped_publisher::batch(t, items, i, log);
            let v = t.publisher;
            let rec = record::RecordView {
                cursor: t.ring.tail,
                ts_unix_nanos: log[i].0,
                payload: items[i],
            };
            let took = wal::appended(t.log, rec, log[i].1.append);
            let ended = wal::finished(took.0, items[i].len(), log[i].1.flushed);
            let full = ring::full_at(t.ring.tail, t.ring.cursors, t.ring.slots.len() as u32);
            let put: Seq<Put> = if t.log.cfg.enabled {
                seq![Put { rec, log: took.0 }]
            } else {
                Seq::empty()
            };
            if i == items.len() {
                b == (t, Seq::<Put>::empty(), Seq::<u64>::empty(), Ok::<nat, Error>(i as nat))
            } else if items[i].len() > v.slot_size {
                b == (
                    t,
                    Seq::<Put>::empty(),
                    Seq::<u64>::empty(),
                    Err::<nat, Error>(
                        Error::TooLarge {
                            size: items[i].len() as usize,
                            max: v.slot_size as usize,
                        },
                    ),
                )
            } else if full && v.backpressure == BackpressurePolicy::Error {
                b == (t, Seq::<Put>::empty(), Seq::<u64>::empty(), Ok::<nat, Error>(i as nat))
            } else if took.1 is Err {
                b == (
                    Topic { log: took.0, ..t },
                    Seq::<Put>::empty(),
                    Seq::<u64>::empty(),
                    Err::<nat, Error>(Error::MappedWal(took.1->Err_0)),
                )
            } else if ended.1 is Err {
                b == (
                    Topic { log: ended.0, ..t },
                    put,
                    Seq::<u64>::empty(),
                    Err::<nat, Error>(Error::MappedWal(ended.1->Err_0)),
                )
            } else {
                let next = Topic {
                    publisher: PublisherView {
                        published: publisher_laws::one_more(v.published),
                        ..v
                    },
                    ring: ring::published(t.ring, items[i]),
                    log: ended.0,
                };
                let rest = mapped_publisher::batch(next, items, i + 1, log);
                b == (rest.0, put + rest.1, ended.1->Ok_0 + rest.2, rest.3)
            }
        }),
{
    reveal_with_fuel(mapped_publisher::batch, 2);
    let rec = record::RecordView {
        cursor: t.ring.tail,
        ts_unix_nanos: log[i].0,
        payload: items[i],
    };
    let took = wal::appended(t.log, rec, log[i].1.append);
    let one = seq![Put { rec, log: took.0 }];
    assert(one + Seq::<Put>::empty() =~= one);
    assert forall|rest: Seq<Put>| #[trigger] (Seq::<Put>::empty() + rest) == rest by {
        assert(Seq::<Put>::empty() + rest =~= rest);
    }
}

/// A batch accepts clients first and wakes them once at its end, if anything was published.
/// Where accepting fails nothing is published.
pub proof fn law_batch_wakes_once(t: Topic, items: Seq<Seq<u8>>, io: LoggedBatchIo)
    ensures
        ({
            let p = mapped_publisher::publishing_many(t, items, io);
            let a = Topic {
                publisher: PublisherView {
                    clients: t.publisher.clients + io.accepted@,
                    ..t.publisher
                },
                ..t
            };
            let b = mapped_publisher::batch(a, items, 0, io.log@);
            &&& io.accept_error is Some ==> p == (
                a,
                Seq::<Put>::empty(),
                Seq::<u64>::empty(),
                Err::<nat, Error>(Error::Io(io.accept_error->Some_0)),
            )
            &&& io.accept_error is None && b.0.ring.tail == t.ring.tail ==> p == b
            &&& io.accept_error is None && b.0.ring.tail != t.ring.tail ==> p == (
                Topic { publisher: publisher::woken(b.0.publisher, 0, io.dead@), ..b.0 },
                b.1,
                b.2,
                b.3,
            )
        }),
{
}

/// What is stored for a message goes into the segment that took it: the length with the
/// writing bit first, then what stands behind it, and the clean length last, right behind what
/// was written before.
pub proof fn law_stores_put_the_record(s: Option<Stores>, p: Option<Put>)
    requires
        mapped_publisher::puts_if(s, p),
    ensures
        s is Some <==> p is Some,
        p is Some ==> ({
            let w = s->Some_0.write;
            let log = p->Some_0.log;
            let rec = p->Some_0.rec;
            let len = mmap_segment_writer::padded_len(rec);
            &&& log.active is Some
            &&& s->Some_0.segment == log.active->Some_0.first
            &&& w.at + len == log.active_bytes
            &&& w.tail == log.active_bytes
            &&& w.commit == len
            &&& w.claim == len + 0x8000_0000
            &&& w.body@ == mmap_segment_writer::record_tail(rec)
        }),
{
}

/// The stores of a batch are those of its messages, one for each and in order.
pub proof fn law_batch_stores_every_message(stores: Seq<Stores>, put: Seq<Put>, i: int)
    requires
        mapped_publisher::puts_all(stores, put),
        0 <= i < put.len(),
    ensures
        stores.len() == put.len(),
        mapped_publisher::puts_if(Some(stores[i]), Some(put[i])),
{
}

} // verus!
