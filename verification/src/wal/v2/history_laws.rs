//! What a log over memory-mapped segments holds over time.
//!
//! [`holds`] says which segments with which entries a log consists of, and the laws say how
//! the operations of the log change them: an append adds one record at the end, a rotation
//! closes a segment, retention drops segments from the front, and a replay or a restart
//! finds what is left.

use crate::error::IoKind;
use crate::wal::config::{FsyncPolicy, WalConfig};
use crate::wal::history_laws;
use crate::wal::history_laws::end_of;
use crate::wal::index;
use crate::wal::record;
use crate::wal::record::SEGMENT_HEADER_LEN;
use crate::wal::segment_writer;
use crate::wal::v2::active::ActiveCoord;
use crate::wal::v2::mmap_segment_reader;
use crate::wal::v2::mmap_segment_writer;
use crate::wal::v2::mmap_segment_writer::Entry;
use crate::wal::v2::rotation::RotateIo;
use crate::wal::v2::wal;
use crate::wal::v2::wal::{AppendIo, AppendPlan, WalError, WalRecovery, WalReplayer, WalView};
use crate::wal::v2::wal_laws;
use crate::wal::v2::wal_laws::Mapped;
use crate::wal::wal as file_wal;
use crate::wal::wal_laws as file_wal_laws;
use vstd::prelude::*;

verus! {

/// The segment has not been closed: all its entries are records.
pub open spec fn unclosed(log: Seq<Entry>) -> bool {
    forall|i: int| 0 <= i < log.len() ==> (#[trigger] log[i]) is Record
}

/// The log consists of these segments: it goes on behind the newest one, and that is the
/// active one, if there is an active one.
pub open spec fn holds(v: WalView, ms: Seq<Mapped>) -> bool {
    &&& history_laws::lists(v.segments, wal_laws::as_written(ms))
    &&& forall|i: int| 0 <= i < ms.len() ==> wal_laws::mapped_well(#[trigger] ms[i])
    &&& ms.len() > 0 ==> v.pending == end_of(wal_laws::as_written(ms).last())
    &&& v.active matches Some(a) ==> {
        &&& ms.len() > 0
        &&& ms.last().size == v.cfg.segment_size_max
        &&& ms.last().first == a.first
        &&& ms.last().log == a.log
        &&& v.active_bytes == a.end()
        &&& unclosed(a.log)
        &&& mmap_segment_writer::size_verdict(v.cfg.segment_size_max) is Ok
    }
    &&& v.vacant matches Some(first) ==> v.active is Some || ms.len() == 0 || {
        &&& ms.last().first == first
        &&& mmap_segment_reader::readable(ms.last().log).len() == 0
    }
}

/// All records of the segments.
pub open spec fn all_records(ms: Seq<Mapped>) -> Seq<record::RecordView> {
    file_wal_laws::all_records(wal_laws::as_written(ms))
}

/// The segments with a fresh one of `size` bytes at `cursor`. An empty segment of that name
/// is replaced.
pub open spec fn started(ms: Seq<Mapped>, cursor: u64, size: int) -> Seq<Mapped> {
    let fresh = Mapped { size, first: cursor, log: Seq::empty() };
    if ms.len() > 0 && ms.last().first == cursor {
        ms.update(ms.len() - 1, fresh)
    } else {
        ms.push(fresh)
    }
}

/// The segments with one more record in the newest one.
pub open spec fn extended(ms: Seq<Mapped>, rec: record::RecordView) -> Seq<Mapped> {
    let m = ms.last();
    ms.update(ms.len() - 1, Mapped { log: m.log.push(Entry::Record(rec)), ..m })
}

/// The segments with the newest one closed: a marker stands behind its records, if there is
/// room for one.
pub open spec fn closed(ms: Seq<Mapped>) -> Seq<Mapped> {
    let m = ms.last();
    if SEGMENT_HEADER_LEN + mmap_segment_writer::entries_bytes(m.log).len() + 4 > m.size {
        ms
    } else {
        ms.update(ms.len() - 1, Mapped { log: m.log.push(Entry::Skip), ..m })
    }
}

/// The segments after an append of `rec` that succeeds: a fresh segment where there is no
/// active one and where the record does not fit into the active one, which is then closed,
/// and the record in the newest.
pub open spec fn with_record(v: WalView, ms: Seq<Mapped>, rec: record::RecordView) -> Seq<Mapped> {
    let size = v.cfg.segment_size_max;
    let (used, ready) = if v.active is None {
        (SEGMENT_HEADER_LEN as int, started(ms, rec.cursor, size as int))
    } else {
        (v.active_bytes as int, ms)
    };
    let room = if wal::fits(used, rec, size) {
        ready
    } else {
        started(closed(ready), rec.cursor, size as int)
    };
    extended(room, rec)
}

/// The first cursors of the segments: the names of their files.
pub open spec fn firsts(ms: Seq<Mapped>) -> Seq<u64> {
    ms.map_values(|m: Mapped| m.first)
}

/// What one more entry means for readers.
pub proof fn lemma_readable_push(es: Seq<Entry>, e: Entry)
    requires
        unclosed(es),
    ensures
        mmap_segment_reader::readable(es.push(e)) == (match e {
            Entry::Record(r) => mmap_segment_reader::readable(es).push(r),
            Entry::Skip => mmap_segment_reader::readable(es),
        }),
    decreases es.len(),
{
    let all = es.push(e);
    if es.len() == 0 {
        assert(mmap_segment_reader::readable(all.skip(1)) =~= Seq::empty());
        assert(all[0] == e);
    } else {
        let rest = es.skip(1);
        assert forall|i: int| 0 <= i < rest.len() implies (#[trigger] rest[i]) is Record by {
            assert(rest[i] == es[i + 1]);
        }
        lemma_readable_push(rest, e);
        assert(all.skip(1) =~= rest.push(e));
        assert(es[0] is Record);
        assert(all[0] == es[0]);
    }
    match e {
        Entry::Record(r) => {
            assert(mmap_segment_reader::readable(all) =~= mmap_segment_reader::readable(es).push(r));
        },
        Entry::Skip => {
            assert(mmap_segment_reader::readable(all) =~= mmap_segment_reader::readable(es));
        },
    }
}

/// Starting a segment keeps the records.
proof fn lemma_started(segments: Seq<(u64, u64)>, ms: Seq<Mapped>, cursor: u64, size: usize)
    requires
        history_laws::lists(segments, wal_laws::as_written(ms)),
        forall|i: int| 0 <= i < ms.len() ==> wal_laws::mapped_well(#[trigger] ms[i]),
        ms.len() > 0 ==> end_of(wal_laws::as_written(ms).last()) == cursor,
        SEGMENT_HEADER_LEN <= size,
    ensures
        history_laws::lists(
            index::with_entry(segments, cursor, 0),
            wal_laws::as_written(started(ms, cursor, size as int)),
        ),
        forall|i: int|
            0 <= i < started(ms, cursor, size as int).len() ==> wal_laws::mapped_well(
                #[trigger] started(ms, cursor, size as int)[i],
            ),
        all_records(started(ms, cursor, size as int)) == all_records(ms),
{
    let t = started(ms, cursor, size as int);
    let ws = wal_laws::as_written(ms);
    history_laws::lemma_started(segments, ws, cursor, 0, 0);
    assert(mmap_segment_reader::readable(Seq::empty()) =~= Seq::empty());
    assert(mmap_segment_writer::entries_bytes(Seq::empty()).len() == 0);
    if ms.len() > 0 {
        assert(ws.last() == ws[ms.len() - 1]);
    }
    assert(wal_laws::as_written(t) =~= history_laws::started(ws, cursor, 0));
    assert forall|i: int| 0 <= i < t.len() implies wal_laws::mapped_well(#[trigger] t[i]) by {
        if i < t.len() - 1 {
            assert(t[i] == ms[i]);
        }
    }
}

/// One more record in the newest segment is one more record at the end.
proof fn lemma_extended(segments: Seq<(u64, u64)>, ms: Seq<Mapped>, rec: record::RecordView)
    requires
        history_laws::lists(segments, wal_laws::as_written(ms)),
        forall|i: int| 0 <= i < ms.len() ==> wal_laws::mapped_well(#[trigger] ms[i]),
        ms.len() > 0,
        unclosed(ms.last().log),
        end_of(wal_laws::as_written(ms).last()) == rec.cursor,
        rec.payload.len() <= record::MAX_PAYLOAD_LEN,
        SEGMENT_HEADER_LEN + mmap_segment_writer::entries_bytes(ms.last().log).len()
            + mmap_segment_writer::padded_len(rec) <= ms.last().size,
    ensures
        history_laws::lists(segments, wal_laws::as_written(extended(ms, rec))),
        forall|i: int|
            0 <= i < extended(ms, rec).len() ==> wal_laws::mapped_well(
                #[trigger] extended(ms, rec)[i],
            ),
        unclosed(extended(ms, rec).last().log),
        all_records(extended(ms, rec)) == all_records(ms).push(rec),
{
    let t = extended(ms, rec);
    let n = ms.len() - 1;
    let m = ms[n];
    let ws = wal_laws::as_written(ms);
    assert(wal_laws::mapped_well(m));
    history_laws::lemma_extended(segments, ws, rec);
    lemma_readable_push(m.log, Entry::Record(rec));
    mmap_segment_writer::lemma_entries_push(m.log, Entry::Record(rec));
    mmap_segment_writer::lemma_padded_record_len(rec);
    assert(wal_laws::as_written(t) =~= history_laws::extended(ws, rec));
    assert forall|i: int| 0 <= i < t.len() implies wal_laws::mapped_well(#[trigger] t[i]) by {
        if i < n {
            assert(t[i] == ms[i]);
        } else {
            let log = t[n].log;
            assert forall|j: int| 0 <= j < log.len() implies ((#[trigger] log[j]) matches Entry::Record(
                r,
            ) ==> r.payload.len() <= record::MAX_PAYLOAD_LEN) by {
                if j < m.log.len() {
                    assert(log[j] == m.log[j]);
                }
            }
        }
    }
    assert forall|j: int| 0 <= j < t.last().log.len() implies (#[trigger] t.last().log[j]) is Record by {
        if j < m.log.len() {
            assert(t.last().log[j] == m.log[j]);
        }
    }
}

/// Closing a segment is nothing to readers but the end.
proof fn lemma_closed(ms: Seq<Mapped>)
    requires
        forall|i: int| 0 <= i < ms.len() ==> wal_laws::mapped_well(#[trigger] ms[i]),
        ms.len() > 0,
        unclosed(ms.last().log),
    ensures
        wal_laws::as_written(closed(ms)) == wal_laws::as_written(ms),
        forall|i: int|
            0 <= i < closed(ms).len() ==> wal_laws::mapped_well(#[trigger] closed(ms)[i]),
{
    let t = closed(ms);
    let n = ms.len() - 1;
    let m = ms[n];
    assert(wal_laws::mapped_well(m));
    lemma_readable_push(m.log, Entry::Skip);
    mmap_segment_writer::lemma_entries_push(m.log, Entry::Skip);
    crate::codec::lemma_le_bytes_len(mmap_segment_reader::SKIP_TO_END_SENTINEL as nat, 4);
    assert(wal_laws::as_written(t) =~= wal_laws::as_written(ms));
    assert forall|i: int| 0 <= i < t.len() implies wal_laws::mapped_well(#[trigger] t[i]) by {
        if i < n {
            assert(t[i] == ms[i]);
        } else {
            let log = t[n].log;
            assert forall|j: int| 0 <= j < log.len() implies ((#[trigger] log[j]) matches Entry::Record(
                r,
            ) ==> r.payload.len() <= record::MAX_PAYLOAD_LEN) by {
                if j < m.log.len() {
                    assert(log[j] == m.log[j]);
                }
            }
        }
    }
}

/// The segments after a rotation at the pending cursor, whatever came of it.
proof fn lemma_rotated(v: WalView, ms: Seq<Mapped>, io: RotateIo) -> (after: Seq<Mapped>)
    requires
        holds(v, ms),
        v.active is Some,
    ensures
        ({
            let r = wal::rotated(v, v.pending, io);
            &&& holds(r.0, after)
            &&& r.0.pending == v.pending
            &&& r.0.cfg == v.cfg
            &&& r.1 is Ok ==> {
                &&& r.0.active is Some
                &&& r.0.active_bytes == SEGMENT_HEADER_LEN
                &&& after == started(closed(ms), v.pending, v.cfg.segment_size_max as int)
            }
        }),
        all_records(after) == all_records(ms),
        after.len() > 0,
        after[0].first == ms[0].first,
{
    let t = closed(ms);
    let a = v.active->Some_0;
    let ws = wal_laws::as_written(ms);
    let n = ms.len() - 1;
    lemma_closed(ms);
    assert(ws[n].first == v.segments[n].0);
    assert(ws[0].first == ms[0].first);
    assert(wal_laws::as_written(t)[0].first == t[0].first);
    if io.created is Ok && io.published is Ok {
        history_laws::lemma_newest_entry(v.segments, a.first, a.end() as u64);
        assert(history_laws::lists(v.retired().segments, wal_laws::as_written(t)));
        lemma_started(v.retired().segments, t, v.pending, v.cfg.segment_size_max);
        let after = started(t, v.pending, v.cfg.segment_size_max as int);
        assert(wal_laws::as_written(after)[0].first == after[0].first);
        assert(wal_laws::as_written(after).last() == wal_laws::as_written(after)[after.len() - 1]);
        assert(mmap_segment_reader::readable(Seq::empty()).len() == 0);
        assert(mmap_segment_writer::entries_bytes(Seq::empty()).len() == 0);
        after
    } else {
        t
    }
}

/// The segments after a rotation that is made if the record does not fit.
proof fn lemma_rotated_if_full(v: WalView, ms: Seq<Mapped>, rec: record::RecordView, io: RotateIo) -> (
    after: Seq<Mapped>)
    requires
        holds(v, ms),
        v.active is Some,
        rec.cursor == v.pending,
    ensures
        ({
            let r = wal::rotated_if_full(v, rec, io);
            &&& holds(r.0, after)
            &&& r.0.pending == v.pending
            &&& r.0.cfg == v.cfg
            &&& r.1 is Ok ==> {
                &&& r.0.active is Some
                &&& if wal::fits(v.active_bytes as int, rec, v.cfg.segment_size_max) {
                    r.0 == v && after == ms
                } else {
                    &&& r.0.active_bytes == SEGMENT_HEADER_LEN
                    &&& after == started(closed(ms), v.pending, v.cfg.segment_size_max as int)
                }
            }
        }),
        all_records(after) == all_records(ms),
        after.len() > 0,
        after[0].first == ms[0].first,
{
    if wal::fits(v.active_bytes as int, rec, v.cfg.segment_size_max) {
        ms
    } else {
        lemma_rotated(v, ms, io)
    }
}

/// An append adds its record at the end of the log and keeps all others; one that fails, or
/// that a log which is switched off does not take, changes no record. The record carries
/// the pending cursor. The law gives the segments after the append.
pub proof fn law_append_extends_the_log(
    v: WalView,
    ms: Seq<Mapped>,
    rec: record::RecordView,
    io: AppendIo,
) -> (after: Seq<Mapped>)
    requires
        holds(v, ms),
        rec.cursor == v.pending,
        rec.cursor < u64::MAX,
    ensures
        holds(wal::appended(v, rec, io).0, after),
        all_records(after) == (if v.cfg.enabled && wal::appended(v, rec, io).1 is Ok {
            all_records(ms).push(rec)
        } else {
            all_records(ms)
        }),
        after.len() > 0 ==> after[0].first == (if ms.len() > 0 {
            ms[0].first
        } else {
            rec.cursor
        }),
        ms.len() > 0 ==> after.len() > 0,
        v.cfg.enabled && wal::appended(v, rec, io).1 is Ok ==> after == with_record(v, ms, rec),
{
    if wal::refusal(v, rec.payload.len()) is Some {
        ms
    } else if v.active is None && (io.create.created is Err || mmap_segment_writer::size_verdict(
        v.cfg.segment_size_max,
    ) is Err) {
        ms
    } else {
        let opened = if v.active is None {
            v.opened(rec.cursor).named(rec.cursor)
        } else {
            v
        };
        let ready = if v.active is None {
            lemma_started(v.segments, ms, rec.cursor, v.cfg.segment_size_max);
            let t = started(ms, rec.cursor, v.cfg.segment_size_max as int);
            assert(wal_laws::as_written(t).last() == wal_laws::as_written(t)[t.len() - 1]);
            assert(mmap_segment_reader::readable(Seq::empty()).len() == 0);
            assert(mmap_segment_writer::entries_bytes(Seq::empty()).len() == 0);
            t
        } else {
            ms
        };
        assert(holds(opened, ready));
        if v.active is None && io.create.published is Err {
            ready
        } else {
            let once = lemma_rotated_if_full(opened, ready, rec, io.rotate);
            let r = wal::rotated_if_full(opened, rec, io.rotate);
            if r.1 is Err {
                once
            } else {
                let twice = lemma_rotated_if_full(r.0, once, rec, io.retry);
                let w = wal::prepared(v, rec, io).0;
                assert(holds(w, twice));
                if wal::appended(v, rec, io).1 is Err {
                    twice
                } else {
                    lemma_extended(w.segments, twice, rec);
                    let after = extended(twice, rec);
                    assert(wal_laws::as_written(after).last() == wal_laws::as_written(
                        after,
                    )[after.len() - 1]);
                    lemma_readable_push(twice.last().log, Entry::Record(rec));
                    after
                }
            }
        }
    }
}

/// What ends an append drops whole segments from the front at most: retention. They are the
/// ones that it names for deletion, and the active one is never among them.
pub proof fn law_retention_keeps_the_newest(
    v: WalView,
    ms: Seq<Mapped>,
    len: nat,
    flushed: Result<(), IoKind>,
) -> (dropped: nat)
    requires
        holds(v, ms),
    ensures
        dropped <= ms.len(),
        holds(wal::finished(v, len, flushed).0, ms.skip(dropped as int)),
        match wal::finished(v, len, flushed).1 {
            Err(_) => dropped == 0,
            Ok(names) => names == firsts(ms.take(dropped as int)),
        },
        wal::finished(v, len, flushed).0.cfg == v.cfg,
        wal::finished(v, len, flushed).0.active == v.active,
        wal::finished(v, len, flushed).0.pending == v.pending,
        v.active is Some ==> dropped < ms.len(),
{
    assert(ms.skip(0) =~= ms);
    assert(firsts(ms.take(0)) =~= Seq::empty());
    if v.cfg.enabled && wal::finished(v, len, flushed).1 is Ok {
        let s = if v.cfg.fsync_policy == FsyncPolicy::Each {
            WalView { durable: v.pending, flushes: file_wal::next_count(v.flushes, 1), ..v }
        } else {
            v
        };
        lemma_pruned(
            WalView {
                appends: file_wal::next_count(s.appends, 1),
                append_bytes: file_wal::next_count(s.append_bytes, len),
                ..s
            },
            ms,
        )
    } else {
        0
    }
}

proof fn lemma_pruned(v: WalView, ms: Seq<Mapped>) -> (n: nat)
    requires
        holds(v, ms),
    ensures
        n <= ms.len(),
        holds(v.pruned().0, ms.skip(n as int)),
        v.pruned().1 == firsts(ms.take(n as int)),
        v.pruned().0.cfg == v.cfg,
        v.pruned().0.active == v.active,
        v.pruned().0.pending == v.pending,
        v.active is Some ==> n < ms.len(),
    decreases v.segments.len(),
{
    assert(ms.skip(0) =~= ms);
    assert(firsts(ms.take(0)) =~= Seq::empty());
    let active = match v.active {
        Some(a) => Some(a.first),
        None => None,
    };
    let ws = wal_laws::as_written(ms);
    if v.retained_bytes + v.active_bytes <= v.cfg.retention_bytes {
        0
    } else {
        match file_wal::oldest_other(v.segments, active) {
            None => 0,
            Some(i) => {
                let last = ms.len() - 1;
                assert(v.segments[last].0 == ws[last].first);
                if i == 1 {
                    assert(v.segments[0].0 < v.segments[last].0);
                    assert(false);
                }
                let rest = v.segments.remove(0);
                let t = ms.skip(1);
                let wt = wal_laws::as_written(t);
                assert(wt =~= ws.skip(1));
                file_wal_laws::lemma_chained_skip(ws);
                assert forall|j: int| 0 <= j < wt.len() implies (#[trigger] wt[j]).first == rest[j].0 by {
                    assert(wt[j] == ws[j + 1]);
                    assert(rest[j] == v.segments[j + 1]);
                }
                assert forall|j: int, k: int| 0 <= j < k < rest.len() implies (#[trigger] rest[j]).0
                    < (#[trigger] rest[k]).0 by {
                    assert(rest[j] == v.segments[j + 1] && rest[k] == v.segments[k + 1]);
                }
                assert forall|j: int| 0 <= j < t.len() implies wal_laws::mapped_well(
                    #[trigger] t[j],
                ) by {
                    assert(t[j] == ms[j + 1]);
                }
                if v.active is Some {
                    assert(v.segments[0].0 == ws[0].first);
                    assert(ms.len() > 1);
                }
                if t.len() > 0 {
                    assert(t.last() == ms.last());
                    assert(wt.last() == ws.last());
                }
                let smaller = WalView {
                    segments: rest,
                    retained_bytes: wal::sat_sub(v.retained_bytes, v.segments[0].1),
                    ..v
                };
                let n = lemma_pruned(smaller, t);
                assert(t.skip(n as int) =~= ms.skip(1 + n as int));
                assert(v.segments[0].0 == ws[0].first);
                assert(seq![v.segments[0].0] + firsts(t.take(n as int)) =~= firsts(
                    ms.take(1 + n as int),
                ));
                n + 1
            },
        }
    }
}

/// A generation bump keeps every record. The law gives the segments after it.
pub proof fn law_records_survive(v: WalView, ms: Seq<Mapped>, io: RotateIo) -> (after: Seq<Mapped>)
    requires
        holds(v, ms),
        v.active is Some,
    ensures
        holds(wal::rotated(v, v.pending, io).0, after),
        all_records(after) == all_records(ms),
{
    lemma_rotated(v, ms, io)
}

/// Only a segment without records is ever replaced: where a plan lets the file of a segment
/// be created anew, that is the newest one, and nothing is in it.
pub proof fn law_no_record_is_replaced(
    v: WalView,
    ms: Seq<Mapped>,
    cursor: u64,
    len: nat,
    plan: AppendPlan,
)
    requires
        holds(v, ms),
        wal::plans(v, cursor, len, plan),
        if v.active is None {
            plan.create matches Some(new) && new.reuse
        } else {
            plan.rotate matches Some(r) && r.new.reuse
        },
    ensures
        ms.len() > 0,
        ms.last().first == cursor,
        mmap_segment_reader::readable(ms.last().log).len() == 0,
{
}

/// A log gives back what it took: a replay from a cursor that the log still holds reads the
/// segments from the one that contains the cursor on, and yields every record from the
/// cursor to the end, once and in order. A replay from a cursor that the log has not reached
/// reads the newest segment and yields nothing.
#[verifier::spinoff_prover]
#[verifier::rlimit(60)]
pub proof fn law_log_gives_back_what_it_took(
    v: WalView,
    ms: Seq<Mapped>,
    cursor: u64,
    r: Result<WalReplayer, WalError>,
)
    requires
        holds(v, ms),
        ms.len() > 0,
        ms[0].first <= cursor,
        wal::replays(v.segments, cursor, r),
    ensures
        ({
            let k = index::containing(v.segments, cursor);
            &&& 0 <= k < ms.len()
            &&& r matches Ok(p)
            &&& p.floor() == cursor
            &&& p.ahead() == firsts(ms.skip(k))
            &&& wal_laws::replayed(ms.skip(k), cursor) == (if cursor <= v.pending {
                all_records(ms).skip(cursor - ms[0].first)
            } else {
                Seq::empty()
            })
        }),
{
    let k = index::containing(v.segments, cursor);
    let ws = wal_laws::as_written(ms);
    assert(v.segments[0].0 == ws[0].first);
    index::lemma_containing(v.segments, cursor);
    let t = ms.skip(k);
    assert(index::keys(v.segments.skip(k)) =~= firsts(t)) by {
        assert forall|i: int| 0 <= i < t.len() implies v.segments.skip(k)[i].0 == (
        #[trigger] t[i]).first by {
            assert(ws[k + i].first == v.segments[k + i].0);
        }
    }
    history_laws::lemma_skip_segments(ws, k);
    history_laws::lemma_chained_tail(ws, k);
    assert(wal_laws::as_written(t) =~= ws.skip(k));
    assert(ws[k].first == v.segments[k].0);
    if k + 1 < ms.len() {
        assert(v.segments[k + 1].0 > cursor);
        assert(ws[k + 1].first == v.segments[k + 1].0);
        assert(end_of(ws[k]) == ws[k + 1].first);
    }
    assert forall|i: int| 0 <= i < t.len() implies wal_laws::mapped_well(#[trigger] t[i]) by {
        assert(t[i] == ms[k + i]);
    }
    wal_laws::law_read_gives_back_writes(t, cursor);
    let all = file_wal_laws::all_records(ws);
    if cursor <= v.pending {
        assert(all.skip(ws[k].first - ws[0].first).skip(cursor - ws[k].first) =~= all.skip(
            cursor - ws[0].first,
        ));
    }
}

/// A restart finds the log as it was: recovery that listed its segments and scanned the
/// newest one leads to a log that consists of the same segments and goes on at the same
/// cursor, with or without the fresh segment that it starts. A newest segment without
/// records is named as the active one and stays.
#[verifier::spinoff_prover]
#[verifier::rlimit(60)]
pub proof fn law_restart_finds_the_log(
    v: WalView,
    ms: Seq<Mapped>,
    found: WalRecovery,
    cfg: WalConfig,
    coord: ActiveCoord,
)
    requires
        holds(v, ms),
        ms.len() > 0,
        history_laws::lists(found.segments(), wal_laws::as_written(ms)),
        found.last() == wal::last_intact(
            mmap_segment_writer::image_of(ms.last().size, ms.last().first, ms.last().log),
        ),
    ensures
        wal::recovered(cfg, found, coord).pending == v.pending,
        holds(wal::recovered(cfg, found, coord), ms),
        holds(wal::recovered(cfg, found, coord).named(v.pending), ms),
        mmap_segment_writer::size_verdict(cfg.segment_size_max) is Ok ==> {
            let t = started(ms, v.pending, cfg.segment_size_max as int);
            let r = wal::recovered(cfg, found, coord).opened(v.pending).named(v.pending);
            &&& r.pending == v.pending
            &&& holds(r, t)
            &&& all_records(t) == all_records(ms)
        },
{
    let n = ms.len() - 1;
    let m = ms[n];
    let ws = wal_laws::as_written(ms);
    assert(wal_laws::mapped_well(m));
    mmap_segment_reader::lemma_walk_image(m.size, m.first, m.log);
    assert(ws.last() == ws[n]);
    assert(ws[n].first == found.segments()[n].0);
    let records = mmap_segment_reader::readable(m.log);
    assert(segment_writer::consecutive(ws[n].records, ws[n].first));
    if records.len() > 0 {
        assert(records[records.len() - 1].cursor == m.first + (records.len() - 1));
    }
    if mmap_segment_writer::size_verdict(cfg.segment_size_max) is Ok {
        lemma_started(found.segments(), ms, v.pending, cfg.segment_size_max);
        let t = started(ms, v.pending, cfg.segment_size_max as int);
        assert(wal_laws::as_written(t).last() == wal_laws::as_written(t)[t.len() - 1]);
        assert(mmap_segment_reader::readable(Seq::empty()).len() == 0);
        assert(mmap_segment_writer::entries_bytes(Seq::empty()).len() == 0);
    }
}

} // verus!
