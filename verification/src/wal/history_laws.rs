//! What a log holds over time.
//!
//! A log keeps the sizes of its segments and the records of the active one; the records of
//! the others stand in their files. [`holds`] says which segments with which records that
//! makes, and the laws say how the operations of the log change them: an append adds one
//! record at the end, retention drops segments from the front, nothing else changes what a
//! replay gives back.

use crate::error::IoKind;
use crate::wal::config::WalConfig;
use crate::wal::index;
use crate::wal::record;
use crate::wal::record::{MAX_PAYLOAD_LEN, SEGMENT_HEADER_LEN};
use crate::wal::segment_reader;
use crate::wal::segment_writer;
use crate::wal::wal;
use crate::wal::wal::{AppendIo, WalError, WalReplayer, WalView};
use crate::wal::wal_laws;
use crate::wal::wal_laws::Written;
use vstd::prelude::*;

verus! {

/// The index lists these segments, whose cursors run on from one to the next.
pub open spec fn lists(segments: Seq<(u64, u64)>, ss: Seq<Written>) -> bool {
    &&& wal_laws::chained(ss)
    &&& index::ascending(segments)
    &&& ss.len() == segments.len()
    &&& forall|i: int| 0 <= i < ss.len() ==> (#[trigger] ss[i]).first == segments[i].0
}

/// One past the cursor of the last record.
pub open spec fn end_of(s: Written) -> int {
    s.first + s.records.len()
}

/// The log consists of these segments: it goes on behind the newest one, and that is the
/// active one, if there is an active one.
pub open spec fn holds(v: WalView, ss: Seq<Written>) -> bool {
    &&& lists(v.segments, ss)
    &&& v.pending() <= u64::MAX
    &&& ss.len() > 0 ==> v.pending() == end_of(ss.last())
    &&& v.active matches Some(a) ==> {
        &&& ss.len() > 0
        &&& ss.last().first == a.first
        &&& ss.last().records == a.log
    }
}

/// The segments with a fresh one at `cursor`. An empty segment of that name is replaced.
pub open spec fn started(ss: Seq<Written>, cursor: u64, created: u64) -> Seq<Written> {
    let fresh = Written { first: cursor, created, records: Seq::empty() };
    if ss.len() > 0 && ss.last().first == cursor {
        ss.update(ss.len() - 1, fresh)
    } else {
        ss.push(fresh)
    }
}

/// The segments with one more record in the newest one.
pub open spec fn extended(ss: Seq<Written>, rec: record::RecordView) -> Seq<Written> {
    let s = ss.last();
    ss.update(ss.len() - 1, Written { records: s.records.push(rec), ..s })
}

/// The segments after an append of `rec` that succeeds: a fresh segment where there is no
/// active one and where the active one would overflow, and the record in the newest.
pub open spec fn with_record(
    v: WalView,
    ss: Seq<Written>,
    rec: record::RecordView,
    created: u64,
) -> Seq<Written> {
    let (w, ready) = if v.active is None {
        (v.opened(rec.cursor), started(ss, rec.cursor, created))
    } else {
        (v, ss)
    };
    let full = if w.active->Some_0.overflows(rec.payload.len(), v.cfg.segment_size_max) {
        started(ready, rec.cursor, created)
    } else {
        ready
    };
    extended(full, rec)
}

/// The first cursors of the segments: the names of their files.
pub open spec fn firsts(ss: Seq<Written>) -> Seq<u64> {
    ss.map_values(|s: Written| s.first)
}

/// Setting the newest entry of an index, or adding one behind it.
pub proof fn lemma_newest_entry(s: Seq<(u64, u64)>, key: u64, size: u64)
    requires
        index::ascending(s),
        s.len() > 0 ==> s.last().0 <= key,
    ensures
        index::ascending(index::with_entry(s, key, size)),
        index::with_entry(s, key, size) == (if s.len() > 0 && s.last().0 == key {
            s.update(s.len() - 1, (key, size))
        } else {
            s.push((key, size))
        }),
{
    index::lemma_with_entry(s, key, size);
    index::lemma_place_of(s, key);
    let p = index::place_of(s, key);
    if s.len() > 0 && s.last().0 == key {
        assert(p <= s.len() - 1);
        if p < s.len() - 1 {
            assert(s[p].0 < s[s.len() - 1].0);
        }
    } else {
        if p < s.len() {
            assert(s[p].0 <= s[s.len() - 1].0) by {
                if p < s.len() - 1 {
                    assert(s[p].0 < s[s.len() - 1].0);
                }
            }
        }
        assert(p == s.len());
        assert(s.insert(p, (key, size)) =~= s.push((key, size)));
    }
}

/// The records of all segments but the newest, then those of the newest.
proof fn lemma_all_records_last(ss: Seq<Written>)
    requires
        ss.len() > 0,
    ensures
        wal_laws::all_records(ss) == wal_laws::all_records(ss.drop_last()) + ss.last().records,
    decreases ss.len(),
{
    if ss.len() == 1 {
        assert(wal_laws::all_records(ss.skip(1)) =~= Seq::empty());
        assert(wal_laws::all_records(ss) =~= ss[0].records);
        assert(wal_laws::all_records(ss.drop_last()) =~= Seq::empty());
    } else {
        lemma_all_records_last(ss.skip(1));
        assert(ss.skip(1).drop_last() =~= ss.drop_last().skip(1));
        assert(wal_laws::all_records(ss) =~= wal_laws::all_records(ss.drop_last())
            + ss.last().records);
    }
}

/// Starting a segment keeps the records.
pub proof fn lemma_started(
    segments: Seq<(u64, u64)>,
    ss: Seq<Written>,
    cursor: u64,
    created: u64,
    size: u64,
)
    requires
        lists(segments, ss),
        ss.len() > 0 ==> end_of(ss.last()) == cursor,
    ensures
        lists(index::with_entry(segments, cursor, size), started(ss, cursor, created)),
        wal_laws::all_records(started(ss, cursor, created)) == wal_laws::all_records(ss),
{
    let t = started(ss, cursor, created);
    let fresh = Written { first: cursor, created, records: Seq::empty() };
    lemma_newest_entry(segments, cursor, size);
    lemma_all_records_last(t);
    assert(t.last() == fresh);
    if ss.len() > 0 && ss.last().first == cursor {
        lemma_all_records_last(ss);
        assert(t.drop_last() =~= ss.drop_last());
        assert(ss.last().records =~= Seq::empty());
    } else {
        assert(t.drop_last() =~= ss);
        assert(wal_laws::all_records(ss) + Seq::<record::RecordView>::empty()
            =~= wal_laws::all_records(ss));
    }
    assert forall|i: int| 0 <= i < t.len() implies segment_reader::payloads_fit(
        (#[trigger] t[i]).records,
    ) && segment_writer::consecutive(t[i].records, t[i].first) by {
        if i < t.len() - 1 {
            assert(t[i] == ss[i]);
        }
    }
    assert forall|i: int| 0 <= i < t.len() - 1 implies end_of(#[trigger] t[i]) == t[i + 1].first by {
        assert(t[i] == ss[i]);
        if i + 1 < t.len() - 1 {
            assert(t[i + 1] == ss[i + 1]);
        } else if i + 1 < ss.len() {
            assert(end_of(ss[i]) == ss[i + 1].first);
        }
    }
}

/// One more record in the newest segment is one more record at the end.
pub proof fn lemma_extended(
    segments: Seq<(u64, u64)>,
    ss: Seq<Written>,
    rec: record::RecordView,
)
    requires
        lists(segments, ss),
        ss.len() > 0,
        end_of(ss.last()) == rec.cursor,
        rec.payload.len() <= MAX_PAYLOAD_LEN,
    ensures
        lists(segments, extended(ss, rec)),
        wal_laws::all_records(extended(ss, rec)) == wal_laws::all_records(ss).push(rec),
{
    let t = extended(ss, rec);
    let n = ss.len() - 1;
    lemma_all_records_last(ss);
    lemma_all_records_last(t);
    assert(t.drop_last() =~= ss.drop_last());
    assert(wal_laws::all_records(t) =~= wal_laws::all_records(ss).push(rec));
    assert forall|i: int| 0 <= i < t.len() implies segment_reader::payloads_fit(
        (#[trigger] t[i]).records,
    ) && segment_writer::consecutive(t[i].records, t[i].first) by {
        if i == n {
            let before = ss[n].records;
            assert(segment_reader::payloads_fit(before));
            assert forall|j: int| 0 <= j < t[i].records.len() implies (#[trigger] t[i].records[j]).cursor
                == t[i].first + j && t[i].records[j].payload.len() <= MAX_PAYLOAD_LEN by {
                if j < before.len() {
                    assert(t[i].records[j] == before[j]);
                }
            }
        } else {
            assert(t[i] == ss[i]);
        }
    }
    assert forall|i: int| 0 <= i < t.len() - 1 implies end_of(#[trigger] t[i]) == t[i + 1].first by {
        assert(t[i] == ss[i]);
        assert(end_of(ss[i]) == ss[i + 1].first);
    }
}

/// Noting the size of the newest segment changes no cursor.
proof fn lemma_noted(segments: Seq<(u64, u64)>, ss: Seq<Written>, size: u64)
    requires
        lists(segments, ss),
        ss.len() > 0,
    ensures
        lists(index::with_entry(segments, ss.last().first, size), ss),
{
    let n = ss.len() - 1;
    assert(segments[n].0 == ss[n].first);
    lemma_newest_entry(segments, ss.last().first, size);
}

/// The segments after a rotation, whatever came of it.
proof fn lemma_rotated(
    v: WalView,
    ss: Seq<Written>,
    closed: Result<(), IoKind>,
    opened: Result<(), IoKind>,
    created: u64,
) -> (after: Seq<Written>)
    requires
        holds(v, ss),
        v.active is Some,
    ensures
        ({
            let r = wal::rotated(v, v.pending() as u64, closed, opened);
            &&& holds(r.0, after)
            &&& r.0.pending() == v.pending()
            &&& r.1 is Ok ==> r.0.active is Some
        }),
        wal_laws::all_records(after) == wal_laws::all_records(ss),
        after.len() > 0,
        after[0].first == ss[0].first,
        closed is Ok && opened is Ok ==> after == started(ss, v.pending() as u64, created),
{
    let next = v.pending() as u64;
    lemma_noted(v.segments, ss, v.active->Some_0.size() as u64);
    if closed is Ok && opened is Ok {
        lemma_started(v.noted().segments, ss, next, created, SEGMENT_HEADER_LEN as u64);
        started(ss, next, created)
    } else {
        ss
    }
}

/// An append adds its record at the end of the log and keeps all others; one that fails, or
/// that a log which is switched off does not take, changes no record. The record carries
/// the pending cursor; `created` is when a segment that is started was created. The law
/// gives the segments after the append.
pub proof fn law_append_extends_the_log(
    v: WalView,
    ss: Seq<Written>,
    rec: record::RecordView,
    io: AppendIo,
    created: u64,
) -> (after: Seq<Written>)
    requires
        holds(v, ss),
        rec.cursor == v.pending(),
        rec.cursor < u64::MAX,
    ensures
        holds(wal::appended(v, rec, io).0, after),
        wal_laws::all_records(after) == (if v.cfg.enabled && wal::appended(v, rec, io).1 is Ok {
            wal_laws::all_records(ss).push(rec)
        } else {
            wal_laws::all_records(ss)
        }),
        after.len() > 0 ==> after[0].first == (if ss.len() > 0 {
            ss[0].first
        } else {
            rec.cursor
        }),
        ss.len() > 0 ==> after.len() > 0,
        v.cfg.enabled && wal::appended(v, rec, io).1 is Ok ==> after == with_record(
            v,
            ss,
            rec,
            created,
        ),
{
    if wal::refusal(v, rec.payload.len()) is Some || (v.active is None && io.created is Err) {
        ss
    } else {
        let (opened, ready) = if v.active is None {
            lemma_started(v.segments, ss, rec.cursor, created, SEGMENT_HEADER_LEN as u64);
            (v.opened(rec.cursor), started(ss, rec.cursor, created))
        } else {
            (v, ss)
        };
        assert(holds(opened, ready));
        let full = if opened.active->Some_0.overflows(
            rec.payload.len(),
            v.cfg.segment_size_max,
        ) {
            lemma_rotated(opened, ready, io.closed, io.rotated, created)
        } else {
            ready
        };
        let w = wal::prepared(v, rec.cursor, rec.payload.len(), io).0;
        assert(holds(w, full));
        if wal::appended(v, rec, io).1 is Err {
            full
        } else {
            let a = w.active->Some_0;
            let with = wal::ActiveView { log: a.log.push(rec), ..a };
            lemma_extended(w.segments, full, rec);
            lemma_noted(w.segments, extended(full, rec), with.size() as u64);
            extended(full, rec)
        }
    }
}

/// What ends an append drops whole segments from the front at most: retention. They are the
/// ones that it names for deletion, and the active one is never among them.
pub proof fn law_retention_keeps_the_newest(
    v: WalView,
    ss: Seq<Written>,
    len: nat,
    synced: Result<(), IoKind>,
) -> (dropped: nat)
    requires
        holds(v, ss),
    ensures
        dropped <= ss.len(),
        holds(wal::finished(v, len, synced).0, ss.skip(dropped as int)),
        match wal::finished(v, len, synced).1 {
            Err(_) => dropped == 0,
            Ok(names) => names == firsts(ss.take(dropped as int)),
        },
        v.active is Some ==> dropped < ss.len(),
{
    let after = wal::finished(v, len, synced).0;
    assert(ss.skip(0) =~= ss);
    assert(firsts(ss.take(0)) =~= Seq::empty());
    if v.cfg.enabled && wal::finished(v, len, synced).1 is Ok {
        let active = match v.active {
            Some(a) => Some(a.first),
            None => None,
        };
        let n = lemma_retained(v.segments, ss, active, v.cfg.retention_bytes);
        let t = ss.skip(n as int);
        if t.len() > 0 {
            assert(t.last() == ss.last());
        }
        n
    } else {
        0
    }
}

proof fn lemma_retained(segments: Seq<(u64, u64)>, ss: Seq<Written>, active: Option<u64>, cap: u64) -> (
    n: nat)
    requires
        lists(segments, ss),
        active matches Some(first) ==> ss.len() > 0 && ss.last().first == first,
    ensures
        n <= ss.len(),
        lists(wal::retained(segments, active, cap).0, ss.skip(n as int)),
        wal::retained(segments, active, cap).1 == firsts(ss.take(n as int)),
        active is Some ==> n < ss.len(),
    decreases segments.len(),
{
    assert(ss.skip(0) =~= ss);
    assert(firsts(ss.take(0)) =~= Seq::empty());
    if index::total_size(segments) <= cap {
        0
    } else {
        match wal::oldest_other(segments, active) {
            None => 0,
            Some(i) => {
                if i == 1 {
                    let last = ss.len() - 1;
                    assert(segments[last].0 == ss[last].first);
                    assert(segments[0].0 < segments[last].0);
                    assert(false);
                    0
                } else {
                    let rest = segments.remove(0);
                    let t = ss.skip(1);
                    wal_laws::lemma_chained_skip(ss);
                    assert forall|j: int| 0 <= j < t.len() implies (#[trigger] t[j]).first == rest[j].0 by {
                        assert(t[j] == ss[j + 1]);
                        assert(rest[j] == segments[j + 1]);
                    }
                    assert forall|j: int, k: int| 0 <= j < k < rest.len() implies (#[trigger] rest[j]).0
                        < (#[trigger] rest[k]).0 by {
                        assert(rest[j] == segments[j + 1] && rest[k] == segments[k + 1]);
                    }
                    if active is Some {
                        assert(segments[0].0 == ss[0].first);
                        assert(ss.len() > 1);
                        assert(t.last() == ss.last());
                    }
                    let n = lemma_retained(rest, t, active, cap);
                    assert(t.skip(n as int) =~= ss.skip(1 + n as int));
                    assert(segments[0].0 == ss[0].first);
                    assert(seq![segments[0].0] + firsts(t.take(n as int)) =~= firsts(
                        ss.take(1 + n as int),
                    ));
                    n + 1
                }
            },
        }
    }
}

/// A sync, and a generation bump, keep every record. The law gives the segments after the
/// bump.
pub proof fn law_records_survive(
    v: WalView,
    ss: Seq<Written>,
    closed: Result<(), IoKind>,
    opened: Result<(), IoKind>,
    created: u64,
) -> (after: Seq<Written>)
    requires
        holds(v, ss),
        v.active is Some,
    ensures
        holds(v.synced(), ss),
        holds(wal::rotated(v, v.pending() as u64, closed, opened).0, after),
        wal_laws::all_records(after) == wal_laws::all_records(ss),
{
    lemma_rotated(v, ss, closed, opened, created)
}

/// Only a segment without records is ever replaced: where a plan lets the file of a segment
/// be created anew, that is the newest one, and nothing is in it.
pub proof fn law_no_record_is_replaced(v: WalView, ss: Seq<Written>, cursor: u64)
    requires
        holds(v, ss),
        wal::vacant(v, cursor),
    ensures
        ss.len() > 0,
        ss.last().first == cursor,
        ss.last().records.len() == 0,
{
    let p = index::place_of(v.segments, cursor);
    index::lemma_place_of(v.segments, cursor);
    let n = ss.len() - 1;
    assert(ss[p].first == v.segments[p].0);
    assert(ss[n].first == v.segments[n].0);
    if p < n {
        assert(v.segments[p].0 < v.segments[n].0);
    }
}

/// The segments from place `k` on start behind the records of those before.
pub proof fn lemma_skip_segments(ss: Seq<Written>, k: int)
    requires
        wal_laws::chained(ss),
        0 <= k < ss.len(),
    ensures
        ss[0].first <= ss[k].first,
        wal_laws::all_records(ss).len() == end_of(ss.last()) - ss[0].first,
        wal_laws::all_records(ss.skip(k)).len() == end_of(ss.last()) - ss[k].first,
        wal_laws::all_records(ss).skip(ss[k].first - ss[0].first) == wal_laws::all_records(
            ss.skip(k),
        ),
    decreases ss.len(),
{
    let all = wal_laws::all_records(ss);
    if ss.len() > 1 {
        let t = ss.skip(1);
        wal_laws::lemma_chained_skip(ss);
        assert(t[0] == ss[1]);
        assert(end_of(ss[0]) == ss[1].first);
        assert(t.last() == ss.last());
        if k > 0 {
            lemma_skip_segments(t, k - 1);
            assert(t[k - 1] == ss[k]);
            assert(t.skip(k - 1) =~= ss.skip(k));
            assert(all.skip(ss[k].first - ss[0].first) =~= wal_laws::all_records(t).skip(
                ss[k].first - ss[1].first,
            ));
        } else {
            lemma_skip_segments(t, 0);
        }
    } else {
        assert(wal_laws::all_records(ss.skip(1)) =~= Seq::empty());
    }
    if k == 0 {
        assert(ss.skip(0) =~= ss);
        assert(all.skip(0) =~= all);
    }
}

/// A log gives back what it took: a replay from a cursor that the log still holds reads the
/// segments from the one that contains the cursor on, and yields every record from the
/// cursor to the end, once and in order. A replay from a cursor that the log has not reached
/// reads the newest segment and yields nothing.
pub proof fn law_log_gives_back_what_it_took(
    v: WalView,
    ss: Seq<Written>,
    cursor: u64,
    r: Result<WalReplayer, WalError>,
)
    requires
        holds(v, ss),
        ss.len() > 0,
        ss[0].first <= cursor,
        wal::replays(v.segments, cursor, r),
    ensures
        ({
            let k = index::containing(v.segments, cursor);
            &&& 0 <= k < ss.len()
            &&& r matches Ok(p)
            &&& p.floor() == cursor
            &&& p.ahead() == firsts(ss.skip(k))
            &&& wal_laws::replayed(ss.skip(k), cursor) == (if cursor <= v.pending() {
                wal_laws::all_records(ss).skip(cursor - ss[0].first)
            } else {
                Seq::empty()
            })
        }),
{
    let k = index::containing(v.segments, cursor);
    assert(v.segments[0].0 == ss[0].first);
    index::lemma_containing(v.segments, cursor);
    let t = ss.skip(k);
    assert(index::keys(v.segments.skip(k)) =~= firsts(t)) by {
        assert forall|i: int| 0 <= i < t.len() implies v.segments.skip(k)[i].0 == (
        #[trigger] t[i]).first by {
            assert(t[i] == ss[k + i]);
        }
    }
    lemma_skip_segments(ss, k);
    lemma_chained_tail(ss, k);
    assert(ss[k].first == v.segments[k].0);
    if k + 1 < ss.len() {
        assert(v.segments[k + 1].0 > cursor);
        assert(ss[k + 1].first == v.segments[k + 1].0);
        assert(end_of(ss[k]) == ss[k + 1].first);
    }
    wal_laws::law_read_gives_back_writes(t, cursor);
    let all = wal_laws::all_records(ss);
    if cursor <= v.pending() {
        assert(all.skip(ss[k].first - ss[0].first).skip(cursor - ss[k].first) =~= all.skip(
            cursor - ss[0].first,
        ));
    }
}

pub proof fn lemma_chained_tail(ss: Seq<Written>, k: int)
    requires
        wal_laws::chained(ss),
        0 <= k <= ss.len(),
    ensures
        wal_laws::chained(ss.skip(k)),
{
    let t = ss.skip(k);
    assert forall|i: int| 0 <= i < t.len() implies segment_reader::payloads_fit(
        (#[trigger] t[i]).records,
    ) && segment_writer::consecutive(t[i].records, t[i].first) by {
        assert(t[i] == ss[k + i]);
    }
    assert forall|i: int| 0 <= i < t.len() - 1 implies end_of(#[trigger] t[i]) == t[i + 1].first by {
        assert(t[i] == ss[k + i]);
        assert(t[i + 1] == ss[k + i + 1]);
    }
}

// ── Restart ──────────────────────────────────────────────────────────────────

/// What recovery finds in these segment files, looked at one after the other: the index,
/// and the newest segment with the cursor of its last record.
pub open spec fn scanned(fs: Seq<Written>) -> (Seq<(u64, u64)>, Option<(u64, Option<u64>)>)
    decreases fs.len(),
{
    if fs.len() == 0 {
        (Seq::empty(), None)
    } else {
        let before = scanned(fs.drop_last());
        let f = fs.last();
        let report = segment_reader::recovered(
            segment_writer::segment_bytes(f.first, f.created, f.records),
        );
        (
            index::with_entry(before.0, f.first, report.final_len),
            match before.1 {
                Some((newest, last)) if newest > f.first => Some((newest, last)),
                _ => Some(
                    (
                        f.first,
                        segment_reader::highest_of(
                            segment_reader::scan(
                                segment_writer::segment_bytes(f.first, f.created, f.records),
                                SEGMENT_HEADER_LEN as int,
                            ).records,
                        ),
                    ),
                ),
            },
        )
    }
}

/// A segment file that was written whole leads recovery to its last record.
proof fn lemma_recovered(f: Written)
    requires
        segment_reader::payloads_fit(f.records),
        segment_writer::consecutive(f.records, f.first),
    ensures
        match segment_reader::highest_of(
            segment_reader::scan(
                segment_writer::segment_bytes(f.first, f.created, f.records),
                SEGMENT_HEADER_LEN as int,
            ).records,
        ) {
            Some(last) => last + 1 == end_of(f),
            None => end_of(f) == f.first,
        },
{
    let h = record::header_bytes(record::SEGMENT_VERSION, f.first, f.created);
    record::lemma_header_bytes(record::SEGMENT_VERSION, f.first, f.created);
    segment_reader::law_scan_of_encoded(h, f.records);
    if f.records.len() > 0 {
        assert(f.records[f.records.len() - 1].cursor == f.first + (f.records.len() - 1));
    }
}

proof fn lemma_scanned(fs: Seq<Written>)
    requires
        forall|i: int|
            0 <= i < fs.len() ==> segment_reader::payloads_fit((#[trigger] fs[i]).records)
                && segment_writer::consecutive(fs[i].records, fs[i].first),
    ensures
        index::ascending(scanned(fs).0),
        forall|c: u64|
            #[trigger] index::has_key(scanned(fs).0, c) <==> exists|i: int|
                0 <= i < fs.len() && (#[trigger] fs[i]).first == c,
        match scanned(fs).1 {
            None => fs.len() == 0,
            Some((newest, last)) => {
                &&& forall|i: int| 0 <= i < fs.len() ==> (#[trigger] fs[i]).first <= newest
                &&& exists|i: int|
                    {
                        &&& 0 <= i < fs.len()
                        &&& (#[trigger] fs[i]).first == newest
                        &&& match last {
                            Some(c) => c + 1 == end_of(fs[i]),
                            None => end_of(fs[i]) == newest,
                        }
                    }
            },
        },
    decreases fs.len(),
{
    if fs.len() > 0 {
        let rest = fs.drop_last();
        let f = fs.last();
        let n = fs.len() - 1;
        assert(fs[n] == f);
        assert(forall|i: int| 0 <= i < rest.len() ==> rest[i] == #[trigger] fs[i]);
        lemma_scanned(rest);
        let before = scanned(rest);
        let report = segment_reader::recovered(
            segment_writer::segment_bytes(f.first, f.created, f.records),
        );
        lemma_recovered(f);
        index::lemma_with_entry(before.0, f.first, report.final_len);
        index::lemma_with_entry_keys(before.0, f.first, report.final_len);
        assert forall|c: u64| #[trigger] index::has_key(scanned(fs).0, c) <==> exists|i: int|
            0 <= i < fs.len() && (#[trigger] fs[i]).first == c by {
            if c == f.first {
                assert(fs[n].first == c);
            } else if index::has_key(before.0, c) {
                let i = choose|i: int| 0 <= i < rest.len() && (#[trigger] rest[i]).first == c;
                assert(fs[i].first == c);
            } else if exists|i: int| 0 <= i < fs.len() && (#[trigger] fs[i]).first == c {
                let i = choose|i: int| 0 <= i < fs.len() && (#[trigger] fs[i]).first == c;
                assert(rest[i].first == c);
            }
        }
        match before.1 {
            Some((newest, last)) if newest > f.first => {
                let i = choose|i: int|
                    {
                        &&& 0 <= i < rest.len()
                        &&& (#[trigger] rest[i]).first == newest
                        &&& match last {
                            Some(c) => c + 1 == end_of(rest[i]),
                            None => end_of(rest[i]) == newest,
                        }
                    };
                assert(fs[i].first == newest);
            },
            _ => {
                assert(fs[n].first == f.first);
            },
        }
    }
}

/// The log that recovery leads to, before it has an active segment.
pub open spec fn reopened(cfg: WalConfig, fs: Seq<Written>) -> WalView {
    let next: int = match scanned(fs).1 {
        None => 0,
        Some((_, Some(last))) => last + 1,
        Some((first, None)) => first as int,
    };
    WalView {
        cfg,
        segments: scanned(fs).0,
        active: None,
        resume: next as u64,
        durable: next as u64,
        poisoned: false,
        appends: 0,
        append_bytes: 0,
        flushes: 0,
    }
}

/// A restart finds the log as it was: recovery over its segment files, in whatever order
/// they are looked at, leads to a log that consists of the same segments and goes on at the
/// same cursor, with or without the fresh segment that it starts.
pub proof fn law_restart_finds_the_log(
    v: WalView,
    ss: Seq<Written>,
    fs: Seq<Written>,
    cfg: WalConfig,
    created: u64,
)
    requires
        holds(v, ss),
        ss.len() > 0,
        forall|s: Written| #[trigger] fs.contains(s) <==> ss.contains(s),
    ensures
        reopened(cfg, fs).pending() == v.pending(),
        holds(reopened(cfg, fs), ss),
        holds(
            reopened(cfg, fs).opened(v.pending() as u64),
            started(ss, v.pending() as u64, created),
        ),
        wal_laws::all_records(started(ss, v.pending() as u64, created)) == wal_laws::all_records(ss),
{
    let found = scanned(fs);
    let q = firsts(ss);
    assert forall|i: int| 0 <= i < fs.len() implies segment_reader::payloads_fit(
        (#[trigger] fs[i]).records,
    ) && segment_writer::consecutive(fs[i].records, fs[i].first) by {
        assert(fs.contains(fs[i]));
        let j = choose|j: int| 0 <= j < ss.len() && ss[j] == fs[i];
        assert(segment_reader::payloads_fit(ss[j].records));
    }
    lemma_scanned(fs);
    assert forall|i: int, j: int| 0 <= i < j < q.len() implies #[trigger] q[i] < #[trigger] q[j] by {
        assert(q[i] == ss[i].first && q[j] == ss[j].first);
        assert(v.segments[i].0 < v.segments[j].0);
    }
    assert forall|c: u64| #[trigger] index::has_key(found.0, c) <==> q.contains(c) by {
        if index::has_key(found.0, c) {
            let i = choose|i: int| 0 <= i < fs.len() && (#[trigger] fs[i]).first == c;
            assert(fs.contains(fs[i]));
            let j = choose|j: int| 0 <= j < ss.len() && ss[j] == fs[i];
            assert(q[j] == c);
        }
        if q.contains(c) {
            let j = choose|j: int| 0 <= j < q.len() && q[j] == c;
            assert(ss.contains(ss[j]));
            assert(fs.contains(ss[j]));
            let i = choose|i: int| 0 <= i < fs.len() && fs[i] == ss[j];
            assert(fs[i].first == c);
        }
    }
    index::lemma_keys_determine(found.0, q);
    assert forall|i: int| 0 <= i < ss.len() implies (#[trigger] ss[i]).first == found.0[i].0 by {
        assert(index::keys(found.0)[i] == q[i]);
    }
    assert(found.0.len() == ss.len()) by {
        assert(index::keys(found.0).len() == q.len());
    }
    // The newest segment that recovery found is the newest one.
    assert(ss.contains(ss[ss.len() - 1]));
    assert(fs.contains(ss[ss.len() - 1]));
    let top = choose|i: int| 0 <= i < fs.len() && fs[i] == ss[ss.len() - 1];
    assert(fs[top].first == ss.last().first);
    let (newest, last) = found.1->Some_0;
    let i = choose|i: int|
        {
            &&& 0 <= i < fs.len()
            &&& (#[trigger] fs[i]).first == newest
            &&& match last {
                Some(c) => c + 1 == end_of(fs[i]),
                None => end_of(fs[i]) == newest,
            }
        };
    assert(fs.contains(fs[i]));
    let j = choose|j: int| 0 <= j < ss.len() && ss[j] == fs[i];
    if j < ss.len() - 1 {
        assert(q[j] < q[ss.len() - 1]);
    }
    assert(fs[i] == ss.last());
    lemma_started(found.0, ss, v.pending() as u64, created, SEGMENT_HEADER_LEN as u64);
}

} // verus!
