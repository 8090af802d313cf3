//! What users of the log can rely on.

use crate::error::IoKind;
use crate::wal::config::FsyncPolicy;
use crate::wal::record;
use crate::wal::record::{MAX_PAYLOAD_LEN, SEGMENT_HEADER_LEN, SEGMENT_VERSION};
use crate::wal::segment_reader;
use crate::wal::segment_writer;
use crate::wal::segment_writer::SegmentWriter;
use crate::wal::wal;
use crate::wal::wal::{AppendIo, ReadingView, WalError, WalView};
use vstd::prelude::*;

verus! {

/// Every file operation went well.
pub open spec fn all_well(io: AppendIo) -> bool {
    io.created is Ok && io.closed is Ok && io.rotated is Ok && io.written is Ok
}

/// An append that no file operation fails is taken: the record is the last one of the
/// active segment, and the next cursor is the one behind it. It needs a log that is
/// switched on and not poisoned, a payload that fits, and a cursor that follows on, where
/// there is an active segment that goes on.
pub proof fn law_append_is_taken(v: WalView, rec: record::RecordView, io: AppendIo)
    requires
        all_well(io),
        v.cfg.enabled,
        !v.poisoned,
        rec.payload.len() <= MAX_PAYLOAD_LEN,
        rec.cursor < u64::MAX,
        v.active matches Some(a) ==> a.next() <= u64::MAX && (rec.cursor == a.next() || a.overflows(
            rec.payload.len(),
            v.cfg.segment_size_max,
        )),
    ensures
        wal::appended(v, rec, io).1 == Ok::<(), WalError>(()),
        wal::appended(v, rec, io).0.pending() == rec.cursor + 1,
        wal::appended(v, rec, io).0.active is Some,
        wal::appended(v, rec, io).0.active->Some_0.log.last() == rec,
{
    let w = wal::prepared(v, rec.cursor, rec.payload.len(), io).0;
    let a = w.active->Some_0;
    assert(a.log.push(rec).last() == rec);
}

/// A log that is switched off keeps nothing: appends succeed and change nothing, and so
/// does what ends them.
pub proof fn law_disabled_log_is_inert(v: WalView, rec: record::RecordView, io: AppendIo, synced: Result<(), IoKind>)
    requires
        !v.cfg.enabled,
    ensures
        wal::appended(v, rec, io) == (v, Ok::<(), WalError>(())),
        wal::finished(v, rec.payload.len(), synced) == (v, Ok::<Seq<u64>, WalError>(Seq::empty())),
{
}

/// A poisoned log takes no more records.
pub proof fn law_poisoned_log_refuses(v: WalView, rec: record::RecordView, io: AppendIo)
    requires
        v.cfg.enabled,
        v.poisoned,
        rec.payload.len() <= MAX_PAYLOAD_LEN,
    ensures
        wal::appended(v, rec, io) == (v, Err::<(), WalError>(WalError::Poisoned)),
{
}

/// A record is never put into a segment that it would make too large, unless it is the
/// first one there.
pub proof fn law_segments_stay_within_their_size(v: WalView, rec: record::RecordView, io: AppendIo)
    requires
        wal::appended(v, rec, io).1 is Ok,
        wal::refusal(v, rec.payload.len()) is None,
    ensures
        ({
            let a = wal::appended(v, rec, io).0.active->Some_0;
            a.size() <= v.cfg.segment_size_max || a.log.len() == 1
        }),
{
    let w = wal::prepared(v, rec.cursor, rec.payload.len(), io).0;
    let a = w.active->Some_0;
    segment_writer::lemma_encoded_push(a.log, rec);
    record::lemma_sealed_record_len(
        rec,
        crate::wal::checksum::crc32c_of(record::record_body(rec)),
    );
}

/// Under the strictest policy an append that succeeds leaves nothing that is not durable.
pub proof fn law_each_makes_durable(v: WalView, len: nat, synced: Result<(), IoKind>)
    requires
        v.cfg.enabled,
        v.cfg.fsync_policy == FsyncPolicy::Each,
        v.active is Some,
        v.active->Some_0.next() <= u64::MAX,
        wal::finished(v, len, synced).1 is Ok,
    ensures
        wal::finished(v, len, synced).0.durable == v.pending(),
        wal::finished(v, len, synced).0.pending() == v.pending(),
{
}

// ── Reading back ─────────────────────────────────────────────────────────────

/// The records at the cursor floor or above.
pub open spec fn from_floor(records: Seq<record::RecordView>, floor: u64) -> Seq<record::RecordView>
    decreases records.len(),
{
    if records.len() == 0 {
        Seq::empty()
    } else {
        let rest = from_floor(records.skip(1), floor);
        if records[0].cursor < floor {
            rest
        } else {
            seq![records[0]] + rest
        }
    }
}

/// All records that a replay yields out of one segment.
pub open spec fn yielded_by(r: ReadingView, floor: u64) -> Seq<record::RecordView>
    decreases r.file.len() - r.pos,
{
    match wal::read_on(r, floor) {
        (Some(Ok(rec)), next) => if next.file == r.file && r.pos < next.pos <= r.file.len() {
            seq![rec] + yielded_by(next, floor)
        } else {
            seq![rec]
        },
        _ => Seq::empty(),
    }
}

proof fn lemma_read_on(r: ReadingView, floor: u64)
    requires
        !r.halted,
    ensures
        ({
            let got = wal::read_on(r, floor);
            let records = from_floor(segment_reader::scan(r.file, r.pos).records, floor);
            match got.0 {
                Some(Ok(rec)) => {
                    &&& got.1.file == r.file
                    &&& !got.1.halted
                    &&& r.pos < got.1.pos <= r.file.len()
                    &&& records == seq![rec] + from_floor(
                        segment_reader::scan(r.file, got.1.pos).records,
                        floor,
                    )
                },
                _ => records.len() == 0,
            }
        }),
    decreases r.file.len() - r.pos,
{
    match segment_reader::record_at(r.file, r.pos) {
        Ok(Some((rec, n))) => {
            let all = segment_reader::scan(r.file, r.pos).records;
            let rest = segment_reader::scan(r.file, r.pos + n).records;
            assert(all.skip(1) =~= rest);
            assert(all[0] == rec);
            if rec.cursor < floor {
                lemma_read_on(ReadingView { pos: r.pos + n, ..r }, floor);
            }
        },
        _ => {},
    }
}

/// A replay yields exactly the records of a segment whose cursors reach the floor, in
/// order, up to the first bad one.
pub proof fn law_replay_yields_scanned(r: ReadingView, floor: u64)
    requires
        !r.halted,
    ensures
        yielded_by(r, floor) == from_floor(segment_reader::scan(r.file, r.pos).records, floor),
    decreases r.file.len() - r.pos,
{
    lemma_read_on(r, floor);
    match wal::read_on(r, floor) {
        (Some(Ok(rec)), next) => {
            law_replay_yields_scanned(next, floor);
        },
        _ => {
            assert(yielded_by(r, floor) =~= from_floor(
                segment_reader::scan(r.file, r.pos).records,
                floor,
            ));
        },
    }
}

/// A segment as it was written: its first cursor, when it was created, its records.
pub struct Written {
    pub first: u64,
    pub created: u64,
    pub records: Seq<record::RecordView>,
}

/// The segments follow each other: the cursors run on from one to the next.
pub open spec fn chained(ss: Seq<Written>) -> bool {
    &&& forall|i: int|
        0 <= i < ss.len() ==> segment_reader::payloads_fit((#[trigger] ss[i]).records)
            && segment_writer::consecutive(ss[i].records, ss[i].first)
    &&& forall|i: int|
        0 <= i < ss.len() - 1 ==> (#[trigger] ss[i]).first + ss[i].records.len() == ss[i + 1].first
}

/// All records of the segments.
pub open spec fn all_records(ss: Seq<Written>) -> Seq<record::RecordView>
    decreases ss.len(),
{
    if ss.len() == 0 {
        Seq::empty()
    } else {
        ss[0].records + all_records(ss.skip(1))
    }
}

/// Everything that a replay yields out of the segments, one after the other.
pub open spec fn replayed(ss: Seq<Written>, floor: u64) -> Seq<record::RecordView>
    decreases ss.len(),
{
    if ss.len() == 0 {
        Seq::empty()
    } else {
        yielded_by(
            ReadingView {
                file: segment_writer::segment_bytes(ss[0].first, ss[0].created, ss[0].records),
                pos: SEGMENT_HEADER_LEN as int,
                halted: false,
            },
            floor,
        ) + replayed(ss.skip(1), floor)
    }
}

/// Records with consecutive cursors: those that reach the floor are a suffix.
proof fn lemma_from_floor_consecutive(records: Seq<record::RecordView>, first: u64, floor: u64)
    requires
        segment_writer::consecutive(records, first),
        first + records.len() <= u64::MAX,
    ensures
        from_floor(records, floor) == (if floor <= first {
            records
        } else if floor - first <= records.len() {
            records.skip(floor - first)
        } else {
            Seq::empty()
        }),
    decreases records.len(),
{
    if records.len() == 0 {
        assert(from_floor(records, floor) =~= records);
    } else {
        let rest = records.skip(1);
        assert(records[0].cursor == first);
        assert forall|i: int| 0 <= i < rest.len() implies (#[trigger] rest[i]).cursor == (first + 1)
            + i by {
            assert(rest[i] == records[i + 1]);
        }
        lemma_from_floor_consecutive(rest, (first + 1) as u64, floor);
        if floor <= first {
            assert(seq![records[0]] + rest =~= records);
        } else if floor - first <= records.len() {
            assert(rest.skip(floor - first - 1) =~= records.skip(floor - first));
        }
    }
}

/// The records of the segments that reach the floor.
pub open spec fn floored(ss: Seq<Written>, floor: u64) -> Seq<record::RecordView>
    decreases ss.len(),
{
    if ss.len() == 0 {
        Seq::empty()
    } else {
        from_floor(ss[0].records, floor) + floored(ss.skip(1), floor)
    }
}

/// The records from place `n` on: none if there are fewer.
pub open spec fn tail_of(records: Seq<record::RecordView>, n: int) -> Seq<record::RecordView> {
    if n <= records.len() {
        records.skip(n)
    } else {
        Seq::empty()
    }
}

/// A read gives back what was written: a replay over segments whose cursors run on yields
/// every record from the floor on, once and in order, and none if the floor is beyond the
/// last one. The floor lies in the first segment that is read, or right behind it, or
/// anywhere behind it if there is no other.
pub proof fn law_read_gives_back_writes(ss: Seq<Written>, floor: u64)
    requires
        chained(ss),
        ss.len() > 0,
        ss[0].first + all_records(ss).len() <= u64::MAX,
        ss[0].first <= floor,
        ss.len() == 1 || floor <= ss[0].first + ss[0].records.len(),
    ensures
        replayed(ss, floor) == tail_of(all_records(ss), floor - ss[0].first),
{
    lemma_replayed(ss, floor);
    lemma_floored(ss, floor);
}

/// What one segment contributes to a replay.
proof fn lemma_yielded_by_written(s: Written, floor: u64)
    requires
        segment_reader::payloads_fit(s.records),
    ensures
        yielded_by(
            ReadingView {
                file: segment_writer::segment_bytes(s.first, s.created, s.records),
                pos: SEGMENT_HEADER_LEN as int,
                halted: false,
            },
            floor,
        ) == from_floor(s.records, floor),
{
    let h = record::header_bytes(SEGMENT_VERSION, s.first, s.created);
    record::lemma_header_bytes(SEGMENT_VERSION, s.first, s.created);
    segment_reader::law_scan_of_encoded(h, s.records);
    law_replay_yields_scanned(
        ReadingView {
            file: segment_writer::segment_bytes(s.first, s.created, s.records),
            pos: SEGMENT_HEADER_LEN as int,
            halted: false,
        },
        floor,
    );
}

proof fn lemma_replayed(ss: Seq<Written>, floor: u64)
    requires
        chained(ss),
    ensures
        replayed(ss, floor) == floored(ss, floor),
    decreases ss.len(),
{
    if ss.len() > 0 {
        lemma_yielded_by_written(ss[0], floor);
        lemma_chained_skip(ss);
        lemma_replayed(ss.skip(1), floor);
    }
}

pub proof fn lemma_chained_skip(ss: Seq<Written>)
    requires
        chained(ss),
        ss.len() > 0,
    ensures
        chained(ss.skip(1)),
{
    let t = ss.skip(1);
    assert forall|i: int| 0 <= i < t.len() implies segment_reader::payloads_fit(
        (#[trigger] t[i]).records,
    ) && segment_writer::consecutive(t[i].records, t[i].first) by {
        assert(t[i] == ss[i + 1]);
    }
    assert forall|i: int| 0 <= i < t.len() - 1 implies (#[trigger] t[i]).first + t[i].records.len()
        == t[i + 1].first by {
        assert(t[i] == ss[i + 1]);
        assert(t[i + 1] == ss[i + 2]);
    }
}

/// Segments that start at the floor or behind it reach it whole.
proof fn lemma_floored_whole(ss: Seq<Written>, floor: u64)
    requires
        chained(ss),
        ss.len() > 0 ==> floor <= ss[0].first && ss[0].first + all_records(ss).len() <= u64::MAX,
    ensures
        floored(ss, floor) == all_records(ss),
    decreases ss.len(),
{
    if ss.len() > 0 {
        lemma_chained_skip(ss);
        lemma_from_floor_consecutive(ss[0].records, ss[0].first, floor);
        if ss.len() > 1 {
            assert(ss.skip(1)[0] == ss[1]);
            assert(ss[0].first + ss[0].records.len() == ss[1].first);
        }
        lemma_floored_whole(ss.skip(1), floor);
    }
}

/// Where the cursors run on, the records that reach the floor are all from the floor on.
pub proof fn lemma_floored(ss: Seq<Written>, floor: u64)
    requires
        chained(ss),
        ss.len() > 0,
        ss[0].first + all_records(ss).len() <= u64::MAX,
        ss[0].first <= floor,
        ss.len() == 1 || floor <= ss[0].first + ss[0].records.len(),
    ensures
        floored(ss, floor) == tail_of(all_records(ss), floor - ss[0].first),
{
    let rest = all_records(ss.skip(1));
    lemma_chained_skip(ss);
    lemma_from_floor_consecutive(ss[0].records, ss[0].first, floor);
    if ss.len() > 1 {
        assert(ss.skip(1)[0] == ss[1]);
        assert(ss[0].first + ss[0].records.len() == ss[1].first);
        lemma_floored_whole(ss.skip(1), floor);
    } else {
        assert(floored(ss.skip(1), floor) =~= rest);
    }
    assert(floored(ss, floor) =~= tail_of(ss[0].records + rest, floor - ss[0].first));
}

/// Recovery resumes where the writer stopped: a segment that a writer left behind leads to
/// the writer's next cursor.
pub proof fn law_recovery_resumes(w: SegmentWriter)
    requires
        w.wf(),
    ensures
        segment_reader::recovered(w.content()).bytes_dropped == 0,
        match segment_reader::recovered(w.content()).last_cursor {
            Some(last) => last + 1 == w.pending(),
            None => w.pending() == 0,
        },
{
    segment_writer::law_written_segment_reads_back(w);
    w.lemma_wf();
    w.lemma_size();
    if w.log().len() > 0 {
        assert(w.log()[w.log().len() - 1].cursor == w.first() + (w.log().len() - 1));
    }
}

/// The durable cursor is never ahead of the pending one.
pub open spec fn durable_behind(v: WalView) -> bool {
    &&& v.durable <= v.pending() <= u64::MAX
    &&& v.active matches Some(a) ==> a.durable <= a.next()
}

/// Every operation of the log keeps the durable cursor from getting ahead of the pending
/// one, as long as records are appended at the pending cursor or beyond.
pub proof fn law_durable_stays_behind(
    v: WalView,
    rec: record::RecordView,
    io: AppendIo,
    len: nat,
    synced: Result<(), IoKind>,
    closed: Result<(), IoKind>,
    created: Result<(), IoKind>,
)
    requires
        durable_behind(v),
        v.pending() <= rec.cursor < u64::MAX,
    ensures
        durable_behind(wal::appended(v, rec, io).0),
        durable_behind(wal::finished(v, len, synced).0),
        durable_behind(v.synced()),
        durable_behind(wal::rotated(v, v.pending() as u64, closed, created).0),
{
    let w = wal::prepared(v, rec.cursor, rec.payload.len(), io).0;
    assert(durable_behind(w));
    assert(w.active matches Some(a) ==> a.log.push(rec).len() == a.log.len() + 1);
}

} // verus!
