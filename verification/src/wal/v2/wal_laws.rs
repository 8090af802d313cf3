//! What users of the log over memory-mapped segments can rely on.

use crate::error::IoKind;
use crate::wal::config::FsyncPolicy;
use crate::wal::index;
use crate::wal::record;
use crate::wal::record::{MAX_PAYLOAD_LEN, SEGMENT_HEADER_LEN};
use crate::wal::v2::mmap_segment_reader;
use crate::wal::v2::mmap_segment_reader::OutcomeView;
use crate::wal::v2::mmap_segment_writer;
use crate::wal::v2::mmap_segment_writer::{Entry, RecordWrite, SEGMENT_VERSION_V2};
use crate::wal::v2::rotation::RotateIo;
use crate::wal::v2::wal;
use crate::wal::v2::wal::{AppendIo, WalError, WalView};
use crate::wal::wal as file_wal;
use crate::wal::wal_laws;
use crate::wal::wal_laws::Written;
use vstd::prelude::*;

verus! {

/// Every operation went well.
pub open spec fn all_well(io: AppendIo) -> bool {
    &&& io.create.created is Ok && io.create.published is Ok
    &&& io.rotate.created is Ok && io.rotate.published is Ok
    &&& io.retry.created is Ok && io.retry.published is Ok
}

/// The byte count of the active segment is that of its entries.
pub open spec fn counted(v: WalView) -> bool {
    v.active matches Some(a) ==> v.active_bytes == a.end()
}

/// An append that no operation fails is taken, whatever the log holds: the record is the
/// last one of the active segment, and the next cursor is the one behind it. It needs a log
/// that is switched on and not poisoned, and a record that fits into a segment.
pub proof fn law_append_is_taken(v: WalView, rec: record::RecordView, io: AppendIo)
    requires
        all_well(io),
        counted(v),
        v.cfg.enabled,
        !v.poisoned,
        rec.payload.len() <= MAX_PAYLOAD_LEN,
        rec.cursor < u64::MAX,
        SEGMENT_HEADER_LEN + mmap_segment_writer::padded_len(rec) <= v.cfg.segment_size_max,
    ensures
        wal::appended(v, rec, io).1 == Ok::<(), WalError>(()),
        wal::appended(v, rec, io).0.pending == rec.cursor + 1,
        wal::appended(v, rec, io).0.active is Some,
        wal::appended(v, rec, io).0.active->Some_0.log.last() == Entry::Record(rec),
        wal::appended(v, rec, io).0.active_bytes <= v.cfg.segment_size_max,
{
    mmap_segment_writer::lemma_padded_record_len(rec);
    let w = wal::prepared(v, rec, io).0;
    let a = w.active->Some_0;
    lemma_fresh_end();
    mmap_segment_writer::lemma_entries_push(a.log, Entry::Record(rec));
    assert(a.log.push(Entry::Record(rec)).last() == Entry::Record(rec));
}

proof fn lemma_fresh_end()
    ensures
        mmap_segment_writer::entries_bytes(Seq::empty()).len() == 0,
{
}

/// A record that fits into no segment is answered as too large, even where every operation
/// goes well.
pub proof fn law_oversize_record_is_refused(v: WalView, rec: record::RecordView, io: AppendIo)
    requires
        all_well(io),
        v.cfg.enabled,
        !v.poisoned,
        rec.payload.len() <= MAX_PAYLOAD_LEN,
        mmap_segment_writer::size_verdict(v.cfg.segment_size_max) is Ok,
        SEGMENT_HEADER_LEN + mmap_segment_writer::padded_len(rec) > v.cfg.segment_size_max,
        v.active is Some ==> v.active_bytes >= SEGMENT_HEADER_LEN,
    ensures
        wal::appended(v, rec, io).1 == Err::<(), WalError>(
            WalError::PayloadTooLarge { payload_len: rec.payload.len() as usize },
        ),
        wal::appended(v, rec, io).0.pending == v.pending,
{
}

/// A log that is switched off keeps nothing.
pub proof fn law_disabled_log_is_inert(
    v: WalView,
    rec: record::RecordView,
    io: AppendIo,
    flushed: Result<(), IoKind>,
)
    requires
        !v.cfg.enabled,
    ensures
        wal::appended(v, rec, io) == (v, Ok::<(), WalError>(())),
        wal::finished(v, rec.payload.len(), flushed) == (v, Ok::<Seq<u64>, WalError>(Seq::empty())),
{
}

/// A poisoned log takes no more records.
pub proof fn law_poisoned_log_refuses(v: WalView, rec: record::RecordView, io: AppendIo)
    requires
        v.cfg.enabled,
        v.poisoned,
        rec.payload.len() <= MAX_PAYLOAD_LEN,
    ensures
        wal::appended(v, rec, io) == (v, Err::<(), WalError>(WalError::Poisoned)),
{
}

/// Under the strictest policy an append that succeeds leaves nothing that is not durable.
pub proof fn law_each_makes_durable(v: WalView, len: nat, flushed: Result<(), IoKind>)
    requires
        v.cfg.enabled,
        v.cfg.fsync_policy == FsyncPolicy::Each,
        wal::finished(v, len, flushed).1 is Ok,
    ensures
        wal::finished(v, len, flushed).0.durable == v.pending,
        wal::finished(v, len, flushed).0.pending == v.pending,
{
    let s = WalView { durable: v.pending, flushes: file_wal::next_count(v.flushes, 1), ..v };
    lemma_pruned_keeps(
        WalView {
            appends: file_wal::next_count(s.appends, 1),
            append_bytes: file_wal::next_count(s.append_bytes, len),
            ..s
        },
    );
}

/// Retention touches the index and the bytes it accounts for, nothing else.
proof fn lemma_pruned_keeps(v: WalView)
    ensures
        v.pruned().0.durable == v.durable,
        v.pruned().0.pending == v.pending,
        v.pruned().0.active == v.active,
        v.pruned().0.active_bytes == v.active_bytes,
        v.pruned().0.cfg == v.cfg,
    decreases v.segments.len(),
{
    let active = match v.active {
        Some(a) => Some(a.first),
        None => None,
    };
    if v.retained_bytes + v.active_bytes > v.cfg.retention_bytes {
        match file_wal::oldest_other(v.segments, active) {
            None => {},
            Some(i) => {
                lemma_pruned_keeps(
                    WalView {
                        segments: v.segments.remove(i),
                        retained_bytes: wal::sat_sub(v.retained_bytes, v.segments[i].1),
                        ..v
                    },
                );
            },
        }
    }
}

/// What ends an append changes neither the active segment nor the next cursor.
pub proof fn lemma_finished_keeps(v: WalView, len: nat, flushed: Result<(), IoKind>)
    ensures
        wal::finished(v, len, flushed).0.pending == v.pending,
        wal::finished(v, len, flushed).0.active == v.active,
        wal::finished(v, len, flushed).0.cfg == v.cfg,
{
    let s = if v.cfg.fsync_policy == FsyncPolicy::Each {
        WalView { durable: v.pending, flushes: file_wal::next_count(v.flushes, 1), ..v }
    } else {
        v
    };
    lemma_pruned_keeps(
        WalView {
            appends: file_wal::next_count(s.appends, 1),
            append_bytes: file_wal::next_count(s.append_bytes, len),
            ..s
        },
    );
}

/// After retention the bytes are within the cap, or nothing but the active segment is left.
pub proof fn law_retention_meets_cap(v: WalView)
    ensures
        ({
            let left = v.pruned().0;
            ||| left.retained_bytes + left.active_bytes <= v.cfg.retention_bytes
            ||| left.segments.len() == 0
            ||| left.segments.len() == 1 && v.active is Some && v.active->Some_0.first
                == left.segments[0].0
        }),
    decreases v.segments.len(),
{
    let active = match v.active {
        Some(a) => Some(a.first),
        None => None,
    };
    if v.retained_bytes + v.active_bytes > v.cfg.retention_bytes {
        match file_wal::oldest_other(v.segments, active) {
            None => {},
            Some(i) => {
                law_retention_meets_cap(
                    WalView {
                        segments: v.segments.remove(i),
                        retained_bytes: wal::sat_sub(v.retained_bytes, v.segments[i].1),
                        ..v
                    },
                );
            },
        }
    }
}

/// Retention never deletes the active segment.
pub proof fn law_retention_spares_active(v: WalView)
    requires
        index::ascending(v.segments),
        v.active is Some,
        index::has_key(v.segments, v.active->Some_0.first),
    ensures
        index::has_key(v.pruned().0.segments, v.active->Some_0.first),
        !v.pruned().1.contains(v.active->Some_0.first),
    decreases v.segments.len(),
{
    let s = v.segments;
    let active = v.active->Some_0.first;
    if v.retained_bytes + v.active_bytes > v.cfg.retention_bytes {
        match file_wal::oldest_other(s, Some(active)) {
            None => {},
            Some(i) => {
                let rest = s.remove(i);
                let k = choose|k: int| 0 <= k < s.len() && (#[trigger] s[k]).0 == active;
                if i == 1 {
                    assert(s[0].0 < s[1].0);
                }
                assert(k != i);
                let k2 = if k < i {
                    k
                } else {
                    k - 1
                };
                assert(rest[k2].0 == active);
                assert(index::ascending(rest)) by {
                    assert forall|a: int, b: int| 0 <= a < b < rest.len() implies (
                    #[trigger] rest[a]).0 < (#[trigger] rest[b]).0 by {
                        let x = if a < i {
                            a
                        } else {
                            a + 1
                        };
                        let y = if b < i {
                            b
                        } else {
                            b + 1
                        };
                        assert(s[x].0 < s[y].0);
                    }
                }
                let smaller = WalView {
                    segments: rest,
                    retained_bytes: wal::sat_sub(v.retained_bytes, s[i].1),
                    ..v
                };
                law_retention_spares_active(smaller);
                let vs = smaller.pruned().1;
                assert forall|j: int| 0 <= j < (seq![s[i].0] + vs).len() implies (seq![s[i].0]
                    + vs)[j] != active by {
                    if j > 0 {
                        assert(vs[j - 1] == (seq![s[i].0] + vs)[j]);
                        assert(vs.contains(vs[j - 1]));
                    }
                }
            },
        }
    }
}

/// The stores that an append gives lead from the memory of the active segment before the
/// record to its memory with the record.
pub proof fn law_append_stores_record(
    v: WalView,
    rec: record::RecordView,
    write: RecordWrite,
)
    requires
        v.active is Some,
        counted(v),
        rec.payload.len() <= MAX_PAYLOAD_LEN,
        wal::fits(v.active_bytes as int, rec, v.cfg.segment_size_max),
        wal::writes_record(write, rec, v.recorded(rec)),
    ensures
        ({
            let size = v.cfg.segment_size_max as int;
            let a = v.active->Some_0;
            write.staged(mmap_segment_writer::image_of(size, a.first, a.log), 4)
                == mmap_segment_writer::image_of(size, a.first, a.log.push(Entry::Record(rec)))
        }),
{
    let a = v.active->Some_0;
    mmap_segment_writer::lemma_entries_push(a.log, Entry::Record(rec));
    mmap_segment_writer::lemma_padded_record_len(rec);
    mmap_segment_writer::law_append_stores(
        v.cfg.segment_size_max as int,
        a.first,
        a.log,
        rec,
        write,
    );
}

// ── Reading back ─────────────────────────────────────────────────────────────

/// All records that a replay yields out of one segment, up to the first bad one.
pub open spec fn yielded_by(mem: Seq<u8>, pos: int, floor: u64) -> Seq<record::RecordView>
    decreases mem.len() - pos,
{
    match wal::read_on(mem, pos, floor) {
        (Some(Ok(rec)), next) => if pos < next <= mem.len() {
            seq![rec] + yielded_by(mem, next, floor)
        } else {
            seq![rec]
        },
        _ => Seq::empty(),
    }
}

proof fn lemma_read_on(mem: Seq<u8>, pos: int, floor: u64)
    requires
        SEGMENT_HEADER_LEN <= pos <= mem.len(),
    ensures
        ({
            let got = wal::read_on(mem, pos, floor);
            let records = wal_laws::from_floor(mmap_segment_reader::walk(mem, pos).0, floor);
            match got.0 {
                Some(Ok(rec)) => {
                    &&& pos < got.1 <= mem.len()
                    &&& records == seq![rec] + wal_laws::from_floor(
                        mmap_segment_reader::walk(mem, got.1).0,
                        floor,
                    )
                },
                _ => records.len() == 0,
            }
        }),
    decreases mem.len() - pos,
{
    mmap_segment_reader::lemma_step_advances(mem, pos);
    match mmap_segment_reader::step(mem, pos) {
        (OutcomeView::Record(rec), next) => {
            let all = mmap_segment_reader::walk(mem, pos).0;
            assert(all.skip(1) =~= mmap_segment_reader::walk(mem, next).0);
            assert(all[0] == rec);
            if rec.cursor < floor {
                lemma_read_on(mem, next, floor);
            }
        },
        _ => {},
    }
}

/// A replay yields exactly the records of a segment that a reader sees and whose cursors
/// reach the floor, in order, up to the first bad one.
pub proof fn law_replay_yields_seen(mem: Seq<u8>, pos: int, floor: u64)
    requires
        SEGMENT_HEADER_LEN <= pos <= mem.len(),
    ensures
        yielded_by(mem, pos, floor) == wal_laws::from_floor(
            mmap_segment_reader::walk(mem, pos).0,
            floor,
        ),
    decreases mem.len() - pos,
{
    lemma_read_on(mem, pos, floor);
    match wal::read_on(mem, pos, floor) {
        (Some(Ok(rec)), next) => {
            law_replay_yields_seen(mem, next, floor);
        },
        _ => {
            assert(yielded_by(mem, pos, floor) =~= wal_laws::from_floor(
                mmap_segment_reader::walk(mem, pos).0,
                floor,
            ));
        },
    }
}

/// A memory-mapped segment as it was written.
pub struct Mapped {
    pub size: int,
    pub first: u64,
    pub log: Seq<Entry>,
}

/// The memory of such a segment has room for all its entries.
pub open spec fn mapped_well(m: Mapped) -> bool {
    &&& SEGMENT_HEADER_LEN + mmap_segment_writer::entries_bytes(m.log).len() <= m.size <= u64::MAX
    &&& mmap_segment_writer::entries_fit(m.log)
}

/// What such a segment holds for readers.
pub open spec fn as_written(ms: Seq<Mapped>) -> Seq<Written> {
    ms.map_values(
        |m: Mapped|
            Written { first: m.first, created: 0, records: mmap_segment_reader::readable(m.log) },
    )
}

/// Everything that a replay yields out of the segments, one after the other.
pub open spec fn replayed(ms: Seq<Mapped>, floor: u64) -> Seq<record::RecordView>
    decreases ms.len(),
{
    if ms.len() == 0 {
        Seq::empty()
    } else {
        yielded_by(
            mmap_segment_writer::image_of(ms[0].size, ms[0].first, ms[0].log),
            SEGMENT_HEADER_LEN as int,
            floor,
        ) + replayed(ms.skip(1), floor)
    }
}

proof fn lemma_replayed(ms: Seq<Mapped>, floor: u64)
    requires
        forall|i: int| 0 <= i < ms.len() ==> mapped_well(#[trigger] ms[i]),
    ensures
        replayed(ms, floor) == wal_laws::floored(as_written(ms), floor),
    decreases ms.len(),
{
    if ms.len() > 0 {
        let m = ms[0];
        assert(mapped_well(ms[0]));
        let mem = mmap_segment_writer::image_of(m.size, m.first, m.log);
        mmap_segment_reader::lemma_walk_image(m.size, m.first, m.log);
        let tail = (SEGMENT_HEADER_LEN + mmap_segment_writer::entries_bytes(m.log).len()) as u64;
        record::lemma_header_bytes(SEGMENT_VERSION_V2, m.first, tail);
        law_replay_yields_seen(mem, SEGMENT_HEADER_LEN as int, floor);
        assert forall|i: int| 0 <= i < ms.skip(1).len() implies mapped_well(
            #[trigger] ms.skip(1)[i],
        ) by {
            assert(ms.skip(1)[i] == ms[i + 1]);
        }
        lemma_replayed(ms.skip(1), floor);
        assert(as_written(ms).skip(1) =~= as_written(ms.skip(1)));
        assert(as_written(ms)[0].records == mmap_segment_reader::readable(m.log));
    }
}

/// A read gives back what was written: a replay over segments whose cursors run on yields
/// every record from the floor on, once and in order, and none if the floor is beyond the
/// last one. The floor lies in the first segment that is read, or right behind it, or
/// anywhere behind it if there is no other.
pub proof fn law_read_gives_back_writes(ms: Seq<Mapped>, floor: u64)
    requires
        forall|i: int| 0 <= i < ms.len() ==> mapped_well(#[trigger] ms[i]),
        wal_laws::chained(as_written(ms)),
        ms.len() > 0,
        ms[0].first + wal_laws::all_records(as_written(ms)).len() <= u64::MAX,
        ms[0].first <= floor,
        ms.len() == 1 || floor <= ms[0].first + mmap_segment_reader::readable(ms[0].log).len(),
    ensures
        replayed(ms, floor) == wal_laws::tail_of(
            wal_laws::all_records(as_written(ms)),
            floor - ms[0].first,
        ),
{
    lemma_replayed(ms, floor);
    wal_laws::lemma_floored(as_written(ms), floor);
}

/// Appends, what ends them, and rotations keep the durable cursor from getting ahead of the
/// pending one, as long as records are appended at the pending cursor or beyond.
pub proof fn law_durable_stays_behind(
    v: WalView,
    rec: record::RecordView,
    io: AppendIo,
    len: nat,
    flushed: Result<(), IoKind>,
    rotation: RotateIo,
)
    requires
        v.durable <= v.pending,
        v.pending <= rec.cursor < u64::MAX,
    ensures
        ({
            let a = wal::appended(v, rec, io).0;
            a.durable <= a.pending
        }),
        ({
            let f = wal::finished(v, len, flushed).0;
            f.durable <= f.pending
        }),
        ({
            let r = wal::rotated(v, v.pending, rotation).0;
            r.durable <= r.pending
        }),
{
    let s = if v.cfg.fsync_policy == FsyncPolicy::Each {
        WalView { durable: v.pending, flushes: file_wal::next_count(v.flushes, 1), ..v }
    } else {
        v
    };
    lemma_pruned_keeps(
        WalView {
            appends: file_wal::next_count(s.appends, 1),
            append_bytes: file_wal::next_count(s.append_bytes, len),
            ..s
        },
    );
}

/// Subscribers never find the name of a segment that does not exist in the coordination
/// file: a segment is named there only after it was created, and the name is its own.
pub proof fn law_named_segment_exists(v: WalView, cursor: u64, io: RotateIo)
    ensures
        wal::rotated(v, cursor, io).0.coord != v.coord ==> io.created is Ok && wal::rotated(
            v,
            cursor,
            io,
        ).0.coord.0 == cursor,
        wal::started(v, cursor, io).0.coord != v.coord ==> io.created is Ok && wal::started(
            v,
            cursor,
            io,
        ).0.coord.0 == cursor,
        wal::rotated(v, cursor, io).1 is Ok ==> {
            let r = wal::rotated(v, cursor, io).0;
            r.active is Some && r.coord.0 == r.active->Some_0.first
        },
{
}

} // verus!
