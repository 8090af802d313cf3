//! What each operation does to the log over memory-mapped segments.

use crate::error::IoKind;
use crate::text;
use crate::text_laws;
use crate::wal::config::WalConfig;
use crate::wal::index;
use crate::wal::record;
use crate::wal::v2::active::ActiveCoord;
use crate::wal::v2::mmap_segment_reader;
use crate::wal::v2::mmap_segment_reader::{OutcomeView, ReaderError};
use crate::wal::v2::mmap_segment_writer;
use crate::wal::v2::mmap_segment_writer::{Entry, WriterError};
use crate::wal::v2::rotation;
use crate::wal::v2::rotation::{RotateError, RotateIo};
use crate::wal::v2::wal;
use crate::wal::v2::wal::{
    ActiveView, AppendIo, AppendPlan, WalError, WalRecovery, WalReplayer, WalView,
};
use crate::wal::wal as file_wal;
use vstd::prelude::*;

verus! {

// ── Retention ────────────────────────────────────────────────────────────────

/// What is left of `bytes` without `less` of them.
pub open spec fn without(bytes: int, less: int) -> int {
    if bytes >= less {
        bytes - less
    } else {
        0
    }
}

/// Retention goes one segment at a time: while the log is above its limit, the oldest one that
/// is not active goes, and its bytes are no longer counted.
pub proof fn law_retention_goes_one_by_one(v: WalView)
    ensures
        v.retained_bytes + v.active_bytes <= v.cfg.retention_bytes ==> v.pruned() == (
            v,
            Seq::<u64>::empty(),
        ),
        v.retained_bytes + v.active_bytes > v.cfg.retention_bytes ==> ({
            let spared = v.segments.len() > 0 && v.active is Some && v.active->Some_0.first
                == v.segments[0].0;
            let i = if spared {
                1int
            } else {
                0int
            };
            if i >= v.segments.len() {
                v.pruned() == (v, Seq::<u64>::empty())
            } else {
                let rest = WalView {
                    segments: v.segments.remove(i),
                    retained_bytes: without(
                        v.retained_bytes as int,
                        v.segments[i].1 as int,
                    ) as u64,
                    ..v
                };
                v.pruned() == (rest.pruned().0, seq![v.segments[i].0] + rest.pruned().1)
            }
        }),
{
    reveal_with_fuel(WalView::pruned, 2);
}

/// Where the active segment is the newest, or there is none, what is left of the segments is
/// all but the oldest ones, and those are as few as it takes.
proof fn lemma_pruned_from_the_oldest(v: WalView)
    requires
        index::ascending(v.segments),
        v.active is Some ==> v.segments.len() > 0 && v.segments.last().0 == v.active->Some_0.first,
    ensures
        ({
            let p = v.pruned();
            let n = p.1.len() as int;
            let s = v.segments;
            let limit = v.cfg.retention_bytes;
            &&& n <= s.len()
            &&& v.active is Some ==> n < s.len()
            &&& p.0 == (WalView {
                segments: s.skip(n),
                retained_bytes: p.0.retained_bytes,
                ..v
            })
            &&& p.0.retained_bytes == without(
                v.retained_bytes as int,
                index::total_size(s.take(n)) as int,
            )
            &&& p.1 == index::keys(s).take(n)
            &&& n > 0 ==> without(
                v.retained_bytes as int,
                index::total_size(s.take(n - 1)) as int,
            ) + v.active_bytes > limit
            &&& p.0.retained_bytes + v.active_bytes <= limit || n == s.len() || (n == s.len() - 1
                && v.active is Some)
        }),
    decreases v.segments.len(),
{
    let s = v.segments;
    let active = match v.active {
        Some(a) => Some(a.first),
        None => None,
    };
    let p = v.pruned();
    let n = p.1.len() as int;
    assert(s.take(0) =~= Seq::<(u64, u64)>::empty());
    assert(index::total_size(s.take(0)) == 0);
    if v.retained_bytes + v.active_bytes > v.cfg.retention_bytes && file_wal::oldest_other(
        s,
        active,
    ) is Some {
        if s.len() > 1 && v.active is Some {
            assert(s[0].0 < s[s.len() - 1].0);
        }
        let rest = WalView {
            segments: s.remove(0),
            retained_bytes: wal::sat_sub(v.retained_bytes, s[0].1),
            ..v
        };
        let r = rest.segments;
        assert(r =~= s.skip(1));
        assert(index::ascending(r)) by {
            assert forall|i: int, j: int| 0 <= i < j < r.len() implies (#[trigger] r[i]).0 < (
            #[trigger] r[j]).0 by {
                assert(r[i] == s[i + 1] && r[j] == s[j + 1]);
            }
        }
        lemma_pruned_from_the_oldest(rest);
        let q = rest.pruned();
        let m = q.1.len() as int;
        assert(n == m + 1);
        assert(r.skip(m) =~= s.skip(n));
        lemma_take_one_more(s, m);
        if m > 0 {
            lemma_take_one_more(s, m - 1);
        }
        assert(seq![s[0].0] + index::keys(r).take(m) =~= index::keys(s).take(n)) by {
            assert forall|i: int| 0 < i < n implies #[trigger] index::keys(s)[i] == index::keys(
                r,
            )[i - 1] by {
                assert(r[i - 1] == s[i]);
            }
        }
    } else {
        assert(s.skip(0) =~= s);
        assert(index::keys(s).take(0) =~= Seq::<u64>::empty());
    }
}

/// The first segment and `m` behind it.
proof fn lemma_take_one_more(s: Seq<(u64, u64)>, m: int)
    requires
        0 <= m < s.len(),
    ensures
        index::total_size(s.take(m + 1)) == s[0].1 + index::total_size(s.skip(1).take(m)),
{
    let one = seq![s[0]];
    assert(s.take(m + 1) =~= one + s.skip(1).take(m));
    index::law_total_is_the_sum(one, s.skip(1).take(m), 0, 0);
    assert(one =~= Seq::<(u64, u64)>::empty().push((s[0].0, s[0].1)));
    index::law_total_is_the_sum(Seq::empty(), Seq::empty(), s[0].0, s[0].1);
}

/// The end of an append deletes from the oldest segment on, as few as bring the log to its
/// retention limit and never the active one. A log within the limit loses nothing; and before
/// the last deletion the log was above the limit.
pub proof fn law_end_of_append_keeps_to_the_limit(
    v: WalView,
    len: nat,
    flushed: Result<(), IoKind>,
)
    requires
        index::ascending(v.segments),
        v.cfg.enabled,
        wal::finished(v, len, flushed).1 is Ok,
        v.active is Some ==> v.segments.len() > 0 && v.segments.last().0 == v.active->Some_0.first,
    ensures
        ({
            let w = wal::finished(v, len, flushed).0;
            let names = wal::finished(v, len, flushed).1->Ok_0;
            let n = names.len() as int;
            let s = v.segments;
            let limit = v.cfg.retention_bytes;
            &&& v.retained_bytes + v.active_bytes <= limit ==> n == 0 && w.segments == s
            &&& n <= s.len()
            &&& w.segments == s.skip(n)
            &&& names == index::keys(s).take(n)
            &&& w.active_bytes == v.active_bytes
            &&& w.retained_bytes == without(
                v.retained_bytes as int,
                index::total_size(s.take(n)) as int,
            )
            &&& n > 0 ==> without(
                v.retained_bytes as int,
                index::total_size(s.take(n - 1)) as int,
            ) + v.active_bytes > limit
            &&& w.retained_bytes + w.active_bytes <= limit || w.segments.len() == 0 || (
            w.segments.len() == 1 && v.active is Some)
            &&& v.active is Some ==> w.segments.len() > 0 && w.segments.last() == s.last()
        }),
{
    let each = v.cfg.fsync_policy is Each;
    let counted = WalView {
        durable: if each {
            v.pending
        } else {
            v.durable
        },
        flushes: if each {
            file_wal::next_count(v.flushes, 1)
        } else {
            v.flushes
        },
        appends: file_wal::next_count(v.appends, 1),
        append_bytes: file_wal::next_count(v.append_bytes, len),
        ..v
    };
    assert(wal::finished(v, len, flushed).0 == counted.pruned().0);
    assert(wal::finished(v, len, flushed).1->Ok_0 == counted.pruned().1);
    lemma_pruned_from_the_oldest(counted);
    law_retention_goes_one_by_one(counted);
}

/// The same in bytes on disk, where the bytes that are counted are those of the index: before
/// the last deletion the segments and the active one were larger than the limit together.
pub proof fn law_deletion_needs_the_bytes(v: WalView, len: nat, flushed: Result<(), IoKind>)
    requires
        index::ascending(v.segments),
        v.cfg.enabled,
        wal::finished(v, len, flushed).1 is Ok,
        v.active is Some ==> v.segments.len() > 0 && v.segments.last().0 == v.active->Some_0.first,
        v.retained_bytes == index::total_size(v.segments),
    ensures
        ({
            let w = wal::finished(v, len, flushed).0;
            let n = wal::finished(v, len, flushed).1->Ok_0.len() as int;
            &&& w.retained_bytes == index::total_size(w.segments)
            &&& n > 0 ==> index::total_size(v.segments.skip(n - 1)) + v.active_bytes
                > v.cfg.retention_bytes
        }),
{
    law_end_of_append_keeps_to_the_limit(v, len, flushed);
    let s = v.segments;
    let n = wal::finished(v, len, flushed).1->Ok_0.len() as int;
    assert(s =~= s.take(n) + s.skip(n));
    index::law_total_is_the_sum(s.take(n), s.skip(n), 0, 0);
    if n > 0 {
        assert(s =~= s.take(n - 1) + s.skip(n - 1));
        index::law_total_is_the_sum(s.take(n - 1), s.skip(n - 1), 0, 0);
    }
}

/// The end of an append counts it, and under the strictest policy makes everything durable. It
/// fails exactly when that policy asks for a flush of an active segment and the flush failed,
/// and then changes nothing.
pub proof fn law_end_of_append_is_counted(v: WalView, len: nat, flushed: Result<(), IoKind>)
    ensures
        ({
            let f = wal::finished(v, len, flushed);
            let w = f.0;
            let each = v.cfg.fsync_policy is Each;
            &&& !v.cfg.enabled ==> w == v && f.1 == Ok::<Seq<u64>, WalError>(Seq::empty())
            &&& f.1 is Err <==> v.cfg.enabled && each && v.active is Some && flushed is Err
            &&& f.1 is Err ==> w == v && f.1 == Err::<Seq<u64>, WalError>(
                WalError::Io(flushed->Err_0),
            )
            &&& v.cfg.enabled && f.1 is Ok ==> {
                &&& w.appends == (v.appends + 1) % 0x1_0000_0000_0000_0000
                &&& w.append_bytes == (v.append_bytes + len) % 0x1_0000_0000_0000_0000
                &&& w.durable == if each {
                    v.pending
                } else {
                    v.durable
                }
                &&& w.flushes == if each {
                    (v.flushes + 1) % 0x1_0000_0000_0000_0000
                } else {
                    v.flushes as int
                }
                &&& w == (WalView {
                    segments: w.segments,
                    retained_bytes: w.retained_bytes,
                    appends: w.appends,
                    append_bytes: w.append_bytes,
                    durable: w.durable,
                    flushes: w.flushes,
                    ..v
                })
            }
        }),
{
    let each = v.cfg.fsync_policy is Each;
    let counted = WalView {
        durable: if each {
            v.pending
        } else {
            v.durable
        },
        flushes: if each {
            file_wal::next_count(v.flushes, 1)
        } else {
            v.flushes
        },
        appends: file_wal::next_count(v.appends, 1),
        append_bytes: file_wal::next_count(v.append_bytes, len),
        ..v
    };
    if v.cfg.enabled && wal::finished(v, len, flushed).1 is Ok {
        assert(wal::finished(v, len, flushed).0 == counted.pruned().0);
        lemma_pruned_keeps(counted);
    }
}

/// Retention changes the segments and the bytes that are counted, and nothing else.
proof fn lemma_pruned_keeps(v: WalView)
    ensures
        v.pruned().0 == (WalView {
            segments: v.pruned().0.segments,
            retained_bytes: v.pruned().0.retained_bytes,
            ..v
        }),
    decreases v.segments.len(),
{
    let active = match v.active {
        Some(a) => Some(a.first),
        None => None,
    };
    if v.retained_bytes + v.active_bytes > v.cfg.retention_bytes {
        match file_wal::oldest_other(v.segments, active) {
            None => {},
            Some(i) => {
                lemma_pruned_keeps(
                    WalView {
                        segments: v.segments.remove(i),
                        retained_bytes: wal::sat_sub(v.retained_bytes, v.segments[i].1),
                        ..v
                    },
                );
            },
        }
    }
}

// ── Appending ────────────────────────────────────────────────────────────────

/// A record takes its 28 bytes of framing and its payload, rounded up to a multiple of eight.
pub proof fn law_record_is_padded(rec: record::RecordView, n: int)
    ensures
        mmap_segment_writer::aligned(n) % 8 == 0,
        n <= mmap_segment_writer::aligned(n) < n + 8,
        mmap_segment_writer::padded_len(rec) == mmap_segment_writer::aligned(
            28 + rec.payload.len() as int,
        ),
{
}

/// A segment without entries ends behind its header's 32 bytes; a record adds its padded
/// length and a marker its four bytes.
pub proof fn law_segment_grows_by_its_entries(
    first: u64,
    log: Seq<Entry>,
    rec: record::RecordView,
)
    ensures
        (ActiveView { first, log: Seq::empty() }).end() == 32,
        (ActiveView { first, log: log.push(Entry::Record(rec)) }).end() == (ActiveView {
            first,
            log,
        }).end() + mmap_segment_writer::padded_len(rec),
        (ActiveView { first, log: log.push(Entry::Skip) }).end() == (ActiveView {
            first,
            log,
        }).end() + 4,
{
    mmap_segment_writer::lemma_entries_push(log, Entry::Record(rec));
    mmap_segment_writer::lemma_entries_push(log, Entry::Skip);
    mmap_segment_writer::lemma_padded_record_len(rec);
    crate::codec::lemma_le_bytes_len(
        mmap_segment_reader::SKIP_TO_END_SENTINEL as nat,
        4,
    );
}

/// Where a log that is switched off takes an append without doing anything, and where one is
/// refused before anything is done.
pub proof fn law_append_is_refused(v: WalView, rec: record::RecordView, io: AppendIo)
    ensures
        ({
            let r = wal::appended(v, rec, io);
            let len = rec.payload.len();
            &&& !v.cfg.enabled ==> r == (v, Ok::<(), WalError>(()))
            &&& v.cfg.enabled && len > 16_777_188 ==> r == (
                v,
                Err::<(), WalError>(WalError::PayloadTooLarge { payload_len: len as usize }),
            )
            &&& v.cfg.enabled && len <= 16_777_188 && v.poisoned ==> r == (
                v,
                Err::<(), WalError>(WalError::Poisoned),
            )
            &&& wal::refusal(v, len) is None <==> v.cfg.enabled && len <= 16_777_188
                && !v.poisoned
            &&& wal::refusal(v, len) is Some ==> wal::refusal(v, len) == Some(r.1)
        }),
{
}

/// An active segment with room takes the record: it is then its last entry, the next cursor is
/// the one behind it, and nothing else changes.
pub proof fn law_record_goes_into_the_active_segment(
    v: WalView,
    rec: record::RecordView,
    io: AppendIo,
)
    requires
        v.cfg.enabled,
        !v.poisoned,
        rec.payload.len() <= 16_777_188,
        v.active is Some,
        v.active_bytes + mmap_segment_writer::padded_len(rec) <= v.cfg.segment_size_max,
    ensures
        ({
            let a = v.active->Some_0;
            wal::appended(v, rec, io) == (
                WalView {
                    active: Some(ActiveView { log: a.log.push(Entry::Record(rec)), ..a }),
                    active_bytes: (a.end() + mmap_segment_writer::padded_len(rec)) as u64,
                    pending: (rec.cursor + 1) as u64,
                    ..v
                },
                Ok::<(), WalError>(()),
            )
        }),
{
    let a = v.active->Some_0;
    law_segment_grows_by_its_entries(a.first, a.log, rec);
}

/// A segment that is started becomes the active one, holds no record, and its size is not
/// counted with those of the others. The coordination file names it and counts on. That
/// stands even where the file could not be updated; where the segment could not be created
/// nothing changes.
pub proof fn law_segment_is_started(v: WalView, cursor: u64, io: RotateIo)
    ensures
        ({
            let r = wal::started(v, cursor, io);
            let size = v.cfg.segment_size_max;
            let w = WalView {
                segments: index::with_entry(v.segments, cursor, 0),
                retained_bytes: without(
                    v.retained_bytes as int,
                    index::size_at(v.segments, cursor) as int,
                ) as u64,
                active_bytes: 32,
                active: Some(ActiveView { first: cursor, log: Seq::empty() }),
                vacant: None,
                coord: (cursor, ((v.coord.1 + 1) % 0x1_0000_0000_0000_0000) as u64),
                ..v
            };
            &&& size < 60 ==> r == (
                v,
                Err::<(), WalError>(
                    WalError::Writer(WriterError::SegmentTooSmall { segment_size: size, min: 60 }),
                ),
            )
            &&& size >= 60 && io.created is Err ==> r == (
                v,
                Err::<(), WalError>(WalError::Writer(WriterError::Io(io.created->Err_0))),
            )
            &&& size >= 60 && io.created is Ok && io.published is Err ==> r == (
                w,
                Err::<(), WalError>(WalError::Io(io.published->Err_0)),
            )
            &&& size >= 60 && io.created is Ok && io.published is Ok ==> r == (
                w,
                Ok::<(), WalError>(()),
            )
        }),
{
}

/// Rotation counts the bytes of the active segment with those of the others and starts one at
/// `cursor`. Where that fails the log is left without an active segment; one that held no
/// record is then the one to go on in.
pub proof fn law_rotation_starts_at_the_cursor(v: WalView, cursor: u64, io: RotateIo)
    requires
        v.active is Some,
    ensures
        ({
            let a = v.active->Some_0;
            let r = wal::rotated(v, cursor, io);
            let size = v.cfg.segment_size_max;
            let coord = (cursor, ((v.coord.1 + 1) % 0x1_0000_0000_0000_0000) as u64);
            let dropped = WalView {
                active: None,
                vacant: if a.log.len() == 0 {
                    Some(a.first)
                } else {
                    None
                },
                ..v
            };
            let noted = index::with_entry(v.segments, a.first, a.end() as u64);
            let bytes: int = if v.retained_bytes + a.end() as u64 <= u64::MAX {
                v.retained_bytes + a.end() as u64
            } else {
                u64::MAX as int
            };
            &&& size < 60 ==> r == (
                dropped,
                Err::<(), WalError>(
                    WalError::Rotation(
                        RotateError::Writer(
                            WriterError::SegmentTooSmall { segment_size: size, min: 60 },
                        ),
                    ),
                ),
            )
            &&& size >= 60 && io.created is Err ==> r == (
                dropped,
                Err::<(), WalError>(
                    WalError::Rotation(RotateError::Writer(WriterError::Io(io.created->Err_0))),
                ),
            )
            &&& size >= 60 && io.created is Ok && io.published is Err ==> r == (
                WalView { coord, ..dropped },
                Err::<(), WalError>(WalError::Rotation(RotateError::Io(io.published->Err_0))),
            )
            &&& size >= 60 && io.created is Ok && io.published is Ok ==> r == (
                WalView {
                    segments: index::with_entry(noted, cursor, 0),
                    retained_bytes: without(bytes, index::size_at(noted, cursor) as int) as u64,
                    active_bytes: 32,
                    active: Some(ActiveView { first: cursor, log: Seq::empty() }),
                    vacant: None,
                    coord,
                    ..v
                },
                Ok::<(), WalError>(()),
            )
        }),
{
}

/// A log without an active segment first starts one at the cursor of the record; where that
/// fails, so does the append. Otherwise it goes on as if that segment had been there.
pub proof fn law_first_record_starts_a_segment(v: WalView, rec: record::RecordView, io: AppendIo)
    requires
        v.cfg.enabled,
        !v.poisoned,
        rec.payload.len() <= 16_777_188,
        v.active is None,
    ensures
        ({
            let first = wal::started(v, rec.cursor, io.create);
            if first.1 is Err {
                wal::appended(v, rec, io) == first
            } else {
                wal::appended(v, rec, io) == wal::appended(first.0, rec, io)
            }
        }),
{
}

/// A record that an active segment has no room for makes the log rotate, and is then the first
/// of the segment that starts at its cursor. One that no segment has room for makes it rotate
/// once more and is refused.
pub proof fn law_full_segment_is_rotated(v: WalView, rec: record::RecordView, io: AppendIo)
    requires
        v.cfg.enabled,
        !v.poisoned,
        rec.payload.len() <= 16_777_188,
        v.active is Some,
        v.active_bytes + mmap_segment_writer::padded_len(rec) > v.cfg.segment_size_max,
    ensures
        ({
            let r = wal::appended(v, rec, io);
            let x = wal::rotated(v, rec.cursor, io.rotate);
            let len = mmap_segment_writer::padded_len(rec);
            &&& x.1 is Err ==> r == x
            &&& x.1 is Ok && 32 + len <= v.cfg.segment_size_max ==> r == (
                WalView {
                    active: Some(
                        ActiveView { first: rec.cursor, log: seq![Entry::Record(rec)] },
                    ),
                    active_bytes: (32 + len) as u64,
                    pending: (rec.cursor + 1) as u64,
                    ..x.0
                },
                Ok::<(), WalError>(()),
            )
            &&& x.1 is Ok && 32 + len > v.cfg.segment_size_max ==> {
                let y = wal::rotated(x.0, rec.cursor, io.retry);
                &&& y.1 is Err ==> r == y
                &&& y.1 is Ok ==> r == (
                    y.0,
                    Err::<(), WalError>(
                        WalError::PayloadTooLarge { payload_len: rec.payload.len() as usize },
                    ),
                )
            }
        }),
{
    law_segment_grows_by_its_entries(rec.cursor, Seq::empty(), rec);
    assert(Seq::<Entry>::empty().push(Entry::Record(rec)) =~= seq![Entry::Record(rec)]);
    law_rotation_starts_at_the_cursor(v, rec.cursor, io.rotate);
    let x = wal::rotated(v, rec.cursor, io.rotate);
    if x.1 is Ok {
        law_rotation_starts_at_the_cursor(x.0, rec.cursor, io.retry);
    }
}

/// The marker that ends a segment stands at its end, wherever it fits.
pub proof fn law_marker_stands_at_the_end(end: int, size: usize)
    requires
        0 <= end,
    ensures
        wal::marker_at(end, size) is Some <==> end + 4 <= size,
        wal::marker_at(end, size) is Some ==> wal::marker_at(end, size)->Some_0.at == end
            && wal::marker_at(end, size)->Some_0.tail == end + 4,
{
}

/// A plan asks for exactly the segments that the append will start: the first one where none
/// is active, another where the record finds no room, and once more where no segment has room
/// for it. Each starts at the cursor of the record.
pub proof fn law_plan_is_what_the_append_needs(
    v: WalView,
    cursor: u64,
    rec: record::RecordView,
    plan: AppendPlan,
)
    requires
        wal::plans(v, cursor, rec.payload.len(), plan),
    ensures
        ({
            let taken = v.cfg.enabled && rec.payload.len() <= 16_777_188 && !v.poisoned;
            let len = mmap_segment_writer::padded_len(rec);
            let size = v.cfg.segment_size_max;
            &&& plan.create is Some <==> taken && v.active is None
            &&& plan.rotate is Some <==> taken && (if v.active is Some {
                v.active_bytes + len > size
            } else {
                32 + len > size
            })
            &&& plan.retry is Some <==> taken && 32 + len > size
            &&& plan.create is Some ==> {
                let n = plan.create->Some_0;
                &&& n.first_cursor == cursor
                &&& n.reuse <==> v.vacant == Some(cursor) && index::has_key(v.segments, cursor)
            }
            &&& plan.rotate is Some ==> {
                let p = plan.rotate->Some_0;
                let end = if v.active is Some {
                    v.active->Some_0.end() as int
                } else {
                    32int
                };
                &&& p.old == if v.active is Some {
                    v.active->Some_0.first
                } else {
                    cursor
                }
                &&& p.marker == wal::marker_at(end, size)
                &&& p.new.first_cursor == cursor
                &&& p.new.reuse <==> v.active is None || (v.active->Some_0.log.len() == 0
                    && v.active->Some_0.first == cursor)
            }
            &&& plan.retry is Some ==> {
                let p = plan.retry->Some_0;
                &&& p.old == cursor
                &&& p.marker == wal::marker_at(32, size)
                &&& p.new.first_cursor == cursor
                &&& p.new.reuse
            }
        }),
{
}

// ── Opening and reading ──────────────────────────────────────────────────────

/// A log that was found goes on behind the last record of its newest segment, or where that
/// starts if it has none; an empty one at zero. Only a segment without a record is gone on in.
pub proof fn law_found_log_goes_on(found: WalRecovery)
    ensures
        found.segments().len() == 0 ==> found.next_cursor_is() == 0 && found.vacant_is() is None
            && !found.needs_segment_is(),
        found.segments().len() > 0 && found.last() is None ==> found.next_cursor_is()
            == found.segments().last().0 && found.vacant_is() == Some(found.segments().last().0)
            && !found.needs_segment_is(),
        found.segments().len() > 0 && found.last() is Some ==> found.next_cursor_is()
            == found.last()->Some_0 + 1 && found.vacant_is() is None && (found.needs_segment_is()
            <==> found.last()->Some_0 + 1 != found.segments().last().0),
{
}

/// A log that is taken up has the segments that were found and their bytes, no active one, and
/// counts from zero. Everything that was found is durable.
pub proof fn law_found_log_is_taken_up(cfg: WalConfig, found: WalRecovery, coord: ActiveCoord)
    requires
        found.next_cursor_is() <= u64::MAX,
    ensures
        ({
            let w = wal::recovered(cfg, found, coord);
            &&& w.cfg == cfg
            &&& w.segments == found.segments()
            &&& index::total_size(found.segments()) <= u64::MAX ==> w.retained_bytes
                == index::total_size(found.segments())
            &&& index::total_size(found.segments()) > u64::MAX ==> w.retained_bytes == u64::MAX
            &&& w.active_bytes == 0
            &&& w.active is None
            &&& w.vacant == found.vacant_is()
            &&& w.coord == (coord.first(), coord.count())
            &&& w.pending == found.next_cursor_is()
            &&& w.durable == found.next_cursor_is()
            &&& !w.poisoned
            &&& w.appends == 0
            &&& w.append_bytes == 0
            &&& w.flushes == 0
            &&& w.named(w.pending) == (WalView {
                coord: (w.pending, ((w.coord.1 + 1) % 0x1_0000_0000_0000_0000) as u64),
                ..w
            })
        }),
{
}

/// The last record of a segment is the last one that can be read from behind its header on.
pub proof fn law_last_record_is_the_last_read(mem: Seq<u8>)
    ensures
        ({
            let records = mmap_segment_reader::walk(mem, 32).0;
            &&& wal::last_intact(mem) is Some <==> mmap_segment_reader::opened(mem) is Ok
                && records.len() > 0
            &&& wal::last_intact(mem) is Some ==> wal::last_intact(mem)->Some_0
                == records[records.len() - 1].cursor
        }),
{
}

/// A replay is refused exactly when its cursor lies before the oldest segment, and the error
/// names that. Otherwise it starts at the last segment that starts at its cursor or before,
/// and goes on with all behind it.
pub proof fn law_replay_starts_at_its_cursor(
    segments: Seq<(u64, u64)>,
    cursor: u64,
    r: Result<WalReplayer, WalError>,
)
    requires
        index::ascending(segments),
        wal::replays(segments, cursor, r),
    ensures
        segments.len() == 0 ==> r is Ok && r->Ok_0.ahead().len() == 0,
        r is Err <==> segments.len() > 0 && cursor < segments[0].0,
        r is Err ==> r == Err::<WalReplayer, WalError>(
            WalError::CursorTooOld { requested: cursor, oldest: segments[0].0 },
        ),
        r is Ok ==> r->Ok_0.wf() && r->Ok_0.floor() == cursor && r->Ok_0.reading() is None,
        r is Ok && segments.len() > 0 ==> ({
            let ahead = r->Ok_0.ahead();
            let from = segments.len() - ahead.len();
            &&& 0 < ahead.len() <= segments.len()
            &&& forall|i: int| 0 <= i < ahead.len() ==> #[trigger] ahead[i] == segments[from + i].0
            &&& ahead[0] <= cursor
            &&& ahead.len() > 1 ==> ahead[1] > cursor
        }),
{
    if segments.len() > 0 && cursor >= segments[0].0 {
        index::lemma_containing(segments, cursor);
        let c = index::containing(segments, cursor);
        let tail = segments.skip(c);
        assert(r->Ok_0.ahead() == index::keys(tail));
        assert forall|i: int| 0 <= i < tail.len() implies #[trigger] index::keys(tail)[i]
            == segments[c + i].0 by {
            assert(tail[i] == segments[c + i]);
        }
    } else if segments.len() == 0 {
        index::lemma_place_of(segments, cursor);
        assert(index::keys(segments.skip(0)).len() == 0);
    }
}

/// A replay gives the records of a segment one by one and leaves out those before its cursor.
/// What cannot be read is handed on, and the end of what was written ends it.
pub proof fn law_replay_reads_one_by_one(mem: Seq<u8>, pos: int, floor: u64)
    requires
        32 <= pos <= mem.len(),
    ensures
        ({
            let got = wal::read_on(mem, pos, floor);
            let next = mmap_segment_reader::step(mem, pos).1;
            match mmap_segment_reader::step(mem, pos).0 {
                OutcomeView::Record(rec) => if rec.cursor >= floor {
                    got == (Some(Ok::<record::RecordView, ReaderError>(rec)), next)
                } else {
                    got == wal::read_on(mem, next, floor)
                },
                OutcomeView::Failed(e) => got == (
                    Some(Err::<record::RecordView, ReaderError>(e)),
                    next,
                ),
                _ => got.0 is None && got.1 == next,
            }
        }),
{
    reveal_with_fuel(wal::read_on, 2);
    mmap_segment_reader::lemma_step_advances(mem, pos);
}

// ── Names ────────────────────────────────────────────────────────────────────

/// The name of a segment is twenty digits that have its first cursor as their value, and the
/// extension. What is read of a name is the number before the extension, and nothing of a name
/// without it.
pub proof fn law_name_is_its_cursor(first_cursor: u64, stem: Seq<char>, name: Seq<char>)
    ensures
        rotation::name_of(first_cursor).len() == 24,
        rotation::name_of(first_cursor).skip(20) == ".seg"@,
        text::digits_value(rotation::name_of(first_cursor).take(20)) == first_cursor,
        rotation::cursor_of_name(stem + ".seg"@) == text::parsed_u64(stem),
        name.len() < 4 || name.skip(name.len() - 4) != ".seg"@ ==> rotation::cursor_of_name(name)
            is None,
{
    reveal_strlit(".seg");
    let n = rotation::name_of(first_cursor);
    text_laws::law_fixed_decimal_reads_back(first_cursor);
    assert(n.take(20) =~= text::fixed_decimal(first_cursor as nat, 20));
    assert(n.skip(20) =~= ".seg"@);
    let full = stem + ".seg"@;
    assert(full.skip(full.len() - 4) =~= ".seg"@);
    assert(full.take(full.len() - 4) =~= stem);
}

/// The newest segment of a listing is the one with the highest cursor in its name; there is
/// none exactly when no name has one.
pub proof fn law_newest_has_the_highest_cursor(
    names: Seq<Seq<char>>,
    r: Option<u64>,
    i: int,
)
    requires
        rotation::is_newest(names, r),
        0 <= i < names.len(),
    ensures
        r is None ==> rotation::cursor_of_name(names[i]) is None,
        r is Some && rotation::cursor_of_name(names[i]) is Some ==> rotation::cursor_of_name(
            names[i],
        )->Some_0 <= r->Some_0,
        r is Some ==> exists|k: int|
            0 <= k < names.len() && rotation::cursor_of_name(#[trigger] names[k]) == r,
{
}

/// The names of a listing are taken as they are, in order.
pub proof fn law_listing_is_its_names(names: Seq<String>, i: int)
    requires
        0 <= i < names.len(),
    ensures
        rotation::names_view(names).len() == names.len(),
        rotation::names_view(names)[i] == names[i]@,
{
}

} // verus!
