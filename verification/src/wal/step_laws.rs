//! What each operation does to the log.

use crate::error::IoKind;
use crate::wal::checksum;
use crate::wal::config;
use crate::wal::flusher;
use crate::wal::flusher::FlusherView;
use crate::wal::index;
use crate::wal::record;
use crate::wal::segment_reader;
use crate::wal::segment_writer;
use crate::wal::segment_writer::WriterError;
use crate::wal::wal;
use crate::wal::wal::{
    ActiveView, AppendIo, ReadingView, WalError, WalRecovery, WalReplayer, WalView,
};
use vstd::prelude::*;

verus! {

// ── Retention ────────────────────────────────────────────────────────────────

/// Retention goes one segment at a time: while the log is above its limit, the oldest one that
/// is not active goes.
pub proof fn law_retention_goes_one_by_one(s: Seq<(u64, u64)>, active: Option<u64>, cap: u64)
    ensures
        index::total_size(s) <= cap ==> wal::retained(s, active, cap) == (s, Seq::<u64>::empty()),
        index::total_size(s) > cap ==> ({
            let i = if s.len() > 0 && active == Some(s[0].0) {
                1int
            } else {
                0int
            };
            if i >= s.len() {
                wal::retained(s, active, cap) == (s, Seq::<u64>::empty())
            } else {
                let rest = wal::retained(s.remove(i), active, cap);
                wal::retained(s, active, cap) == (rest.0, seq![s[i].0] + rest.1)
            }
        }),
{
    reveal_with_fuel(wal::retained, 2);
}

/// That `left` and `names` are what a limit leaves and deletes of the segments. The one at
/// `at` is spared; the others go from the oldest on, and no more than it takes.
pub open spec fn left_and_deleted(
    s: Seq<(u64, u64)>,
    at: Option<int>,
    cap: u64,
    left: Seq<(u64, u64)>,
    names: Seq<u64>,
) -> bool {
    let n = names.len() as int;
    let most = if at is Some {
        s.len() - 1
    } else {
        s.len() as int
    };
    &&& index::total_size(s) <= cap ==> n == 0
    &&& n <= most
    &&& index::total_size(left) <= cap || n == most
    &&& at is Some && at->Some_0 < n ==> {
        &&& left == seq![s[at->Some_0]] + s.skip(n + 1)
        &&& names == index::keys(s.remove(at->Some_0)).take(n)
        &&& index::total_size(seq![s[at->Some_0]] + s.skip(n)) > cap
    }
    &&& at is None || n <= at->Some_0 ==> {
        &&& left == s.skip(n)
        &&& names == index::keys(s).take(n)
        &&& n > 0 ==> index::total_size(s.skip(n - 1)) > cap
    }
}

/// The oldest segment goes first.
proof fn lemma_oldest_goes(
    s: Seq<(u64, u64)>,
    at: Option<int>,
    cap: u64,
    left: Seq<(u64, u64)>,
    names: Seq<u64>,
)
    requires
        s.len() > 0,
        index::total_size(s) > cap,
        at is Some ==> 0 < at->Some_0 < s.len(),
        left_and_deleted(
            s.skip(1),
            if at is Some {
                Some(at->Some_0 - 1)
            } else {
                None
            },
            cap,
            left,
            names,
        ),
    ensures
        left_and_deleted(s, at, cap, left, seq![s[0].0] + names),
{
    let rest = s.skip(1);
    let m = names.len() as int;
    let n = m + 1;
    if at is Some && at->Some_0 < n {
        let a = at->Some_0;
        let others = s.remove(a);
        assert(rest[a - 1] == s[a]);
        assert(others.skip(1) =~= rest.remove(a - 1));
        assert(rest.skip(m + 1) =~= s.skip(n + 1));
        assert(rest.skip(m) =~= s.skip(n));
        lemma_one_key_more(others, m);
    } else {
        assert(rest.skip(m) =~= s.skip(n));
        if m > 0 {
            assert(rest.skip(m - 1) =~= s.skip(n - 1));
        } else {
            assert(s.skip(0) =~= s);
        }
        lemma_one_key_more(s, m);
    }
}

/// Where the oldest segment is spared, the one behind it goes.
proof fn lemma_second_goes(
    s: Seq<(u64, u64)>,
    cap: u64,
    left: Seq<(u64, u64)>,
    names: Seq<u64>,
)
    requires
        s.len() > 1,
        index::total_size(s) > cap,
        left_and_deleted(s.remove(1), Some(0), cap, left, names),
    ensures
        left_and_deleted(s, Some(0), cap, left, seq![s[1].0] + names),
{
    let rest = s.remove(1);
    let m = names.len() as int;
    let n = m + 1;
    let others = s.remove(0);
    assert(rest[0] == s[0]);
    assert(others.skip(1) =~= rest.remove(0));
    if m == 0 {
        assert(rest.skip(0) =~= seq![s[0]] + s.skip(2));
        assert(seq![s[0]] + s.skip(1) =~= s);
        assert(names =~= index::keys(others.skip(1)).take(0));
    } else {
        assert(rest.skip(m + 1) =~= s.skip(n + 1));
        assert(rest.skip(m) =~= s.skip(n));
    }
    lemma_one_key_more(others, m);
}

/// What retention leaves and deletes, to the segment. `at` is where the active segment
/// stands in the index, if it stands there.
pub proof fn law_retention_is_exact(
    s: Seq<(u64, u64)>,
    active: Option<u64>,
    cap: u64,
    at: Option<int>,
)
    requires
        index::ascending(s),
        at is Some ==> 0 <= at->Some_0 < s.len() && active == Some(s[at->Some_0].0),
        at is None ==> forall|i: int| 0 <= i < s.len() ==> active != Some((#[trigger] s[i]).0),
    ensures
        left_and_deleted(
            s,
            at,
            cap,
            wal::retained(s, active, cap).0,
            wal::retained(s, active, cap).1,
        ),
    decreases s.len(),
{
    if index::total_size(s) > cap && wal::oldest_other(s, active) is Some {
        let p = wal::oldest_other(s, active)->Some_0;
        let rest = s.remove(p);
        assert(p == 0 || p == 1);
        assert(at == Some(0int) <==> p == 1) by {
            if p == 1 {
                assert(active == Some(s[0].0));
                if at is Some && at->Some_0 > 0 {
                    assert(s[0].0 < s[at->Some_0].0);
                }
            }
        }
        assert(index::ascending(rest)) by {
            assert forall|i: int, j: int| 0 <= i < j < rest.len() implies (#[trigger] rest[i]).0 < (
            #[trigger] rest[j]).0 by {
                let x = if i < p {
                    i
                } else {
                    i + 1
                };
                let y = if j < p {
                    j
                } else {
                    j + 1
                };
                assert(rest[i] == s[x] && rest[j] == s[y]);
            }
        }
        let q = wal::retained(rest, active, cap);
        if p == 1 {
            assert(rest[0] == s[0]);
            law_retention_is_exact(rest, active, cap, at);
            lemma_second_goes(s, cap, q.0, q.1);
        } else {
            assert(rest =~= s.skip(1));
            let next: Option<int> = if at is Some {
                Some(at->Some_0 - 1)
            } else {
                None
            };
            if next is Some {
                assert(rest[next->Some_0] == s[at->Some_0]);
            } else {
                assert forall|i: int| 0 <= i < rest.len() implies active != Some(
                    (#[trigger] rest[i]).0,
                ) by {
                    assert(rest[i] == s[i + 1]);
                }
            }
            law_retention_is_exact(rest, active, cap, next);
            lemma_oldest_goes(s, at, cap, q.0, q.1);
        }
    } else {
        assert(s.skip(0) =~= s);
        assert(index::keys(s).take(0) =~= Seq::<u64>::empty());
    }
}

/// The first key and `m` behind it.
proof fn lemma_one_key_more(s: Seq<(u64, u64)>, m: int)
    requires
        0 <= m < s.len(),
    ensures
        seq![s[0].0] + index::keys(s.skip(1)).take(m) == index::keys(s).take(m + 1),
{
    let a = seq![s[0].0] + index::keys(s.skip(1)).take(m);
    let b = index::keys(s).take(m + 1);
    assert forall|i: int| 0 <= i < m + 1 implies #[trigger] a[i] == b[i] by {
        if i > 0 {
            assert(s.skip(1)[i - 1] == s[i]);
        }
    }
    assert(a =~= b);
}

/// The end of an append deletes from the oldest segment on, as few as bring the log to its
/// retention limit and never the active one. A log within the limit loses nothing; and
/// before the last deletion the log was above the limit.
pub proof fn law_end_of_append_keeps_to_the_limit(
    v: WalView,
    len: nat,
    synced: Result<(), IoKind>,
)
    requires
        index::ascending(v.segments),
        v.cfg.enabled,
        wal::finished(v, len, synced).1 is Ok,
        v.active is Some ==> v.segments.len() > 0 && v.segments.last().0 == v.active->Some_0.first,
    ensures
        ({
            let left = wal::finished(v, len, synced).0.segments;
            let names = wal::finished(v, len, synced).1->Ok_0;
            let n = names.len();
            let limit = v.cfg.retention_bytes;
            &&& index::total_size(v.segments) <= limit ==> n == 0 && left == v.segments
            &&& n <= v.segments.len()
            &&& left == v.segments.skip(n as int)
            &&& names == index::keys(v.segments).take(n as int)
            &&& n > 0 ==> index::total_size(v.segments.skip(n - 1)) > limit
            &&& index::total_size(left) <= limit || left.len() == 0 || (left.len() == 1
                && v.active is Some)
            &&& v.active is Some ==> left.len() > 0 && left.last() == v.segments.last()
        }),
{
    let active: Option<u64> = match v.active {
        Some(a) => Some(a.first),
        None => None,
    };
    let at: Option<int> = match v.active {
        Some(_) => Some(v.segments.len() - 1),
        None => None,
    };
    law_retention_is_exact(v.segments, active, v.cfg.retention_bytes, at);
    let names = wal::finished(v, len, synced).1->Ok_0;
    assert(v.segments.skip(0) =~= v.segments);
    assert(names == wal::retained(v.segments, active, v.cfg.retention_bytes).1);
}

/// Without any demand on the index: a log within its retention limit loses nothing at the end
/// of an append, and one that loses a segment was above the limit before.
pub proof fn law_log_within_its_limit_stays(v: WalView, len: nat, synced: Result<(), IoKind>)
    ensures
        ({
            let f = wal::finished(v, len, synced);
            &&& index::total_size(v.segments) <= v.cfg.retention_bytes ==> f.0.segments
                == v.segments && (f.1 is Ok ==> f.1->Ok_0.len() == 0)
            &&& f.1 is Ok && f.1->Ok_0.len() > 0 ==> index::total_size(v.segments)
                > v.cfg.retention_bytes
            &&& f.1 is Ok && f.1->Ok_0.len() == 0 ==> f.0.segments == v.segments
        }),
{
}

/// The end of an append counts it, and under the strictest policy makes it durable. It fails
/// exactly when that policy asks for a sync and the sync failed, and then changes nothing.
pub proof fn law_end_of_append_is_counted(v: WalView, len: nat, synced: Result<(), IoKind>)
    ensures
        ({
            let f = wal::finished(v, len, synced);
            let w = f.0;
            let each = v.cfg.fsync_policy is Each;
            &&& !v.cfg.enabled ==> w == v && f.1 == Ok::<Seq<u64>, WalError>(Seq::empty())
            &&& f.1 is Err <==> v.cfg.enabled && each && synced is Err
            &&& f.1 is Err ==> w == v && f.1 == Err::<Seq<u64>, WalError>(
                WalError::Writer(WriterError::Io(synced->Err_0)),
            )
            &&& v.cfg.enabled && f.1 is Ok ==> {
                &&& w.cfg == v.cfg
                &&& w.resume == v.resume
                &&& w.poisoned == v.poisoned
                &&& w.appends == (v.appends + 1) % 0x1_0000_0000_0000_0000
                &&& w.append_bytes == (v.append_bytes + len) % 0x1_0000_0000_0000_0000
                &&& !each || v.active is None ==> w.active == v.active && w.durable == v.durable
                    && w.flushes == v.flushes
                &&& each && v.active is Some && v.pending() <= u64::MAX ==> {
                    let a = v.active->Some_0;
                    &&& w.active == Some(ActiveView { durable: w.durable, ..a })
                    &&& w.durable == a.first + a.log.len()
                    &&& w.flushes == (v.flushes + 1) % 0x1_0000_0000_0000_0000
                }
            }
        }),
{
}

// ── Appending ────────────────────────────────────────────────────────────────

/// A segment without records has its header's 32 bytes; each record adds 28 and its payload.
/// Its next cursor is as many behind the first as it has records.
pub proof fn law_segment_grows_by_its_records(
    first: u64,
    durable: u64,
    log: Seq<record::RecordView>,
    rec: record::RecordView,
    len: nat,
    cap: usize,
)
    ensures
        ({
            let empty = ActiveView { first, log: Seq::empty(), durable };
            let a = ActiveView { first, log, durable };
            let b = ActiveView { first, log: log.push(rec), durable };
            &&& empty.size() == 32
            &&& b.size() == a.size() + 28 + rec.payload.len()
            &&& a.next() == first + log.len()
            &&& a.overflows(len, cap) <==> a.size() + 28 + len > cap
        }),
{
    segment_writer::lemma_encoded_push(log, rec);
    record::lemma_sealed_record_len(rec, checksum::crc32c_of(record::record_body(rec)));
}

/// Where a log that is switched off takes an append without doing anything, and where one is
/// refused before anything is done.
pub proof fn law_append_is_refused(v: WalView, rec: record::RecordView, io: AppendIo)
    ensures
        ({
            let r = wal::appended(v, rec, io);
            let len = rec.payload.len();
            &&& !v.cfg.enabled ==> r == (v, Ok::<(), WalError>(()))
            &&& v.cfg.enabled && len > 16_777_188 ==> r == (
                v,
                Err::<(), WalError>(WalError::PayloadTooLarge { payload_len: len as usize }),
            )
            &&& v.cfg.enabled && len <= 16_777_188 && v.poisoned ==> r == (
                v,
                Err::<(), WalError>(WalError::Poisoned),
            )
            &&& wal::refusal(v, len) is None <==> v.cfg.enabled && len <= 16_777_188
                && !v.poisoned
            &&& !v.cfg.enabled ==> wal::refusal(v, len) == Some(Ok::<(), WalError>(()))
            &&& wal::refusal(v, len) is Some ==> wal::refusal(v, len) == Some(r.1)
        }),
{
}

/// An active segment with room takes the record that comes next, and no other. It is then its
/// last record, the index has its new size, and nothing else changes. Where the write fails
/// nothing changes.
pub proof fn law_record_goes_into_the_active_segment(
    v: WalView,
    rec: record::RecordView,
    io: AppendIo,
)
    requires
        v.cfg.enabled,
        !v.poisoned,
        rec.payload.len() <= 16_777_188,
        v.active is Some,
        v.active->Some_0.size() + 28 + rec.payload.len() <= v.cfg.segment_size_max,
    ensures
        ({
            let a = v.active->Some_0;
            let r = wal::appended(v, rec, io);
            let size = a.size() + 28 + rec.payload.len();
            &&& rec.cursor != a.first + a.log.len() ==> r == (
                v,
                Err::<(), WalError>(
                    WalError::Writer(
                        WriterError::CursorRegressed {
                            got: rec.cursor,
                            expected: (a.first + a.log.len()) as u64,
                        },
                    ),
                ),
            )
            &&& rec.cursor == a.first + a.log.len() && io.written is Err ==> r == (
                v,
                Err::<(), WalError>(WalError::Writer(WriterError::Io(io.written->Err_0))),
            )
            &&& rec.cursor == a.first + a.log.len() && io.written is Ok ==> r == (
                WalView {
                    active: Some(ActiveView { log: a.log.push(rec), ..a }),
                    segments: index::with_entry(v.segments, a.first, size as u64),
                    ..v
                },
                Ok::<(), WalError>(()),
            )
        }),
{
    let a = v.active->Some_0;
    law_segment_grows_by_its_records(
        a.first,
        a.durable,
        a.log,
        rec,
        rec.payload.len(),
        v.cfg.segment_size_max,
    );
}

/// Rotation notes the size of the active segment and starts one at `cursor`. Where closing the
/// old one fails, or creating the new one, the log is left without an active segment and goes
/// on where it was.
pub proof fn law_rotation_starts_at_the_cursor(
    v: WalView,
    cursor: u64,
    closed: Result<(), IoKind>,
    created: Result<(), IoKind>,
)
    requires
        v.active is Some,
    ensures
        ({
            let a = v.active->Some_0;
            let r = wal::rotated(v, cursor, closed, created);
            let next = (a.first + a.log.len()) as u64;
            let noted = index::with_entry(v.segments, a.first, a.size() as u64);
            &&& closed is Err ==> r == (
                WalView { active: None, resume: next, ..v },
                Err::<(), WalError>(WalError::Writer(WriterError::Io(closed->Err_0))),
            )
            &&& closed is Ok && created is Err ==> r == (
                WalView { active: None, resume: next, segments: noted, ..v },
                Err::<(), WalError>(WalError::Writer(WriterError::Io(created->Err_0))),
            )
            &&& closed is Ok && created is Ok ==> r == (
                WalView {
                    active: Some(ActiveView { first: cursor, log: Seq::empty(), durable: cursor }),
                    resume: next,
                    segments: index::with_entry(noted, cursor, 32),
                    ..v
                },
                Ok::<(), WalError>(()),
            )
        }),
{
}

/// A record that an active segment has no room for makes the log rotate, and is then the first
/// of the segment that starts at its cursor.
pub proof fn law_full_segment_is_rotated(v: WalView, rec: record::RecordView, io: AppendIo)
    requires
        v.cfg.enabled,
        !v.poisoned,
        rec.payload.len() <= 16_777_188,
        v.active is Some,
        v.active->Some_0.size() + 28 + rec.payload.len() > v.cfg.segment_size_max,
    ensures
        ({
            let r = wal::appended(v, rec, io);
            let q = wal::rotated(v, rec.cursor, io.closed, io.rotated);
            &&& q.1 is Err ==> r == q
            &&& q.1 is Ok && io.written is Err ==> r == (
                q.0,
                Err::<(), WalError>(WalError::Writer(WriterError::Io(io.written->Err_0))),
            )
            &&& q.1 is Ok && io.written is Ok ==> r == (
                WalView {
                    active: Some(
                        ActiveView { first: rec.cursor, log: seq![rec], durable: rec.cursor },
                    ),
                    segments: index::with_entry(
                        q.0.segments,
                        rec.cursor,
                        (60 + rec.payload.len()) as u64,
                    ),
                    ..q.0
                },
                Ok::<(), WalError>(()),
            )
        }),
{
    lemma_first_record(rec);
}

/// What the first record makes of a segment.
proof fn lemma_first_record(rec: record::RecordView)
    ensures
        Seq::<record::RecordView>::empty().push(rec) == seq![rec],
        (ActiveView { first: rec.cursor, log: seq![rec], durable: rec.cursor }).size() == 60
            + rec.payload.len(),
        (ActiveView { first: rec.cursor, log: Seq::empty(), durable: rec.cursor }).size() == 32,
{
    law_segment_grows_by_its_records(rec.cursor, rec.cursor, Seq::empty(), rec, 0, 0);
    assert(Seq::<record::RecordView>::empty().push(rec) =~= seq![rec]);
}

/// A log without an active segment starts one at the cursor of the record. A record that is
/// too large for any segment makes it rotate once more.
pub proof fn law_first_record_starts_a_segment(v: WalView, rec: record::RecordView, io: AppendIo)
    requires
        v.cfg.enabled,
        !v.poisoned,
        rec.payload.len() <= 16_777_188,
        v.active is None,
    ensures
        ({
            let r = wal::appended(v, rec, io);
            let started = WalView {
                active: Some(
                    ActiveView { first: rec.cursor, log: Seq::empty(), durable: rec.cursor },
                ),
                segments: index::with_entry(v.segments, rec.cursor, 32),
                ..v
            };
            &&& io.created is Err ==> r == (
                v,
                Err::<(), WalError>(WalError::Writer(WriterError::Io(io.created->Err_0))),
            )
            &&& io.created is Ok && 60 + rec.payload.len() > v.cfg.segment_size_max ==> r
                == wal::appended(started, rec, io)
            &&& io.created is Ok && 60 + rec.payload.len() <= v.cfg.segment_size_max
                && io.written is Err ==> r == (
                started,
                Err::<(), WalError>(WalError::Writer(WriterError::Io(io.written->Err_0))),
            )
            &&& io.created is Ok && 60 + rec.payload.len() <= v.cfg.segment_size_max
                && io.written is Ok ==> r == (
                WalView {
                    active: Some(
                        ActiveView { first: rec.cursor, log: seq![rec], durable: rec.cursor },
                    ),
                    segments: index::with_entry(
                        index::with_entry(v.segments, rec.cursor, 32),
                        rec.cursor,
                        (60 + rec.payload.len()) as u64,
                    ),
                    ..v
                },
                Ok::<(), WalError>(()),
            )
        }),
{
    lemma_first_record(rec);
}

/// An append starts a segment exactly when it is not refused, what it prepares went well, and
/// there was no active segment or none with room.
pub proof fn law_append_starts_a_segment(v: WalView, cursor: u64, len: nat, io: AppendIo)
    ensures
        wal::starts_segment(v, cursor, len, io) <==> {
            &&& v.cfg.enabled && len <= 16_777_188 && !v.poisoned
            &&& v.active is Some ==> v.active->Some_0.size() + 28 + len > v.cfg.segment_size_max
                && io.closed is Ok && io.rotated is Ok
            &&& v.active is None ==> io.created is Ok && (60 + len > v.cfg.segment_size_max
                ==> io.closed is Ok && io.rotated is Ok)
        },
{
    let rec = record::RecordView { cursor, ts_unix_nanos: 0, payload: Seq::empty() };
    lemma_first_record(rec);
}

// ── Flushing ─────────────────────────────────────────────────────────────────

/// A flush makes every record of the active segment durable, is counted, and changes nothing
/// else. Without an active segment there is nothing to flush.
pub proof fn law_flush_makes_durable(v: WalView)
    ensures
        v.active is None ==> v.synced() == v && v.pending() == v.resume,
        v.active is Some && v.pending() <= u64::MAX ==> ({
            let a = v.active->Some_0;
            let w = v.synced();
            &&& v.pending() == a.first + a.log.len()
            &&& w.durable == v.pending()
            &&& w == (WalView {
                active: Some(ActiveView { durable: w.durable, ..a }),
                durable: w.durable,
                flushes: w.flushes,
                ..v
            })
            &&& w.flushes == (v.flushes + 1) % 0x1_0000_0000_0000_0000
        }),
{
}

/// The next tick is one interval away, or as far as time goes.
pub proof fn law_tick_is_one_interval_away(now: u128, interval: u64)
    ensures
        flusher::tick_after(now, interval) <= now + interval,
        flusher::tick_after(now, interval) == now + interval || flusher::tick_after(now, interval)
            == u128::MAX,
        now + interval <= u128::MAX ==> flusher::tick_after(now, interval) == now + interval,
{
}

/// A flush is due at the tick, and before it once more bytes are pending than a batch has. The
/// pending bytes are what was appended since the last flush, though the counter wraps.
pub proof fn law_flush_is_due(v: FlusherView, now: u128, appended: u64)
    ensures
        0 <= flusher::pending_bytes(v, appended) < 0x1_0000_0000_0000_0000,
        (v.flushed + flusher::pending_bytes(v, appended)) % 0x1_0000_0000_0000_0000 == appended,
        flusher::due(v, now, appended) <==> now >= v.next_tick || flusher::pending_bytes(
            v,
            appended,
        ) > v.batch_bytes,
{
}

// ── Opening and reading ──────────────────────────────────────────────────────

/// A log that was found goes on behind its last record, or where its newest segment starts if
/// that has none; an empty one at zero. It needs a segment there unless the newest one is
/// empty.
pub proof fn law_found_log_goes_on(found: WalRecovery)
    ensures
        found.newest() is None ==> found.next_cursor_is() == 0 && !found.needs_segment_is(),
        found.newest() is Some && found.newest()->Some_0.1 is None ==> found.next_cursor_is()
            == found.newest()->Some_0.0 && !found.needs_segment_is(),
        found.newest() is Some && found.newest()->Some_0.1 is Some ==> found.next_cursor_is()
            == found.newest()->Some_0.1->Some_0 + 1 && (found.needs_segment_is() <==> found.newest()->Some_0.1->Some_0
            + 1 != found.newest()->Some_0.0),
{
}

/// A segment that is started has the size of its header in the index, holds no record, and is
/// the active one. Nothing else changes.
pub proof fn law_segment_is_started(v: WalView, cursor: u64)
    ensures
        v.opened(cursor) == (WalView {
            active: Some(ActiveView { first: cursor, log: Seq::empty(), durable: cursor }),
            segments: index::with_entry(v.segments, cursor, 32),
            ..v
        }),
        wal::vacant(v, cursor) <==> v.active is None && cursor == v.resume && index::size_at(
            v.segments,
            cursor,
        ) == 32,
{
}

/// A replay is refused exactly when its cursor lies before the oldest segment, and the error
/// names that. Otherwise it starts at the last segment that starts at its cursor or before,
/// and goes on with all behind it.
pub proof fn law_replay_starts_at_its_cursor(
    segments: Seq<(u64, u64)>,
    cursor: u64,
    r: Result<WalReplayer, WalError>,
)
    requires
        index::ascending(segments),
        wal::replays(segments, cursor, r),
    ensures
        segments.len() == 0 ==> wal::oldest_of(segments) == 0 && r is Ok && r->Ok_0.ahead().len()
            == 0,
        segments.len() > 0 ==> wal::oldest_of(segments) == segments[0].0,
        r is Err <==> segments.len() > 0 && cursor < segments[0].0,
        r is Err ==> r == Err::<WalReplayer, WalError>(
            WalError::CursorTooOld { requested: cursor, oldest: segments[0].0 },
        ),
        r is Ok ==> r->Ok_0.wf() && r->Ok_0.floor() == cursor && r->Ok_0.reading() is None,
        r is Ok && segments.len() > 0 ==> ({
            let ahead = r->Ok_0.ahead();
            let from = segments.len() - ahead.len();
            &&& 0 < ahead.len() <= segments.len()
            &&& forall|i: int| 0 <= i < ahead.len() ==> #[trigger] ahead[i] == segments[from + i].0
            &&& ahead[0] <= cursor
            &&& ahead.len() > 1 ==> ahead[1] > cursor
        }),
{
    if segments.len() > 0 && cursor >= segments[0].0 {
        index::lemma_containing(segments, cursor);
        let c = index::containing(segments, cursor);
        let tail = segments.skip(c);
        assert(r->Ok_0.ahead() == index::keys(tail));
        assert forall|i: int| 0 <= i < tail.len() implies #[trigger] index::keys(tail)[i]
            == segments[c + i].0 by {
            assert(tail[i] == segments[c + i]);
        }
    } else if segments.len() == 0 {
        index::lemma_place_of(segments, cursor);
        assert(index::keys(segments.skip(0)).len() == 0);
    }
}

/// A replay gives the records of a segment one by one, leaves out those before its cursor, and
/// ends at the first that cannot be read.
pub proof fn law_replay_reads_one_by_one(r: ReadingView, floor: u64)
    ensures
        ({
            let got = wal::read_on(r, floor);
            let at = segment_reader::record_at(r.file, r.pos);
            &&& r.halted ==> got == (None::<Result<record::RecordView, segment_reader::ReaderError>>, r)
            &&& !r.halted && at is Ok && at->Ok_0 is None ==> got.0 is None && got.1 == r
            &&& !r.halted && at is Err ==> got == (
                Some(Err::<record::RecordView, segment_reader::ReaderError>(at->Err_0)),
                ReadingView { halted: true, ..r },
            )
            &&& !r.halted && at is Ok && at->Ok_0 is Some ==> {
                let rec = at->Ok_0->Some_0.0;
                let next = ReadingView { pos: r.pos + at->Ok_0->Some_0.1, ..r };
                if rec.cursor >= floor {
                    got == (
                        Some(Ok::<record::RecordView, segment_reader::ReaderError>(rec)),
                        next,
                    )
                } else {
                    got == wal::read_on(next, floor)
                }
            }
        }),
{
    reveal_with_fuel(wal::read_on, 2);
}

/// The log is set up as documented: batches of a mebibyte or five milliseconds, segments of
/// 64 mebibytes, and a gibibyte kept.
pub proof fn law_default_settings(enabled: bool)
    ensures
        ({
            let c = config::default_config(enabled);
            &&& c.enabled == enabled
            &&& c.fsync_policy is Batched
            &&& c.fsync_interval == 5_000_000
            &&& c.fsync_batch_bytes == 0x10_0000
            &&& c.segment_size_max == 0x400_0000
            &&& c.retention_bytes == 0x4000_0000
        }),
{
}

} // verus!
