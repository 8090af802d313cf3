//! What a run of appends to a log over memory-mapped segments leaves behind.

use crate::error::IoKind;
use crate::wal::config::WalConfig;
use crate::wal::history_laws as file_history_laws;
use crate::wal::index;
use crate::wal::record;
use crate::wal::v2::active::ActiveCoord;
use crate::wal::v2::history_laws;
use crate::wal::v2::mmap_segment_writer;
use crate::wal::v2::wal;
use crate::wal::v2::wal::{AppendIo, WalError, WalRecovery, WalReplayer, WalView};
use crate::wal::v2::wal_laws;
use crate::wal::v2::wal_laws::Mapped;
use crate::wal::wal as file_wal;
use crate::wal::wal_laws as file_wal_laws;
use vstd::prelude::*;

verus! {

/// A log, and its segments as they are mapped.
#[verifier::ext_equal]
pub struct Stored {
    pub log: WalView,
    pub files: Seq<Mapped>,
}

/// An append: its record, and what the file operations around it gave.
pub struct Appending {
    pub rec: record::RecordView,
    pub io: AppendIo,
    pub flushed: Result<(), IoKind>,
}

/// The append is made at the pending cursor and succeeds, and so does what ends it.
#[verifier::opaque]
pub open spec fn taken(s: Stored, x: Appending) -> bool {
    let a = wal::appended(s.log, x.rec, x.io);
    &&& x.rec.cursor == s.log.pending as int
    &&& x.rec.cursor < u64::MAX
    &&& a.1 is Ok
    &&& wal::finished(a.0, x.rec.payload.len(), x.flushed).1 is Ok
}

/// The log and its files after an append that succeeds. The segments that retention names
/// are the oldest ones; their files are deleted.
#[verifier::opaque]
pub open spec fn stored(s: Stored, x: Appending) -> Stored {
    let a = wal::appended(s.log, x.rec, x.io).0;
    let f = wal::finished(a, x.rec.payload.len(), x.flushed);
    Stored {
        log: f.0,
        files: history_laws::with_record(s.log, s.files, x.rec).skip(
            f.1->Ok_0.len() as int,
        ),
    }
}

/// The log and its files after these appends, one after the other.
pub open spec fn run(s: Stored, xs: Seq<Appending>) -> Stored
    decreases xs.len(),
{
    if xs.len() == 0 {
        s
    } else {
        stored(run(s, xs.drop_last()), xs.last())
    }
}

/// All these appends succeed, one after the other.
pub open spec fn all_taken(s: Stored, xs: Seq<Appending>) -> bool
    decreases xs.len(),
{
    xs.len() > 0 ==> all_taken(s, xs.drop_last()) && taken(run(s, xs.drop_last()), xs.last())
}

/// The records of the appends.
pub open spec fn records_of(xs: Seq<Appending>) -> Seq<record::RecordView> {
    xs.map_values(|x: Appending| x.rec)
}

/// The oldest cursor that the log holds, or would hold.
pub open spec fn oldest(s: Stored) -> int {
    if s.files.len() > 0 {
        s.files[0].first as int
    } else {
        s.log.pending as int
    }
}

/// What the log makes of an append that succeeds.
pub proof fn lemma_appended(v: WalView, rec: record::RecordView, io: AppendIo)
    requires
        v.cfg.enabled,
        rec.cursor == v.pending,
        rec.cursor < u64::MAX,
        wal::appended(v, rec, io).1 is Ok,
    ensures
        wal::appended(v, rec, io).0.cfg == v.cfg,
        wal::appended(v, rec, io).0.active is Some,
        wal::appended(v, rec, io).0.pending == v.pending + 1,
{
}

/// One append that succeeds.
pub proof fn lemma_stored(s: Stored, x: Appending)
    requires
        history_laws::holds(s.log, s.files),
        s.log.cfg.enabled,
        taken(s, x),
    ensures
        ({
            let t = stored(s, x);
            let all = history_laws::all_records(s.files).push(x.rec);
            &&& history_laws::holds(t.log, t.files)
            &&& t.log.cfg == s.log.cfg
            &&& t.log.pending == s.log.pending + 1
            &&& t.log.active is Some
            &&& t.files.len() > 0
            &&& 0 <= oldest(t) - oldest(s) <= all.len()
            &&& history_laws::all_records(t.files) == all.skip(oldest(t) - oldest(s))
        }),
{
    reveal(taken);
    reveal(stored);
    let more = history_laws::law_append_extends_the_log(s.log, s.files, x.rec, x.io);
    let w = wal::appended(s.log, x.rec, x.io).0;
    lemma_appended(s.log, x.rec, x.io);
    let n = history_laws::law_retention_keeps_the_newest(
        w,
        more,
        x.rec.payload.len(),
        x.flushed,
    );
    assert(history_laws::firsts(more.take(n as int)).len() == n);
    assert(stored(s, x).files == more.skip(n as int));
    lemma_skip_mapped(more, n as int);
}

/// The segments from place `n` on, and their records.
pub proof fn lemma_skip_mapped(ms: Seq<Mapped>, n: int)
    requires
        file_wal_laws::chained(wal_laws::as_written(ms)),
        0 <= n < ms.len(),
    ensures
        ms.skip(n)[0] == ms[n],
        0 <= ms[n].first - ms[0].first <= history_laws::all_records(ms).len(),
        history_laws::all_records(ms.skip(n)) == history_laws::all_records(ms).skip(
            ms[n].first - ms[0].first,
        ),
{
    let ws = wal_laws::as_written(ms);
    file_history_laws::lemma_skip_segments(ws, n);
    assert(wal_laws::as_written(ms.skip(n)) =~= ws.skip(n));
    assert(ws[n].first == ms[n].first && ws[0].first == ms[0].first);
}

/// Dropping records from the front before and after one more came.
proof fn lemma_drop_in_turn(
    records: Seq<record::RecordView>,
    rec: record::RecordView,
    d: int,
    e: int,
)
    requires
        0 <= d <= records.len(),
        0 <= e <= records.len() - d + 1,
    ensures
        records.skip(d).push(rec).skip(e) == records.push(rec).skip(d + e),
{
    assert(records.skip(d).push(rec).skip(e) =~= records.push(rec).skip(d + e));
}

/// A log keeps what was appended to it: after a run of appends it holds the records that it
/// held before and those of the run, in order, without the ones that retention dropped from
/// the front.
pub proof fn law_run_is_kept(s: Stored, xs: Seq<Appending>)
    requires
        history_laws::holds(s.log, s.files),
        s.log.cfg.enabled,
        all_taken(s, xs),
    ensures
        ({
            let t = run(s, xs);
            let all = history_laws::all_records(s.files) + records_of(xs);
            &&& history_laws::holds(t.log, t.files)
            &&& t.log.cfg == s.log.cfg
            &&& t.log.pending == s.log.pending + xs.len()
            &&& xs.len() > 0 ==> t.files.len() > 0 && t.log.active is Some
            &&& 0 <= oldest(t) - oldest(s) <= all.len()
            &&& history_laws::all_records(t.files) == all.skip(oldest(t) - oldest(s))
        }),
    decreases xs.len(),
{
    let before = history_laws::all_records(s.files);
    let all = before + records_of(xs);
    if xs.len() == 0 {
        assert(all.skip(0) =~= before);
    } else {
        let ys = xs.drop_last();
        law_run_is_kept(s, ys);
        let m = run(s, ys);
        lemma_stored(m, xs.last());
        let d = oldest(m) - oldest(s);
        let e = oldest(run(s, xs)) - oldest(m);
        let part = before + records_of(ys);
        assert(all =~= part.push(xs.last().rec));
        lemma_drop_in_turn(part, xs.last().rec, d, e);
    }
}

/// A log over a directory in which recovery found nothing.
pub open spec fn empty(cfg: WalConfig, nothing: WalRecovery, coord: ActiveCoord) -> Stored {
    Stored { log: wal::recovered(cfg, nothing, coord), files: Seq::empty() }
}

/// What a run over an empty directory leaves.
proof fn lemma_run_from_empty(
    cfg: WalConfig,
    nothing: WalRecovery,
    coord: ActiveCoord,
    xs: Seq<Appending>,
)
    requires
        cfg.enabled,
        nothing.segments().len() == 0,
        xs.len() > 0,
        all_taken(empty(cfg, nothing, coord), xs),
    ensures
        ({
            let t = run(empty(cfg, nothing, coord), xs);
            &&& history_laws::holds(t.log, t.files)
            &&& t.log.cfg == cfg
            &&& t.log.active is Some
            &&& t.log.pending == xs.len()
            &&& t.files.len() > 0
            &&& t.files[0].first == file_wal::oldest_of(t.log.segments)
            &&& t.files[0].first <= xs.len()
            &&& history_laws::all_records(t.files) == records_of(xs).skip(
                t.files[0].first as int,
            )
        }),
{
    let s = empty(cfg, nothing, coord);
    let t = run(s, xs);
    law_run_is_kept(s, xs);
    assert(wal_laws::as_written(s.files) =~= Seq::empty());
    assert(history_laws::all_records(s.files) =~= Seq::empty());
    assert(history_laws::all_records(s.files) + records_of(xs) =~= records_of(xs));
    assert(wal_laws::as_written(t.files)[0].first == t.log.segments[0].0);
}

/// Leaving out the first records, and then more.
proof fn lemma_skip_twice(records: Seq<record::RecordView>, n: int, m: int)
    requires
        0 <= n <= m <= records.len(),
    ensures
        records.skip(n).skip(m - n) == records.skip(m),
{
    assert(records.skip(n).skip(m - n) =~= records.skip(m));
}

/// A log over an empty directory starts at 0. After `n` appends it goes on at `n`, and a
/// replay from a cursor that it still holds gives the records of the appends from that one
/// on; from a cursor beyond the end, none.
pub proof fn law_log_gives_back_a_run(
    cfg: WalConfig,
    nothing: WalRecovery,
    coord: ActiveCoord,
    xs: Seq<Appending>,
    cursor: u64,
    r: Result<WalReplayer, WalError>,
)
    requires
        cfg.enabled,
        nothing.segments().len() == 0,
        xs.len() > 0,
        all_taken(empty(cfg, nothing, coord), xs),
        file_wal::oldest_of(run(empty(cfg, nothing, coord), xs).log.segments) <= cursor,
        wal::replays(run(empty(cfg, nothing, coord), xs).log.segments, cursor, r),
    ensures
        ({
            let t = run(empty(cfg, nothing, coord), xs);
            let k = index::containing(t.log.segments, cursor);
            &&& t.log.pending == xs.len()
            &&& file_wal::oldest_of(t.log.segments) <= xs.len()
            &&& r matches Ok(p)
            &&& p.floor() == cursor
            &&& 0 <= k < t.files.len()
            &&& p.ahead() == history_laws::firsts(t.files.skip(k))
            &&& wal_laws::replayed(t.files.skip(k), cursor) == (if cursor <= xs.len() {
                records_of(xs).skip(cursor as int)
            } else {
                Seq::empty()
            })
        }),
{
    let t = run(empty(cfg, nothing, coord), xs);
    lemma_run_from_empty(cfg, nothing, coord, xs);
    history_laws::law_log_gives_back_what_it_took(t.log, t.files, cursor, r);
    if cursor <= xs.len() {
        lemma_skip_twice(records_of(xs), t.files[0].first as int, cursor as int);
    }
}

/// The index that comes of looking at these files, one after the other.
pub open spec fn listed(fs: Seq<Mapped>) -> Seq<(u64, u64)>
    decreases fs.len(),
{
    if fs.len() == 0 {
        Seq::empty()
    } else {
        index::with_entry(listed(fs.drop_last()), fs.last().first, fs.last().size as u64)
    }
}

proof fn lemma_listed(fs: Seq<Mapped>)
    ensures
        index::ascending(listed(fs)),
        forall|c: u64|
            #[trigger] index::has_key(listed(fs), c) <==> exists|i: int|
                0 <= i < fs.len() && (#[trigger] fs[i]).first == c,
    decreases fs.len(),
{
    if fs.len() > 0 {
        let rest = fs.drop_last();
        let f = fs.last();
        let n = fs.len() - 1;
        lemma_listed(rest);
        index::lemma_with_entry(listed(rest), f.first, f.size as u64);
        index::lemma_with_entry_keys(listed(rest), f.first, f.size as u64);
        assert forall|c: u64| #[trigger] index::has_key(listed(fs), c) <==> exists|i: int|
            0 <= i < fs.len() && (#[trigger] fs[i]).first == c by {
            if c == f.first {
                assert(fs[n].first == c);
            } else if index::has_key(listed(rest), c) {
                let i = choose|i: int| 0 <= i < rest.len() && (#[trigger] rest[i]).first == c;
                assert(fs[i].first == c);
            } else if exists|i: int| 0 <= i < fs.len() && (#[trigger] fs[i]).first == c {
                let i = choose|i: int| 0 <= i < fs.len() && (#[trigger] fs[i]).first == c;
                assert(rest[i].first == c);
            }
        }
    }
}

/// In whatever order the files of a log are looked at, the index lists them.
pub proof fn lemma_listed_log(v: WalView, ms: Seq<Mapped>, fs: Seq<Mapped>)
    requires
        history_laws::holds(v, ms),
        forall|m: Mapped| #[trigger] fs.contains(m) <==> ms.contains(m),
    ensures
        file_history_laws::lists(listed(fs), wal_laws::as_written(ms)),
{
    let ws = wal_laws::as_written(ms);
    let q = history_laws::firsts(ms);
    let found = listed(fs);
    lemma_listed(fs);
    assert forall|i: int, j: int| 0 <= i < j < q.len() implies #[trigger] q[i] < #[trigger] q[j] by {
        assert(q[i] == ws[i].first && q[j] == ws[j].first);
        assert(v.segments[i].0 < v.segments[j].0);
    }
    assert forall|c: u64| #[trigger] index::has_key(found, c) <==> q.contains(c) by {
        if index::has_key(found, c) {
            let i = choose|i: int| 0 <= i < fs.len() && (#[trigger] fs[i]).first == c;
            assert(fs.contains(fs[i]));
            let j = choose|j: int| 0 <= j < ms.len() && ms[j] == fs[i];
            assert(q[j] == c);
        }
        if q.contains(c) {
            let j = choose|j: int| 0 <= j < q.len() && q[j] == c;
            assert(ms.contains(ms[j]));
            assert(fs.contains(ms[j]));
            let i = choose|i: int| 0 <= i < fs.len() && fs[i] == ms[j];
            assert(fs[i].first == c);
        }
    }
    index::lemma_keys_determine(found, q);
    assert(index::keys(found).len() == q.len());
    assert forall|i: int| 0 <= i < ws.len() implies (#[trigger] ws[i]).first == found[i].0 by {
        assert(index::keys(found)[i] == q[i]);
    }
}

/// A log that is opened again goes on where it stopped: over the segments that `n` appends
/// left in an empty directory, listed in whatever order, and the newest one scanned, it finds
/// that `n` is next, that all before is durable, and the same oldest cursor, and a replay
/// from there gives the same records. So it is with the fresh segment that it starts, too.
pub proof fn law_reopened_log_picks_up(
    cfg: WalConfig,
    nothing: WalRecovery,
    coord: ActiveCoord,
    xs: Seq<Appending>,
    fs: Seq<Mapped>,
    found: WalRecovery,
    coord_found: ActiveCoord,
    r: Result<WalReplayer, WalError>,
    r_fresh: Result<WalReplayer, WalError>,
)
    requires
        cfg.enabled,
        nothing.segments().len() == 0,
        xs.len() > 0,
        all_taken(empty(cfg, nothing, coord), xs),
        ({
            let t = run(empty(cfg, nothing, coord), xs);
            let newest = t.files.last();
            let w = wal::recovered(cfg, found, coord_found);
            let fresh = w.opened(w.pending).named(w.pending);
            &&& forall|m: Mapped| #[trigger] fs.contains(m) <==> t.files.contains(m)
            &&& found.segments() == listed(fs)
            &&& found.last() == wal::last_intact(
                mmap_segment_writer::image_of(newest.size, newest.first, newest.log),
            )
            &&& wal::replays(w.segments, file_wal::oldest_of(w.segments), r)
            &&& wal::replays(fresh.segments, file_wal::oldest_of(fresh.segments), r_fresh)
        }),
    ensures
        ({
            let t = run(empty(cfg, nothing, coord), xs);
            let w = wal::recovered(cfg, found, coord_found);
            let fresh = w.opened(w.pending).named(w.pending);
            let files = history_laws::started(
                t.files,
                xs.len() as u64,
                cfg.segment_size_max as int,
            );
            let first = file_wal::oldest_of(t.log.segments);
            &&& w.pending == xs.len()
            &&& w.durable == xs.len()
            &&& file_wal::oldest_of(w.segments) == first
            &&& r matches Ok(p)
            &&& p.floor() == first
            &&& p.ahead() == history_laws::firsts(t.files)
            &&& wal_laws::replayed(t.files, first) == records_of(xs).skip(first as int)
            &&& fresh.pending == xs.len()
            &&& fresh.durable == xs.len()
            &&& file_wal::oldest_of(fresh.segments) == first
            &&& r_fresh matches Ok(q)
            &&& q.floor() == first
            &&& q.ahead() == history_laws::firsts(files)
            &&& wal_laws::replayed(files, first) == records_of(xs).skip(first as int)
        }),
{
    let t = run(empty(cfg, nothing, coord), xs);
    let w = wal::recovered(cfg, found, coord_found);
    let fresh = w.opened(w.pending).named(w.pending);
    let first = file_wal::oldest_of(t.log.segments);
    lemma_run_from_empty(cfg, nothing, coord, xs);
    lemma_listed_log(t.log, t.files, fs);
    history_laws::law_restart_finds_the_log(t.log, t.files, found, cfg, coord_found);
    let files = history_laws::started(t.files, xs.len() as u64, cfg.segment_size_max as int);
    let wt = wal_laws::as_written(t.files);
    let wf = wal_laws::as_written(files);
    assert(wt[0].first == w.segments[0].0);
    lemma_replay_from_oldest(w, t.files, r);
    assert(files[0].first == first);
    assert(wf[0].first == fresh.segments[0].0);
    lemma_replay_from_oldest(fresh, files, r_fresh);
}

/// A replay from the oldest cursor reads everything.
proof fn lemma_replay_from_oldest(v: WalView, ms: Seq<Mapped>, r: Result<WalReplayer, WalError>)
    requires
        history_laws::holds(v, ms),
        ms.len() > 0,
        wal::replays(v.segments, ms[0].first, r),
    ensures
        r matches Ok(p) && p.floor() == ms[0].first && p.ahead() == history_laws::firsts(ms),
        wal_laws::replayed(ms, ms[0].first) == history_laws::all_records(ms),
{
    let first = ms[0].first;
    let ws = wal_laws::as_written(ms);
    file_history_laws::lemma_skip_segments(ws, 0);
    history_laws::law_log_gives_back_what_it_took(v, ms, first, r);
    let k = index::containing(v.segments, first);
    index::lemma_containing(v.segments, first);
    assert(v.segments[0].0 == ws[0].first && v.segments[k].0 == ws[k].first);
    if k > 0 {
        assert(v.segments[0].0 < v.segments[k].0);
    }
    assert(ms.skip(0) =~= ms);
    assert(history_laws::all_records(ms).skip(0) =~= history_laws::all_records(ms));
}

} // verus!
