//! What a run of appends leaves behind.
//!
//! The laws of one append, one after the other: what was appended to a log is what a replay
//! gives back, and what a log finds that is opened over the same files.

use crate::error::IoKind;
use crate::wal::config::WalConfig;
use crate::wal::history_laws;
use crate::wal::index;
use crate::wal::record;
use crate::wal::wal;
use crate::wal::wal::{AppendIo, WalError, WalReplayer, WalView};
use crate::wal::wal_laws;
use crate::wal::wal_laws::Written;
use vstd::prelude::*;

verus! {

/// A log, and its segment files as they are once everything that it buffered is written.
#[verifier::ext_equal]
pub struct Stored {
    pub log: WalView,
    pub files: Seq<Written>,
}

/// An append: its record, what the file operations around it gave, and when a segment that
/// it starts is created.
pub struct Appending {
    pub rec: record::RecordView,
    pub io: AppendIo,
    pub synced: Result<(), IoKind>,
    pub created: u64,
}

/// The append is made at the pending cursor and succeeds, and so does what ends it.
#[verifier::opaque]
pub open spec fn taken(s: Stored, x: Appending) -> bool {
    let a = wal::appended(s.log, x.rec, x.io);
    &&& x.rec.cursor == s.log.pending()
    &&& x.rec.cursor < u64::MAX
    &&& a.1 is Ok
    &&& wal::finished(a.0, x.rec.payload.len(), x.synced).1 is Ok
}

/// The log and its files after an append that succeeds. The segments that retention names
/// are the oldest ones; their files are deleted.
#[verifier::opaque]
pub open spec fn stored(s: Stored, x: Appending) -> Stored {
    let a = wal::appended(s.log, x.rec, x.io).0;
    let f = wal::finished(a, x.rec.payload.len(), x.synced);
    Stored {
        log: f.0,
        files: history_laws::with_record(s.log, s.files, x.rec, x.created).skip(
            f.1->Ok_0.len() as int,
        ),
    }
}

/// The log and its files after these appends, one after the other.
pub open spec fn run(s: Stored, xs: Seq<Appending>) -> Stored
    decreases xs.len(),
{
    if xs.len() == 0 {
        s
    } else {
        stored(run(s, xs.drop_last()), xs.last())
    }
}

/// All these appends succeed, one after the other.
pub open spec fn all_taken(s: Stored, xs: Seq<Appending>) -> bool
    decreases xs.len(),
{
    xs.len() > 0 ==> all_taken(s, xs.drop_last()) && taken(run(s, xs.drop_last()), xs.last())
}

/// The records of the appends.
pub open spec fn records_of(xs: Seq<Appending>) -> Seq<record::RecordView> {
    xs.map_values(|x: Appending| x.rec)
}

/// The oldest cursor that the log holds, or would hold.
pub open spec fn oldest(s: Stored) -> int {
    if s.files.len() > 0 {
        s.files[0].first as int
    } else {
        s.log.pending()
    }
}

/// One append that succeeds.
pub proof fn lemma_stored(s: Stored, x: Appending)
    requires
        history_laws::holds(s.log, s.files),
        s.log.cfg.enabled,
        taken(s, x),
    ensures
        ({
            let t = stored(s, x);
            let all = wal_laws::all_records(s.files).push(x.rec);
            &&& history_laws::holds(t.log, t.files)
            &&& t.log.cfg == s.log.cfg
            &&& t.log.pending() == s.log.pending() + 1
            &&& t.files.len() > 0
            &&& 0 <= oldest(t) - oldest(s) <= all.len()
            &&& wal_laws::all_records(t.files) == all.skip(oldest(t) - oldest(s))
        }),
{
    reveal(taken);
    reveal(stored);
    let more = history_laws::law_append_extends_the_log(s.log, s.files, x.rec, x.io, x.created);
    let w = wal::appended(s.log, x.rec, x.io).0;
    let p = wal::prepared(s.log, x.rec.cursor, x.rec.payload.len(), x.io).0;
    assert(p.active->Some_0.log.push(x.rec).len() == p.active->Some_0.log.len() + 1);
    assert(w.active is Some);
    let n = history_laws::law_retention_keeps_the_newest(
        w,
        more,
        x.rec.payload.len(),
        x.synced,
    );
    assert(history_laws::firsts(more.take(n as int)).len() == n);
    history_laws::lemma_skip_segments(more, n as int);
    assert(stored(s, x).files == more.skip(n as int));
    assert(more.skip(n as int)[0] == more[n as int]);
}

/// Dropping records from the front before and after one more came.
proof fn lemma_drop_in_turn(
    records: Seq<record::RecordView>,
    rec: record::RecordView,
    d: int,
    e: int,
)
    requires
        0 <= d <= records.len(),
        0 <= e <= records.len() - d + 1,
    ensures
        records.skip(d).push(rec).skip(e) == records.push(rec).skip(d + e),
{
    assert(records.skip(d).push(rec).skip(e) =~= records.push(rec).skip(d + e));
}

/// A log keeps what was appended to it: after a run of appends it holds the records that it
/// held before and those of the run, in order, without the ones that retention dropped from
/// the front.
pub proof fn law_run_is_kept(s: Stored, xs: Seq<Appending>)
    requires
        history_laws::holds(s.log, s.files),
        s.log.cfg.enabled,
        all_taken(s, xs),
    ensures
        ({
            let t = run(s, xs);
            let all = wal_laws::all_records(s.files) + records_of(xs);
            &&& history_laws::holds(t.log, t.files)
            &&& t.log.cfg == s.log.cfg
            &&& t.log.pending() == s.log.pending() + xs.len()
            &&& xs.len() > 0 ==> t.files.len() > 0
            &&& 0 <= oldest(t) - oldest(s) <= all.len()
            &&& wal_laws::all_records(t.files) == all.skip(oldest(t) - oldest(s))
        }),
    decreases xs.len(),
{
    let before = wal_laws::all_records(s.files);
    let all = before + records_of(xs);
    if xs.len() == 0 {
        assert(all.skip(0) =~= before);
    } else {
        let ys = xs.drop_last();
        law_run_is_kept(s, ys);
        let m = run(s, ys);
        lemma_stored(m, xs.last());
        let d = oldest(m) - oldest(s);
        let e = oldest(run(s, xs)) - oldest(m);
        let part = before + records_of(ys);
        assert(all =~= part.push(xs.last().rec));
        lemma_drop_in_turn(part, xs.last().rec, d, e);
    }
}

/// A log without segments.
pub open spec fn empty(cfg: WalConfig) -> Stored {
    Stored { log: history_laws::reopened(cfg, Seq::empty()), files: Seq::empty() }
}

/// A log over an empty directory starts at 0. After `n` appends it goes on at `n`, and a
/// replay from a cursor that it still holds gives the records of the appends from that one
/// on; from a cursor beyond the end, none.
pub proof fn law_log_gives_back_a_run(
    cfg: WalConfig,
    xs: Seq<Appending>,
    cursor: u64,
    r: Result<WalReplayer, WalError>,
)
    requires
        cfg.enabled,
        xs.len() > 0,
        all_taken(empty(cfg), xs),
        wal::oldest_of(run(empty(cfg), xs).log.segments) <= cursor,
        wal::replays(run(empty(cfg), xs).log.segments, cursor, r),
    ensures
        ({
            let t = run(empty(cfg), xs);
            let k = index::containing(t.log.segments, cursor);
            &&& t.log.pending() == xs.len()
            &&& wal::oldest_of(t.log.segments) <= xs.len()
            &&& r matches Ok(p)
            &&& p.floor() == cursor
            &&& 0 <= k < t.files.len()
            &&& p.ahead() == history_laws::firsts(t.files.skip(k))
            &&& wal_laws::replayed(t.files.skip(k), cursor) == (if cursor <= xs.len() {
                records_of(xs).skip(cursor as int)
            } else {
                Seq::empty()
            })
        }),
{
    let t = run(empty(cfg), xs);
    lemma_run_from_empty(cfg, xs);
    history_laws::law_log_gives_back_what_it_took(t.log, t.files, cursor, r);
    if cursor <= xs.len() {
        lemma_skip_twice(records_of(xs), t.files[0].first as int, cursor as int);
    }
}

/// Leaving out the first records, and then more.
proof fn lemma_skip_twice(records: Seq<record::RecordView>, n: int, m: int)
    requires
        0 <= n <= m <= records.len(),
    ensures
        records.skip(n).skip(m - n) == records.skip(m),
{
    assert(records.skip(n).skip(m - n) =~= records.skip(m));
}

/// What a run over an empty directory leaves.
proof fn lemma_run_from_empty(cfg: WalConfig, xs: Seq<Appending>)
    requires
        cfg.enabled,
        xs.len() > 0,
        all_taken(empty(cfg), xs),
    ensures
        ({
            let t = run(empty(cfg), xs);
            &&& history_laws::holds(t.log, t.files)
            &&& t.log.pending() == xs.len()
            &&& t.files.len() > 0
            &&& t.files[0].first == wal::oldest_of(t.log.segments)
            &&& t.files[0].first <= xs.len()
            &&& wal_laws::all_records(t.files) == records_of(xs).skip(t.files[0].first as int)
        }),
{
    let t = run(empty(cfg), xs);
    law_run_is_kept(empty(cfg), xs);
    assert(wal_laws::all_records(Seq::empty()) + records_of(xs) =~= records_of(xs));
    assert(t.files[0].first == t.log.segments[0].0);
}

/// A log that is opened again goes on where it stopped: over the files that `n` appends left
/// in an empty directory, looked at in whatever order, it finds that `n` is next, that all
/// before is durable, and the same oldest cursor, and a replay from there gives the same
/// records. So it is with the fresh segment that it starts, too.
pub proof fn law_reopened_log_picks_up(
    cfg: WalConfig,
    xs: Seq<Appending>,
    fs: Seq<Written>,
    created: u64,
    r: Result<WalReplayer, WalError>,
    r_fresh: Result<WalReplayer, WalError>,
)
    requires
        cfg.enabled,
        xs.len() > 0,
        all_taken(empty(cfg), xs),
        forall|s: Written| #[trigger] fs.contains(s) <==> run(empty(cfg), xs).files.contains(s),
        ({
            let w = history_laws::reopened(cfg, fs);
            let fresh = w.opened(w.pending() as u64);
            &&& wal::replays(w.segments, wal::oldest_of(w.segments), r)
            &&& wal::replays(fresh.segments, wal::oldest_of(fresh.segments), r_fresh)
        }),
    ensures
        ({
            let t = run(empty(cfg), xs);
            let w = history_laws::reopened(cfg, fs);
            let fresh = w.opened(w.pending() as u64);
            let files = history_laws::started(t.files, xs.len() as u64, created);
            let first = wal::oldest_of(t.log.segments);
            &&& w.pending() == xs.len()
            &&& w.durable == xs.len()
            &&& wal::oldest_of(w.segments) == first
            &&& r matches Ok(p)
            &&& p.floor() == first
            &&& p.ahead() == history_laws::firsts(t.files)
            &&& wal_laws::replayed(t.files, first) == records_of(xs).skip(first as int)
            &&& fresh.pending() == xs.len()
            &&& fresh.durable == xs.len()
            &&& wal::oldest_of(fresh.segments) == first
            &&& r_fresh matches Ok(q)
            &&& q.floor() == first
            &&& q.ahead() == history_laws::firsts(files)
            &&& wal_laws::replayed(files, first) == records_of(xs).skip(first as int)
        }),
{
    let t = run(empty(cfg), xs);
    let w = history_laws::reopened(cfg, fs);
    let fresh = w.opened(w.pending() as u64);
    let first = wal::oldest_of(t.log.segments);
    let all = records_of(xs).skip(first as int);
    lemma_run_from_empty(cfg, xs);
    history_laws::law_restart_finds_the_log(t.log, t.files, fs, cfg, created);
    let files = history_laws::started(t.files, xs.len() as u64, created);
    assert(w.segments[0].0 == t.files[0].first);
    lemma_replay_from_oldest(w, t.files, r);
    assert(files[0].first == first);
    assert(fresh.segments[0].0 == files[0].first);
    lemma_replay_from_oldest(fresh, files, r_fresh);
}

/// A replay from the oldest cursor reads everything.
proof fn lemma_replay_from_oldest(v: WalView, ss: Seq<Written>, r: Result<WalReplayer, WalError>)
    requires
        history_laws::holds(v, ss),
        ss.len() > 0,
        wal::replays(v.segments, ss[0].first, r),
    ensures
        r matches Ok(p) && p.floor() == ss[0].first && p.ahead() == history_laws::firsts(ss),
        wal_laws::replayed(ss, ss[0].first) == wal_laws::all_records(ss),
{
    let first = ss[0].first;
    history_laws::lemma_skip_segments(ss, 0);
    history_laws::law_log_gives_back_what_it_took(v, ss, first, r);
    let k = index::containing(v.segments, first);
    index::lemma_containing(v.segments, first);
    assert(v.segments[0].0 == ss[0].first && v.segments[k].0 == ss[k].first);
    if k > 0 {
        assert(v.segments[0].0 < v.segments[k].0);
    }
    assert(ss.skip(0) =~= ss);
    assert(wal_laws::all_records(ss).skip(0) =~= wal_laws::all_records(ss));
}

} // verus!
