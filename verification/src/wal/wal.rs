//! `Wal`: the log over many file-backed segments.
//!
//! The log keeps the index of its segments, the writer of the active one and its
//! counters, and decides about rotation, retention and recovery. The files belong to the
//! caller. An append goes in three steps: [`Wal::plan_append`] says which files the append
//! needs, the caller creates them and reports to [`Wal::append`], and, once the bytes are
//! where the policy wants them, [`Wal::finish_append`] accounts for the record and says
//! which segments have to go.

use crate::error::IoKind;
use crate::wal::config::{FsyncPolicy, WalConfig};
use crate::wal::index;
use crate::wal::index::SegmentIndex;
use crate::wal::record;
use crate::wal::record::{Record, MAX_PAYLOAD_LEN, RECORD_FRAMING, SEGMENT_HEADER_LEN};
use crate::wal::segment_reader;
use crate::wal::segment_reader::{recover_truncate, ReaderError, RecoveryReport, SegmentReader};
use crate::wal::segment_writer;
use crate::wal::segment_writer::{SegmentWriter, WriterError};
use crate::wal::stats::WalStats;
use crate::wal::v2::rotation;
use crate::wal::v2::rotation::parse_segment_name;
use vstd::prelude::*;

verus! {

#[derive(Debug, Clone, Copy, PartialEq, Eq, Structural)]
pub enum WalError {
    Io(IoKind),
    Writer(WriterError),
    Reader(ReaderError),
    /// The cursor is older than the oldest one in the log.
    CursorTooOld { requested: u64, oldest: u64 },
    /// The flusher died: further appends would silently lose durability.
    Poisoned,
    PayloadTooLarge { payload_len: usize },
}

// ── Retention ────────────────────────────────────────────────────────────────

/// The place of the oldest segment that is not the active one.
pub open spec fn oldest_other(s: Seq<(u64, u64)>, active: Option<u64>) -> Option<int> {
    if s.len() > 0 && active != Some(s[0].0) {
        Some(0)
    } else if s.len() > 1 {
        Some(1)
    } else {
        None
    }
}

/// What retention leaves of the index, and the segments it deletes, oldest first: as many
/// as it takes for the total to be at most `cap`, and never the active one.
pub open spec fn retained(s: Seq<(u64, u64)>, active: Option<u64>, cap: u64) -> (
    Seq<(u64, u64)>,
    Seq<u64>,
)
    decreases s.len(),
{
    if index::total_size(s) <= cap {
        (s, Seq::empty())
    } else {
        match oldest_other(s, active) {
            None => (s, Seq::empty()),
            Some(i) => {
                let rest = retained(s.remove(i), active, cap);
                (rest.0, seq![s[i].0] + rest.1)
            },
        }
    }
}

/// Deletes the oldest segments from the index while their total exceeds `cap`. Returns
/// the first cursors of the deleted ones. The active segment is never deleted.
pub fn enforce_retention(idx: &mut SegmentIndex, active: Option<u64>, cap: u64) -> (victims: Vec<
    u64,
>)
    requires
        old(idx).wf(),
    ensures
        final(idx).wf(),
        (final(idx)@, victims@) == retained(old(idx)@, active, cap),
{
    let mut victims: Vec<u64> = Vec::new();
    assert(victims@ + retained(idx@, active, cap).1 =~= retained(idx@, active, cap).1);
    loop
        invariant
            idx.wf(),
            retained(old(idx)@, active, cap).0 == retained(idx@, active, cap).0,
            retained(old(idx)@, active, cap).1 == victims@ + retained(idx@, active, cap).1,
        decreases idx@.len(),
    {
        if idx.total() <= cap as u128 {
            assert(victims@ + Seq::<u64>::empty() =~= victims@);
            return victims;
        }
        let n: usize = idx.len();
        let place: Option<usize> = if n > 0 {
            let first: u64 = idx.entry(0).0;
            let is_active: bool = match active {
                Some(a) => a == first,
                None => false,
            };
            if !is_active {
                Some(0)
            } else if n > 1 {
                Some(1)
            } else {
                None
            }
        } else {
            None
        };
        match place {
            Some(i) => {
                let ghost before = idx@;
                let e: (u64, u64) = idx.remove_at(i);
                let ghost done = victims@;
                victims.push(e.0);
                assert(done + (seq![e.0] + retained(idx@, active, cap).1) =~= victims@ + retained(
                    idx@,
                    active,
                    cap,
                ).1);
            },
            None => {
                assert(victims@ + Seq::<u64>::empty() =~= victims@);
                return victims;
            },
        }
    }
}

/// Retention never deletes the active segment.
pub proof fn law_retention_spares_active(s: Seq<(u64, u64)>, active: u64, cap: u64)
    requires
        index::ascending(s),
        index::has_key(s, active),
    ensures
        index::has_key(retained(s, Some(active), cap).0, active),
        !retained(s, Some(active), cap).1.contains(active),
    decreases s.len(),
{
    if index::total_size(s) > cap {
        match oldest_other(s, Some(active)) {
            None => {},
            Some(i) => {
                let rest = s.remove(i);
                let k = choose|k: int| 0 <= k < s.len() && (#[trigger] s[k]).0 == active;
                if i == 1 {
                    assert(s[0].0 < s[1].0);
                }
                assert(k != i);
                let k2 = if k < i {
                    k
                } else {
                    k - 1
                };
                assert(rest[k2].0 == active);
                lemma_ascending_remove(s, i);
                law_retention_spares_active(rest, active, cap);
                let vs = retained(rest, Some(active), cap).1;
                assert forall|j: int| 0 <= j < (seq![s[i].0] + vs).len() implies (seq![s[i].0]
                    + vs)[j] != active by {
                    if j > 0 {
                        assert(vs[j - 1] == (seq![s[i].0] + vs)[j]);
                        assert(vs.contains(vs[j - 1]));
                    }
                }
            },
        }
    }
}

proof fn lemma_ascending_remove(s: Seq<(u64, u64)>, i: int)
    requires
        index::ascending(s),
        0 <= i < s.len(),
    ensures
        index::ascending(s.remove(i)),
{
    let t = s.remove(i);
    assert forall|a: int, b: int| 0 <= a < b < t.len() implies (#[trigger] t[a]).0 < (
    #[trigger] t[b]).0 by {
        let x = if a < i {
            a
        } else {
            a + 1
        };
        let y = if b < i {
            b
        } else {
            b + 1
        };
        assert(s[x].0 < s[y].0);
    }
}

/// After retention the total is within the cap, or nothing but the active segment is left.
pub proof fn law_retention_meets_cap(s: Seq<(u64, u64)>, active: Option<u64>, cap: u64)
    ensures
        ({
            let left = retained(s, active, cap).0;
            index::total_size(left) <= cap || left.len() == 0 || (left.len() == 1 && active == Some(
                left[0].0,
            ))
        }),
    decreases s.len(),
{
    if index::total_size(s) > cap {
        match oldest_other(s, active) {
            None => {},
            Some(i) => {
                law_retention_meets_cap(s.remove(i), active, cap);
            },
        }
    }
}

/// Retention deletes nothing while the total is within the cap.
pub proof fn law_retention_is_lazy(s: Seq<(u64, u64)>, active: Option<u64>, cap: u64)
    requires
        index::total_size(s) <= cap,
    ensures
        retained(s, active, cap) == (s, Seq::<u64>::empty()),
{
}

/// Retention deletes the oldest first: what it leaves behind the active segment's place is
/// newer than what it deletes.
pub proof fn law_retention_deletes_oldest(s: Seq<(u64, u64)>, active: Option<u64>, cap: u64, i: int, k: int)
    requires
        index::ascending(s),
        0 <= i < retained(s, active, cap).1.len(),
        0 <= k < retained(s, active, cap).0.len(),
        active != Some(retained(s, active, cap).0[k].0),
    ensures
        retained(s, active, cap).1[i] < retained(s, active, cap).0[k].0,
    decreases s.len(),
{
    if index::total_size(s) > cap {
        match oldest_other(s, active) {
            None => {},
            Some(p) => {
                let rest = s.remove(p);
                lemma_ascending_remove(s, p);
                lemma_retained_from(rest, active, cap);
                let left = retained(s, active, cap).0;
                if i == 0 {
                    assert(left == retained(rest, active, cap).0);
                    let m = choose|m: int|
                        0 <= m < rest.len() && #[trigger] rest[m] == retained(rest, active, cap).0[k];
                    assert(rest[m] == left[k]);
                    let x = if m < p {
                        m
                    } else {
                        m + 1
                    };
                    assert(s[x] == left[k]);
                    if x < p {
                        assert(x == 0 && p == 1);
                        assert(active == Some(s[0].0));
                    }
                    assert(s[p].0 < s[x].0);
                } else {
                    law_retention_deletes_oldest(rest, active, cap, i - 1, k);
                }
            },
        }
    }
}

/// What retention leaves was there before.
proof fn lemma_retained_from(s: Seq<(u64, u64)>, active: Option<u64>, cap: u64)
    ensures
        forall|k: int|
            0 <= k < retained(s, active, cap).0.len() ==> exists|m: int|
                0 <= m < s.len() && s[m] == #[trigger] retained(s, active, cap).0[k],
    decreases s.len(),
{
    let left = retained(s, active, cap).0;
    if index::total_size(s) > cap && oldest_other(s, active) is Some {
        let p = oldest_other(s, active)->Some_0;
        let rest = s.remove(p);
        lemma_retained_from(rest, active, cap);
        assert forall|k: int| 0 <= k < left.len() implies exists|m: int|
            0 <= m < s.len() && s[m] == #[trigger] left[k] by {
            let m = choose|m: int|
                0 <= m < rest.len() && #[trigger] rest[m] == retained(rest, active, cap).0[k];
            let x = if m < p {
                m
            } else {
                m + 1
            };
            assert(s[x] == left[k]);
        }
    } else {
        assert forall|k: int| 0 <= k < left.len() implies exists|m: int|
            0 <= m < s.len() && s[m] == #[trigger] left[k] by {
            assert(s[k] == left[k]);
        }
    }
}

// ── The log ──────────────────────────────────────────────────────────────────

/// The active segment of a log.
#[verifier::ext_equal]
pub struct ActiveView {
    pub first: u64,
    pub log: Seq<record::RecordView>,
    /// The cursor up to which its records are durable.
    pub durable: u64,
}

impl ActiveView {
    /// Bytes of the segment: header and records.
    pub open spec fn size(&self) -> nat {
        SEGMENT_HEADER_LEN as nat + segment_reader::encoded_records(self.log).len()
    }

    /// The cursor of the next record.
    pub open spec fn next(&self) -> int {
        self.first + self.log.len()
    }

    /// Whether a record with a payload of `len` bytes calls for rotation.
    pub open spec fn overflows(&self, len: nat, cap: usize) -> bool {
        self.size() + RECORD_FRAMING + len > cap
    }
}

/// What a log holds.
#[verifier::ext_equal]
pub struct WalView {
    pub cfg: WalConfig,
    /// First cursor and size of every segment.
    pub segments: Seq<(u64, u64)>,
    pub active: Option<ActiveView>,
    /// The cursor to go on at when there is no active segment.
    pub resume: u64,
    pub durable: u64,
    pub poisoned: bool,
    pub appends: u64,
    pub append_bytes: u64,
    pub flushes: u64,
}

impl WalView {
    /// The cursor of the next record.
    pub open spec fn pending(&self) -> int {
        match self.active {
            Some(a) => a.next(),
            None => self.resume as int,
        }
    }

    /// A fresh active segment at `cursor`.
    pub open spec fn opened(self, cursor: u64) -> WalView {
        WalView {
            segments: index::with_entry(self.segments, cursor, SEGMENT_HEADER_LEN as u64),
            active: Some(ActiveView { first: cursor, log: Seq::empty(), durable: cursor }),
            ..self
        }
    }

    /// No active segment any more.
    pub open spec fn detached(self) -> WalView {
        WalView { active: None, resume: self.pending() as u64, ..self }
    }

    /// The size of the active segment noted in the index.
    pub open spec fn noted(self) -> WalView {
        match self.active {
            Some(a) => WalView {
                segments: index::with_entry(self.segments, a.first, a.size() as u64),
                ..self
            },
            None => self,
        }
    }

    /// One more record in the active segment.
    pub open spec fn recorded(self, rec: record::RecordView) -> WalView {
        match self.active {
            Some(a) => WalView {
                active: Some(ActiveView { log: a.log.push(rec), ..a }),
                ..self
            }.noted(),
            None => self,
        }
    }

    /// Everything in the active segment on stable storage.
    pub open spec fn synced(self) -> WalView {
        match self.active {
            Some(a) => WalView {
                active: Some(ActiveView { durable: a.next() as u64, ..a }),
                durable: a.next() as u64,
                flushes: next_count(self.flushes, 1),
                ..self
            },
            None => self,
        }
    }

    /// Retention applied: the log, and the segments that have to be deleted.
    pub open spec fn pruned(self) -> (WalView, Seq<u64>) {
        let r = retained(
            self.segments,
            match self.active {
                Some(a) => Some(a.first),
                None => None,
            },
            self.cfg.retention_bytes,
        );
        (WalView { segments: r.0, ..self }, r.1)
    }
}

/// A counter moved on: it wraps around like the atomic counters it is published through.
pub open spec fn next_count(n: u64, by: nat) -> u64 {
    ((n + by) % 0x1_0000_0000_0000_0000) as u64
}

/// Moves a counter on.
pub fn count_on(n: u64, by: u64) -> (r: u64)
    ensures
        r == next_count(n, by as nat),
{
    n.wrapping_add(by)
}

/// A segment file that has to be created. `reuse`: the log knows a segment of that name that
/// holds no record, and its file is to be replaced; otherwise the file must not exist.
#[derive(Debug, Clone, Copy, PartialEq, Eq, Structural)]
pub struct NewSegment {
    pub first_cursor: u64,
    pub reuse: bool,
}

/// The files that an append needs.
#[derive(Debug, Clone, Copy, PartialEq, Eq)]
pub struct AppendPlan {
    /// The segment to create because there is no active one.
    pub create: Option<NewSegment>,
    /// The segment to rotate to: sync and close the active one, then create this. One that
    /// is created and rotated away at once is closed with nothing but its header in it.
    pub rotate: Option<NewSegment>,
}

/// What the file operations in front of an append gave. Those that were not needed count
/// as successes.
#[derive(Debug, Clone, Copy)]
pub struct AppendIo {
    /// Creating the first active segment.
    pub created: Result<(), IoKind>,
    /// Syncing and closing the active segment that is rotated away.
    pub closed: Result<(), IoKind>,
    /// Creating the segment that is rotated to.
    pub rotated: Result<(), IoKind>,
    /// Handing the bytes that were buffered so far to the file.
    pub written: Result<(), IoKind>,
}

/// The log goes on at the first cursor of a segment that holds no record.
pub open spec fn vacant(v: WalView, cursor: u64) -> bool {
    &&& v.active is None
    &&& cursor == v.resume
    &&& index::size_at(v.segments, cursor) == SEGMENT_HEADER_LEN
}

/// Why an append is refused, or not done, before anything is touched.
pub open spec fn refusal(v: WalView, len: nat) -> Option<Result<(), WalError>> {
    if !v.cfg.enabled {
        Some(Ok(()))
    } else if len > MAX_PAYLOAD_LEN {
        Some(Err(WalError::PayloadTooLarge { payload_len: len as usize }))
    } else if v.poisoned {
        Some(Err(WalError::Poisoned))
    } else {
        None
    }
}

/// The log that is rotated to a segment at `cursor`, and whether that succeeded.
pub open spec fn rotated(
    v: WalView,
    cursor: u64,
    closed: Result<(), IoKind>,
    created: Result<(), IoKind>,
) -> (WalView, Result<(), WalError>) {
    match (closed, created) {
        (Err(kind), _) => (v.detached(), Err(WalError::Writer(WriterError::Io(kind)))),
        (Ok(_), Err(kind)) => (
            v.noted().detached(),
            Err(WalError::Writer(WriterError::Io(kind))),
        ),
        (Ok(_), Ok(_)) => (v.noted().detached().opened(cursor), Ok(())),
    }
}

/// The log with an active segment for a record of `len` payload bytes at `cursor`, and
/// whether that succeeded: created if there was none, rotated if it would overflow.
pub open spec fn prepared(v: WalView, cursor: u64, len: nat, io: AppendIo) -> (
    WalView,
    Result<(), WalError>,
) {
    let created: (WalView, Result<(), WalError>) = match (v.active, io.created) {
        (Some(_), _) => (v, Ok(())),
        (None, Err(kind)) => (v, Err(WalError::Writer(WriterError::Io(kind)))),
        (None, Ok(_)) => (v.opened(cursor), Ok(())),
    };
    match created {
        (w, Err(e)) => (w, Err(e)),
        (w, Ok(_)) => if w.active->Some_0.overflows(len, v.cfg.segment_size_max) {
            rotated(w, cursor, io.closed, io.rotated)
        } else {
            (w, Ok(()))
        },
    }
}

/// Whether an append of `len` payload bytes at `cursor` starts a segment.
pub open spec fn starts_segment(v: WalView, cursor: u64, len: nat, io: AppendIo) -> bool {
    &&& refusal(v, len) is None
    &&& prepared(v, cursor, len, io).1 is Ok
    &&& v.active matches Some(a) ==> a.overflows(len, v.cfg.segment_size_max)
}

/// An append: the log after it, and what it returns.
pub open spec fn appended(v: WalView, rec: record::RecordView, io: AppendIo) -> (
    WalView,
    Result<(), WalError>,
) {
    match refusal(v, rec.payload.len()) {
        Some(r) => (v, r),
        None => match prepared(v, rec.cursor, rec.payload.len(), io) {
            (w, Err(e)) => (w, Err(e)),
            (w, Ok(_)) => {
                let expected = w.active->Some_0.next();
                if rec.cursor != expected {
                    (
                        w,
                        Err(
                            WalError::Writer(
                                WriterError::CursorRegressed {
                                    got: rec.cursor,
                                    expected: expected as u64,
                                },
                            ),
                        ),
                    )
                } else {
                    match io.written {
                        Err(kind) => (w, Err(WalError::Writer(WriterError::Io(kind)))),
                        Ok(_) => (w.recorded(rec), Ok(())),
                    }
                }
            },
        },
    }
}

/// The end of an append: the log after it, and the segments to delete or the error.
pub open spec fn finished(v: WalView, len: nat, synced: Result<(), IoKind>) -> (
    WalView,
    Result<Seq<u64>, WalError>,
) {
    if !v.cfg.enabled {
        (v, Ok(Seq::empty()))
    } else {
        match (v.cfg.fsync_policy, synced) {
            (FsyncPolicy::Each, Err(kind)) => (
                v,
                Err(WalError::Writer(WriterError::Io(kind))),
            ),
            (policy, _) => {
                let s = if policy == FsyncPolicy::Each {
                    v.synced()
                } else {
                    v
                };
                let counted = WalView {
                    appends: next_count(s.appends, 1),
                    append_bytes: next_count(s.append_bytes, len),
                    ..s
                };
                let r = counted.pruned();
                (r.0, Ok(r.1))
            },
        }
    }
}

/// What a recovery scan of the segments found so far.
pub struct WalRecovery {
    index: SegmentIndex,
    /// First cursor of the newest segment and cursor of its last record.
    newest: Option<(u64, Option<u64>)>,
}

impl WalRecovery {
    /// First cursor and size of the segments found so far.
    pub closed spec fn segments(&self) -> Seq<(u64, u64)> {
        self.index@
    }

    /// First cursor of the newest segment and cursor of its last record.
    pub closed spec fn newest(&self) -> Option<(u64, Option<u64>)> {
        self.newest
    }

    pub closed spec fn wf(&self) -> bool {
        &&& self.index.wf()
        &&& match self.newest {
            None => self.index@.len() == 0,
            Some((first, _)) => self.index@.len() > 0 && self.index@.last().0 == first,
        }
    }

    /// What ties the newest segment to the index.
    pub proof fn lemma_wf(&self)
        requires
            self.wf(),
        ensures
            index::ascending(self.segments()),
            self.newest() is None <==> self.segments().len() == 0,
            self.newest() is Some ==> self.segments().last().0 == self.newest()->Some_0.0,
    {
    }

    /// No segments yet.
    pub fn new() -> (r: WalRecovery)
        ensures
            r.wf(),
            r.segments() == Seq::<(u64, u64)>::empty(),
            r.newest() is None,
    {
        WalRecovery { index: SegmentIndex::new(), newest: None }
    }

    /// Looks at one file of the WAL directory. A file that is not a segment is ignored
    /// (`None`). A segment is scanned, and the report says how long it has to be
    /// afterwards: the torn record at its end is cut off.
    pub fn add_file(&mut self, name: &str, contents: Result<Vec<u8>, IoKind>) -> (r: Result<
        Option<RecoveryReport>,
        WalError,
    >)
        requires
            old(self).wf(),
        ensures
            final(self).wf(),
            match rotation::cursor_of_name(name@) {
                None => {
                    &&& r == Ok::<Option<RecoveryReport>, WalError>(None)
                    &&& *final(self) == *old(self)
                },
                Some(first) => match contents {
                    Err(kind) => {
                        &&& r == Err::<Option<RecoveryReport>, WalError>(
                            WalError::Reader(ReaderError::Io(kind)),
                        )
                        &&& *final(self) == *old(self)
                    },
                    Ok(bytes) => match record::parsed_header(bytes@) {
                        Err(e) => {
                            &&& r == Err::<Option<RecoveryReport>, WalError>(
                                WalError::Reader(ReaderError::Header(e)),
                            )
                            &&& *final(self) == *old(self)
                        },
                        Ok(_) => {
                            let report = segment_reader::recovered(bytes@);
                            &&& r == Ok::<Option<RecoveryReport>, WalError>(Some(report))
                            &&& final(self).segments() == index::with_entry(
                                old(self).segments(),
                                first,
                                report.final_len,
                            )
                            &&& final(self).newest() == (match old(self).newest() {
                                Some((newest, last)) if newest > first => Some((newest, last)),
                                _ => Some(
                                    (
                                        first,
                                        segment_reader::highest_of(
                                            segment_reader::scan(
                                                bytes@,
                                                SEGMENT_HEADER_LEN as int,
                                            ).records,
                                        ),
                                    ),
                                ),
                            })
                        },
                    },
                },
            },
    {
        let first: u64 = match parse_segment_name(name) {
            Some(c) => c,
            None => {
                return Ok(None);
            },
        };
        let report: RecoveryReport = match recover_truncate(contents) {
            Ok(rep) => rep,
            Err(e) => {
                return Err(WalError::Reader(e));
            },
        };
        proof {
            lemma_last_after_insert(self.index@, first, report.final_len);
            segment_reader::lemma_scan_end(contents->Ok_0@, SEGMENT_HEADER_LEN as int);
        }
        self.index.insert(first, report.final_len);
        let replace: bool = match self.newest {
            Some((newest, _)) => newest <= first,
            None => true,
        };
        if replace {
            let last: Option<u64> = if report.final_len > SEGMENT_HEADER_LEN as u64 {
                report.last_cursor
            } else {
                None
            };
            self.newest = Some((first, last));
        }
        Ok(Some(report))
    }

    /// Where the log goes on: behind the last record of the newest segment, at its first
    /// cursor if it has none.
    pub open spec fn next_cursor_is(&self) -> int {
        match self.newest() {
            None => 0,
            Some((_, Some(last))) => last + 1,
            Some((first, None)) => first as int,
        }
    }

    /// Whether the log can go on: not if the last cursor is taken.
    pub fn has_next(&self) -> (b: bool)
        ensures
            b == (self.next_cursor_is() <= u64::MAX),
    {
        match self.newest {
            Some((_, Some(last))) => last < u64::MAX,
            _ => true,
        }
    }

    /// Where the log goes on.
    pub fn next_cursor(&self) -> (c: u64)
        requires
            self.next_cursor_is() <= u64::MAX,
        ensures
            c == self.next_cursor_is(),
    {
        match self.newest {
            None => 0,
            Some((_, Some(last))) => last + 1,
            Some((first, None)) => first,
        }
    }

    /// Whether the log needs a fresh segment right away: its newest one holds records.
    pub open spec fn needs_segment_is(&self) -> bool {
        match self.newest() {
            None => false,
            Some((first, _)) => self.next_cursor_is() != first,
        }
    }

    /// The segment that has to be created before the log is opened, if any. Other logs
    /// create theirs with the first append, so that one that is never used leaves no empty
    /// segment behind.
    pub fn needs_segment(&self) -> (r: Option<NewSegment>)
        requires
            self.wf(),
            self.next_cursor_is() <= u64::MAX,
        ensures
            r == (if self.needs_segment_is() {
                Some(
                    NewSegment {
                        first_cursor: self.next_cursor_is() as u64,
                        reuse: false,
                    },
                )
            } else {
                None
            }),
    {
        match self.newest {
            None => None,
            Some((first, _)) => {
                let next: u64 = self.next_cursor();
                if next == first {
                    None
                } else {
                    Some(NewSegment { first_cursor: next, reuse: false })
                }
            },
        }
    }
}

/// The newest entry after one was set.
proof fn lemma_last_after_insert(s: Seq<(u64, u64)>, key: u64, size: u64)
    requires
        index::ascending(s),
    ensures
        index::with_entry(s, key, size).len() > 0,
        index::with_entry(s, key, size).last().0 == (if s.len() > 0 && s.last().0 > key {
            s.last().0
        } else {
            key
        }),
{
    index::lemma_place_of(s, key);
    let p = index::place_of(s, key);
    let t = index::with_entry(s, key, size);
    if p < s.len() && s[p].0 == key {
        if p < s.len() - 1 {
            assert(s[p].0 < s[s.len() - 1].0);
        }
    } else {
        if p < s.len() {
            assert(s[s.len() - 1].0 >= key);
            if s[s.len() - 1].0 == key {
                if p < s.len() - 1 {
                    assert(s[p].0 < s[s.len() - 1].0);
                }
            }
        } else {
            assert(s.len() > 0 ==> s[s.len() - 1].0 < key);
        }
    }
}

/// The log over many segments.
pub struct Wal {
    cfg: WalConfig,
    index: SegmentIndex,
    writer: Option<SegmentWriter>,
    resume: u64,
    durable: u64,
    poisoned: bool,
    appends: u64,
    append_bytes: u64,
    flushes: u64,
}

/// What a segment writer contributes to a log.
pub open spec fn active_view(w: SegmentWriter) -> ActiveView {
    ActiveView { first: w.first(), log: w.log(), durable: w.durable() }
}

impl View for Wal {
    type V = WalView;

    closed spec fn view(&self) -> WalView {
        WalView {
            cfg: self.cfg,
            segments: self.index@,
            active: match self.writer {
                Some(w) => Some(active_view(w)),
                None => None,
            },
            resume: self.resume,
            durable: self.durable,
            poisoned: self.poisoned,
            appends: self.appends,
            append_bytes: self.append_bytes,
            flushes: self.flushes,
        }
    }
}

impl Wal {
    pub closed spec fn wf(&self) -> bool {
        &&& self.index.wf()
        &&& match self.writer {
            Some(w) => w.wf(),
            None => true,
        }
    }

    /// What holds of every log.
    pub proof fn lemma_wf(&self)
        requires
            self.wf(),
        ensures
            index::ascending(self@.segments),
            self@.pending() <= u64::MAX,
            self@.active matches Some(a) ==> {
                &&& segment_reader::payloads_fit(a.log)
                &&& segment_writer::consecutive(a.log, a.first)
                &&& a.size() <= u64::MAX
                &&& self.handed() + self.unwritten() == segment_writer::segment_bytes(
                    a.first,
                    self.created_at(),
                    a.log,
                )
            },
    {
        match self.writer {
            Some(w) => {
                w.lemma_wf();
                lemma_writer_size(w);
            },
            None => {},
        }
    }

    /// The bytes of the active segment that its file does not hold yet.
    pub closed spec fn unwritten(&self) -> Seq<u8> {
        match self.writer {
            Some(w) => w.buffered(),
            None => Seq::empty(),
        }
    }

    /// The bytes of the active segment that were handed over to its file.
    pub closed spec fn handed(&self) -> Seq<u8> {
        match self.writer {
            Some(w) => w.in_file(),
            None => Seq::empty(),
        }
    }

    /// When the active segment was created.
    pub closed spec fn created_at(&self) -> u64 {
        match self.writer {
            Some(w) => w.created_at(),
            None => 0,
        }
    }

    /// Whether the file of the active segment is the one that `before` had, with the same
    /// bytes in it.
    pub open spec fn keeps_file(&self, before: Wal) -> bool {
        self.handed() == before.handed() && self.created_at() == before.created_at()
    }

    /// Opens a log on what recovery found, given what creating the segment it needs gave
    /// (see [`WalRecovery::needs_segment`]).
    pub fn open(cfg: WalConfig, found: WalRecovery, created: Result<(), IoKind>) -> (r: Result<
        Wal,
        WalError,
    >)
        requires
            found.wf(),
            found.next_cursor_is() <= u64::MAX,
        ensures
            ({
                let base = WalView {
                    cfg,
                    segments: found.segments(),
                    active: None,
                    resume: found.next_cursor_is() as u64,
                    durable: found.next_cursor_is() as u64,
                    poisoned: false,
                    appends: 0,
                    append_bytes: 0,
                    flushes: 0,
                };
                match (found.needs_segment_is(), created) {
                    (true, Err(kind)) => r == Err::<Wal, WalError>(
                        WalError::Writer(WriterError::Io(kind)),
                    ),
                    (true, Ok(_)) => {
                        &&& r matches Ok(w)
                        &&& w.wf()
                        &&& w@ == base.opened(found.next_cursor_is() as u64)
                        &&& w.handed() == Seq::<u8>::empty()
                    },
                    (false, _) => {
                        &&& r matches Ok(w)
                        &&& w.wf()
                        &&& w@ == base
                    },
                }
            }),
    {
        let next: u64 = found.next_cursor();
        let fresh: Option<NewSegment> = found.needs_segment();
        let mut wal = Wal {
            cfg,
            index: found.index,
            writer: None,
            resume: next,
            durable: next,
            poisoned: false,
            appends: 0,
            append_bytes: 0,
            flushes: 0,
        };
        match fresh {
            None => Ok(wal),
            Some(_) => match wal.start_segment(next, created) {
                Err(e) => Err(e),
                Ok(_) => Ok(wal),
            },
        }
    }

    /// Makes a fresh segment the active one, given what creating its file gave.
    fn start_segment(&mut self, cursor: u64, created: Result<(), IoKind>) -> (r: Result<
        (),
        WalError,
    >)
        requires
            old(self).wf(),
        ensures
            final(self).wf(),
            match created {
                Err(kind) => {
                    &&& r == Err::<(), WalError>(WalError::Writer(WriterError::Io(kind)))
                    &&& final(self)@ == old(self)@
                    &&& final(self).keeps_file(*old(self))
                },
                Ok(_) => {
                    &&& r == Ok::<(), WalError>(())
                    &&& final(self)@ == old(self)@.opened(cursor)
                    &&& final(self).handed() == Seq::<u8>::empty()
                },
            },
    {
        match SegmentWriter::create(cursor, created) {
            Err(e) => Err(WalError::Writer(e)),
            Ok(w) => {
                self.index.insert(cursor, SEGMENT_HEADER_LEN as u64);
                self.writer = Some(w);
                proof {
                    assert(self@ =~= old(self)@.opened(cursor));
                }
                Ok(())
            },
        }
    }

    /// Rotates to a fresh segment at `cursor`.
    fn rotate(
        &mut self,
        cursor: u64,
        closed: Result<(), IoKind>,
        created: Result<(), IoKind>,
    ) -> (r: Result<(), WalError>)
        requires
            old(self).wf(),
            old(self)@.active is Some,
        ensures
            final(self).wf(),
            (final(self)@, r) == rotated(old(self)@, cursor, closed, created),
            final(self).handed() == Seq::<u8>::empty(),
    {
        let taken: Option<SegmentWriter> = self.writer.take();
        match taken {
            Some(w) => {
                let first: u64 = w.first_cursor();
                let final_bytes: u64 = w.bytes_written();
                proof {
                    w.lemma_wf();
                    lemma_writer_size(w);
                }
                self.resume = w.pending_cursor();
                match w.close(closed) {
                    Err(e) => {
                        assert(self@ =~= old(self)@.detached());
                        return Err(WalError::Writer(e));
                    },
                    Ok(_) => {},
                }
                self.index.insert(first, final_bytes);
                assert(self@ =~= old(self)@.noted().detached());
            },
            None => {},
        }
        self.start_segment(cursor, created)
    }

    /// Whether a record with a payload of `len` bytes calls for rotation of the active
    /// segment, or of a fresh one if there is none.
    fn calls_for_rotation(&self, len: usize) -> (b: bool)
        requires
            self.wf(),
            len <= MAX_PAYLOAD_LEN,
        ensures
            b == (match self@.active {
                Some(a) => a.overflows(len as nat, self@.cfg.segment_size_max),
                None => SEGMENT_HEADER_LEN + RECORD_FRAMING + len > self@.cfg.segment_size_max,
            }),
    {
        let size: u64 = match &self.writer {
            Some(w) => {
                proof {
                    lemma_writer_size(*w);
                }
                w.bytes_written()
            },
            None => SEGMENT_HEADER_LEN as u64,
        };
        let room: u128 = size as u128 + RECORD_FRAMING as u128 + len as u128;
        room > self.cfg.segment_size_max as u128
    }

    /// Says which files an append of `len` payload bytes at `cursor` needs. The file of a
    /// segment is replaced only where the log goes on at its first cursor without an active
    /// segment, and it holds no record. Any other file must not exist.
    pub fn plan_append(&self, cursor: u64, len: usize) -> (plan: AppendPlan)
        requires
            self.wf(),
        ensures
            ({
                let fresh = NewSegment {
                    first_cursor: cursor,
                    reuse: vacant(self@, cursor),
                };
                &&& refusal(self@, len as nat) is Some ==> plan.create is None
                    && plan.rotate is None
                &&& refusal(self@, len as nat) is None ==> {
                    let w = match self@.active {
                        Some(_) => self@,
                        None => self@.opened(cursor),
                    };
                    &&& plan.create == (if self@.active is None {
                        Some(fresh)
                    } else {
                        None
                    })
                    &&& plan.rotate == (if w.active->Some_0.overflows(
                        len as nat,
                        self@.cfg.segment_size_max,
                    ) {
                        Some(
                            NewSegment {
                                first_cursor: cursor,
                                reuse: false,
                            },
                        )
                    } else {
                        None
                    })
                }
            }),
    {
        if !self.cfg.enabled || len > MAX_PAYLOAD_LEN || self.poisoned {
            return AppendPlan { create: None, rotate: None };
        }
        let idle: bool = self.writer.is_none();
        let create: Option<NewSegment> = if idle {
            Some(
                NewSegment {
                    first_cursor: cursor,
                    reuse: cursor == self.resume && self.index.size(cursor)
                        == SEGMENT_HEADER_LEN as u64,
                },
            )
        } else {
            None
        };
        let overflow: bool = self.calls_for_rotation(len);
        let rotate: Option<NewSegment> = if overflow {
            Some(NewSegment { first_cursor: cursor, reuse: false })
        } else {
            None
        };
        AppendPlan { create, rotate }
    }

    /// Appends one record, given what the file operations of [`Self::plan_append`] gave.
    /// A log that is switched off takes no records. The record stands in the active
    /// segment's buffer afterwards; go on with [`Self::finish_append`].
    pub fn append(&mut self, cursor: u64, ts_unix_nanos: u64, payload: &[u8], io: AppendIo) -> (r:
        Result<(), WalError>)
        requires
            old(self).wf(),
            cursor < u64::MAX,
        ensures
            final(self).wf(),
            (final(self)@, r) == appended(
                old(self)@,
                record::RecordView { cursor, ts_unix_nanos, payload: payload@ },
                io,
            ),
            final(self)@.active is Some ==> if starts_segment(
                old(self)@,
                cursor,
                payload@.len(),
                io,
            ) {
                final(self).handed() == Seq::<u8>::empty()
            } else {
                final(self).keeps_file(*old(self))
            },
    {
        let ghost rec = record::RecordView { cursor, ts_unix_nanos, payload: payload@ };
        if !self.cfg.enabled {
            return Ok(());
        }
        if payload.len() > MAX_PAYLOAD_LEN {
            return Err(WalError::PayloadTooLarge { payload_len: payload.len() });
        }
        if self.poisoned {
            return Err(WalError::Poisoned);
        }
        if self.writer.is_none() {
            match self.start_segment(cursor, io.created) {
                Err(e) => {
                    return Err(e);
                },
                Ok(_) => {},
            }
        }
        if self.calls_for_rotation(payload.len()) {
            match self.rotate(cursor, io.closed, io.rotated) {
                Err(e) => {
                    return Err(e);
                },
                Ok(_) => {},
            }
        }
        let ghost ready = self@;
        assert((ready, Ok::<(), WalError>(())) == prepared(old(self)@, cursor, payload@.len(), io));
        let taken: Option<SegmentWriter> = self.writer.take();
        match taken {
            None => Ok(()),
            Some(mut w) => {
                proof {
                    w.lemma_wf();
                    lemma_writer_size(w);
                    lemma_fresh_size();
                }
                if cursor != w.pending_cursor() {
                    let expected: u64 = w.pending_cursor();
                    self.writer = Some(w);
                    assert(self@ =~= ready);
                    return Err(
                        WalError::Writer(WriterError::CursorRegressed { got: cursor, expected }),
                    );
                }
                match io.written {
                    Err(kind) => {
                        self.writer = Some(w);
                        assert(self@ =~= ready);
                        return Err(WalError::Writer(WriterError::Io(kind)));
                    },
                    Ok(_) => {},
                }
                let ghost before = w;
                match w.append(cursor, ts_unix_nanos, payload) {
                    Err(e) => {
                        self.writer = Some(w);
                        Err(WalError::Writer(e))
                    },
                    Ok(_) => {
                        proof {
                            w.lemma_wf();
                            lemma_writer_size(w);
                        }
                        let first: u64 = w.first_cursor();
                        let bytes: u64 = w.bytes_written();
                        self.index.insert(first, bytes);
                        self.writer = Some(w);
                        assert(self@ =~= ready.recorded(rec));
                        Ok(())
                    },
                }
            },
        }
    }

    /// Hands over the bytes of the active segment that its file does not hold yet.
    pub fn take_buffered(&mut self) -> (bytes: Vec<u8>)
        requires
            old(self).wf(),
        ensures
            final(self).wf(),
            final(self)@ == old(self)@,
            bytes@ == old(self).unwritten(),
            final(self).unwritten() == Seq::<u8>::empty(),
            old(self)@.active is Some ==> final(self).handed() == old(self).handed() + bytes@,
            final(self).created_at() == old(self).created_at(),
    {
        let taken: Option<SegmentWriter> = self.writer.take();
        match taken {
            None => Vec::new(),
            Some(mut w) => {
                let bytes: Vec<u8> = w.take_buffered();
                self.writer = Some(w);
                assert(self@ =~= old(self)@);
                bytes
            },
        }
    }

    /// Ends an append of `len` payload bytes that went well so far: under
    /// [`FsyncPolicy::Each`] the active segment was synced, and `synced` says how that
    /// went. Returns the segments that retention deletes.
    pub fn finish_append(&mut self, len: usize, synced: Result<(), IoKind>) -> (r: Result<
        Vec<u64>,
        WalError,
    >)
        requires
            old(self).wf(),
        ensures
            final(self).wf(),
            match (r, finished(old(self)@, len as nat, synced)) {
                (Ok(victims), (v, Ok(deleted))) => victims@ == deleted && final(self)@ == v,
                (Err(e), (v, Err(want))) => e == want && final(self)@ == v,
                _ => false,
            },
            final(self).keeps_file(*old(self)),
    {
        if !self.cfg.enabled {
            return Ok(Vec::new());
        }
        let each: bool = match self.cfg.fsync_policy {
            FsyncPolicy::Each => true,
            _ => false,
        };
        if each {
            match self.record_sync(synced) {
                Err(e) => {
                    return Err(e);
                },
                Ok(_) => {},
            }
        }
        self.appends = count_on(self.appends, 1);
        self.append_bytes = count_on(self.append_bytes, len as u64);
        let active: Option<u64> = match &self.writer {
            Some(w) => Some(w.first_cursor()),
            None => None,
        };
        let ghost counted = self@;
        let victims: Vec<u64> = enforce_retention(
            &mut self.index,
            active,
            self.cfg.retention_bytes,
        );
        assert(self@ =~= counted.pruned().0);
        Ok(victims)
    }

    /// Takes down what syncing the active segment gave.
    fn record_sync(&mut self, synced: Result<(), IoKind>) -> (r: Result<(), WalError>)
        requires
            old(self).wf(),
        ensures
            final(self).wf(),
            match synced {
                Err(kind) => {
                    &&& r == Err::<(), WalError>(WalError::Writer(WriterError::Io(kind)))
                    &&& final(self)@ == old(self)@
                },
                Ok(_) => r == Ok::<(), WalError>(()) && final(self)@ == old(self)@.synced(),
            },
            final(self).keeps_file(*old(self)),
    {
        match synced {
            Err(kind) => Err(WalError::Writer(WriterError::Io(kind))),
            Ok(_) => {
                let taken: Option<SegmentWriter> = self.writer.take();
                match taken {
                    None => {
                        assert(self@ =~= old(self)@);
                    },
                    Some(mut w) => {
                        proof {
                            w.lemma_wf();
                        }
                        match w.fsync(synced) {
                            Ok(d) => {
                                self.durable = d;
                            },
                            Err(_) => {},
                        }
                        self.writer = Some(w);
                        self.flushes = count_on(self.flushes, 1);
                        assert(self@ =~= old(self)@.synced());
                    },
                }
                Ok(())
            },
        }
    }

    /// Syncs the active segment, if there is one, whatever the policy says: `synced` is
    /// what that gave.
    pub fn fsync(&mut self, synced: Result<(), IoKind>) -> (r: Result<(), WalError>)
        requires
            old(self).wf(),
        ensures
            final(self).wf(),
            match (old(self)@.active, synced) {
                (Some(_), Err(kind)) => {
                    &&& r == Err::<(), WalError>(WalError::Writer(WriterError::Io(kind)))
                    &&& final(self)@ == old(self)@
                },
                _ => r == Ok::<(), WalError>(()) && final(self)@ == old(self)@.synced(),
            },
            final(self).keeps_file(*old(self)),
    {
        if self.writer.is_none() {
            return Ok(());
        }
        self.record_sync(synced)
    }

    /// One tick of the flusher. A failed sync poisons the log, and the flusher stops: the
    /// result says whether it goes on.
    pub fn flush_tick(&mut self, synced: Result<(), IoKind>) -> (go_on: bool)
        requires
            old(self).wf(),
        ensures
            final(self).wf(),
            match (old(self)@.active, synced) {
                (Some(_), Err(_)) => {
                    &&& !go_on
                    &&& final(self)@ == (WalView { poisoned: true, ..old(self)@ })
                },
                _ => go_on && final(self)@ == old(self)@.synced(),
            },
            final(self).keeps_file(*old(self)),
    {
        match self.fsync(synced) {
            Ok(_) => true,
            Err(_) => {
                self.poisoned = true;
                false
            },
        }
    }

    /// The segment that a generation bump rotates to, if there is an active one.
    pub fn plan_bump(&self) -> (r: Option<NewSegment>)
        requires
            self.wf(),
        ensures
            r == (match self@.active {
                Some(a) => Some(
                    NewSegment {
                        first_cursor: a.next() as u64,
                        reuse: false,
                    },
                ),
                None => None,
            }),
    {
        match &self.writer {
            Some(w) => {
                proof {
                    w.lemma_wf();
                }
                let next: u64 = w.pending_cursor();
                Some(NewSegment { first_cursor: next, reuse: false })
            },
            None => None,
        }
    }

    /// Rotates the active segment, if there is one, so that a new publisher never appends
    /// behind the records of the one before.
    pub fn bump_generation(&mut self, closed: Result<(), IoKind>, created: Result<(), IoKind>) -> (r:
        Result<(), WalError>)
        requires
            old(self).wf(),
        ensures
            final(self).wf(),
            (final(self)@, r) == (match old(self)@.active {
                Some(a) => rotated(old(self)@, a.next() as u64, closed, created),
                None => (old(self)@, Ok(())),
            }),
            final(self).handed() == Seq::<u8>::empty(),
    {
        let next: Option<u64> = match &self.writer {
            Some(w) => {
                proof {
                    w.lemma_wf();
                }
                Some(w.pending_cursor())
            },
            None => None,
        };
        match next {
            None => Ok(()),
            Some(cursor) => self.rotate(cursor, closed, created),
        }
    }

    /// The cursor up to which records are durable: subscribers under
    /// [`FsyncPolicy::Batched`] are held to it.
    pub fn durable_cursor(&self) -> (c: u64)
        ensures
            c == self@.durable,
    {
        self.durable
    }

    /// The cursor of the next record.
    pub fn pending_cursor(&self) -> (c: u64)
        requires
            self.wf(),
        ensures
            c == self@.pending(),
    {
        match &self.writer {
            Some(w) => {
                proof {
                    w.lemma_wf();
                }
                w.pending_cursor()
            },
            None => self.resume,
        }
    }

    /// First cursor still in any segment: 0 for an empty log.
    pub fn oldest_cursor(&self) -> (c: u64)
        ensures
            c == oldest_of(self@.segments),
    {
        match self.index.first() {
            Some(c) => c,
            None => 0,
        }
    }

    /// The first cursor of the active segment.
    pub fn active_segment(&self) -> (r: Option<u64>)
        ensures
            r == (match self@.active {
                Some(a) => Some(a.first),
                None => None,
            }),
    {
        match &self.writer {
            Some(w) => Some(w.first_cursor()),
            None => None,
        }
    }

    /// Reads the records from `cursor` on. Refuses a cursor that is older than the oldest
    /// segment.
    pub fn read_from(&self, cursor: u64) -> (r: Result<WalReplayer, WalError>)
        requires
            self.wf(),
        ensures
            replays(self@.segments, cursor, r),
    {
        replay_index(&self.index, cursor)
    }

    /// Snapshot for monitoring.
    pub fn stats(&self) -> (s: WalStats)
        requires
            self.wf(),
        ensures
            s == (WalStats {
                pending_cursor: self@.pending() as u64,
                durable_cursor: self@.durable,
                oldest_cursor: oldest_of(self@.segments),
                active_segment_bytes: match self@.active {
                    Some(a) => a.size() as u64,
                    None => 0,
                },
                total_wal_bytes: if index::total_size(self@.segments) > u64::MAX {
                    u64::MAX
                } else {
                    index::total_size(self@.segments) as u64
                },
                segments: self@.segments.len() as usize,
                appends_total: self@.appends,
                append_bytes_total: self@.append_bytes,
                flushes_total: self@.flushes,
            }),
    {
        let total: u128 = self.index.total();
        WalStats {
            pending_cursor: self.pending_cursor(),
            durable_cursor: self.durable,
            oldest_cursor: self.oldest_cursor(),
            active_segment_bytes: match &self.writer {
                Some(w) => {
                    proof {
                        lemma_writer_size(*w);
                    }
                    w.bytes_written()
                },
                None => 0,
            },
            total_wal_bytes: if total > u64::MAX as u128 {
                u64::MAX
            } else {
                total as u64
            },
            segments: self.index.len(),
            appends_total: self.appends,
            append_bytes_total: self.append_bytes,
            flushes_total: self.flushes,
        }
    }
}

/// The first cursor of the oldest segment: 0 if there is none.
pub open spec fn oldest_of(s: Seq<(u64, u64)>) -> u64 {
    if s.len() == 0 {
        0
    } else {
        s[0].0
    }
}

/// A writer has written what its log says.
proof fn lemma_writer_size(w: SegmentWriter)
    requires
        w.wf(),
    ensures
        active_view(w).size() == w.content().len(),
        active_view(w).next() == w.pending(),
        active_view(w).size() <= u64::MAX,
{
    w.lemma_wf();
    w.lemma_size();
    record::lemma_header_bytes(record::SEGMENT_VERSION, w.first(), w.created_at());
}

proof fn lemma_fresh_size()
    ensures
        segment_reader::encoded_records(Seq::empty()).len() == 0,
{
}

// ── Replay ───────────────────────────────────────────────────────────────────

/// What a replay of these segments from `cursor` on is.
pub open spec fn replays(
    segments: Seq<(u64, u64)>,
    cursor: u64,
    r: Result<WalReplayer, WalError>,
) -> bool {
    if segments.len() > 0 && cursor < segments[0].0 {
        r == Err::<WalReplayer, WalError>(
            WalError::CursorTooOld { requested: cursor, oldest: segments[0].0 },
        )
    } else {
        &&& r matches Ok(p)
        &&& p.wf()
        &&& p.floor() == cursor
        &&& p.ahead() == index::keys(segments.skip(index::containing(segments, cursor)))
        &&& p.reading() is None
    }
}

/// Starts a replay over the segments of an index.
pub fn replay_index(idx: &SegmentIndex, cursor: u64) -> (r: Result<WalReplayer, WalError>)
    requires
        idx.wf(),
    ensures
        replays(idx@, cursor, r),
{
    match idx.first() {
        None => {
            assert(idx@.skip(0).len() == 0);
            assert(index::keys(idx@.skip(0)) =~= Seq::<u64>::empty());
            Ok(WalReplayer::new(Vec::new(), cursor))
        },
        Some(oldest) => {
            if cursor < oldest {
                return Err(WalError::CursorTooOld { requested: cursor, oldest });
            }
            Ok(WalReplayer::new(idx.from_cursor(cursor), cursor))
        },
    }
}

/// What a replay needs or gives next.
#[derive(Debug)]
pub enum ReplayStep {
    /// Read the segment that starts here, and report to [`WalReplayer::opened`].
    Open(u64),
    /// The next record, or what is wrong with it.
    Yield(Result<Record, WalError>),
    /// There are no more records.
    End,
}

/// Reads the records of several segments in order, from a cursor on.
pub struct WalReplayer {
    segments: Vec<u64>,
    seg_idx: usize,
    cursor_floor: u64,
    current: Option<SegmentReader>,
}

/// The segment that is being read: its bytes, the position in them, and whether a bad
/// record ended the reading.
#[verifier::ext_equal]
pub struct ReadingView {
    pub file: Seq<u8>,
    pub pos: int,
    pub halted: bool,
}

/// What reading on in a segment gives: the next record at the cursor floor or above, and
/// where that leaves the reading. `None`: the segment is done.
pub open spec fn read_on(r: ReadingView, floor: u64) -> (
    Option<Result<record::RecordView, ReaderError>>,
    ReadingView,
)
    decreases r.file.len() - r.pos,
{
    if r.halted {
        (None, r)
    } else {
        match segment_reader::record_at(r.file, r.pos) {
            Ok(None) => (None, r),
            Err(e) => (Some(Err(e)), ReadingView { halted: true, ..r }),
            Ok(Some((rec, n))) => {
                let next = ReadingView { pos: r.pos + n, ..r };
                if rec.cursor < floor {
                    read_on(next, floor)
                } else {
                    (Some(Ok(rec)), next)
                }
            },
        }
    }
}

impl WalReplayer {
    /// The cursor below which records are skipped.
    pub closed spec fn floor(&self) -> u64 {
        self.cursor_floor
    }

    /// The segments that are still to be read.
    pub closed spec fn ahead(&self) -> Seq<u64> {
        self.segments@.skip(self.seg_idx as int)
    }

    /// The segment that is being read.
    pub closed spec fn reading(&self) -> Option<ReadingView> {
        match self.current {
            Some(rd) => Some(
                ReadingView { file: rd.file(), pos: rd.position(), halted: rd.is_halted() },
            ),
            None => None,
        }
    }

    pub closed spec fn wf(&self) -> bool {
        &&& self.seg_idx <= self.segments@.len()
        &&& match self.current {
            Some(rd) => rd.wf(),
            None => true,
        }
    }

    pub fn new(segments: Vec<u64>, cursor_floor: u64) -> (r: WalReplayer)
        ensures
            r.wf(),
            r.floor() == cursor_floor,
            r.ahead() == segments@,
            r.reading() is None,
    {
        let r = WalReplayer { segments, seg_idx: 0, cursor_floor, current: None };
        assert(r.segments@.skip(0) =~= r.segments@);
        r
    }

    /// The next step of the replay.
    pub fn next(&mut self) -> (step: ReplayStep)
        requires
            old(self).wf(),
        ensures
            final(self).wf(),
            final(self).floor() == old(self).floor(),
            ({
                let read = match old(self).reading() {
                    Some(r) => read_on(r, old(self).floor()),
                    None => (
                        None,
                        (ReadingView { file: Seq::empty(), pos: 0, halted: false }),
                    ),
                };
                match read.0 {
                    Some(Ok(rec)) => {
                        &&& step matches ReplayStep::Yield(Ok(got))
                        &&& got@ == rec
                        &&& final(self).reading() == Some(read.1)
                        &&& final(self).ahead() == old(self).ahead()
                    },
                    Some(Err(e)) => {
                        &&& step == ReplayStep::Yield(Err(WalError::Reader(e)))
                        &&& final(self).reading() == Some(read.1)
                        &&& final(self).ahead() == old(self).ahead()
                    },
                    None => {
                        &&& final(self).reading() is None
                        &&& if old(self).ahead().len() == 0 {
                            step is End && final(self).ahead() == old(self).ahead()
                        } else {
                            &&& step == ReplayStep::Open(old(self).ahead()[0])
                            &&& final(self).ahead() == old(self).ahead().skip(1)
                        }
                    },
                }
            }),
    {
        let taken: Option<SegmentReader> = self.current.take();
        match taken {
            None => {},
            Some(mut reader) => {
                let ghost start = old(self).reading()->Some_0;
                let ghost floor = self.cursor_floor;
                loop
                    invariant
                        reader.wf(),
                        self.seg_idx <= self.segments@.len(),
                        self.segments@ == old(self).segments@,
                        self.seg_idx == old(self).seg_idx,
                        self.cursor_floor == old(self).cursor_floor,
                        floor == self.cursor_floor,
                        old(self).reading() == Some(start),
                        read_on(start, floor) == read_on(
                            ReadingView {
                                file: reader.file(),
                                pos: reader.position(),
                                halted: reader.is_halted(),
                            },
                            floor,
                        ),
                    ensures
                        self.seg_idx <= self.segments@.len(),
                        self.segments@ == old(self).segments@,
                        self.seg_idx == old(self).seg_idx,
                        self.cursor_floor == old(self).cursor_floor,
                        read_on(start, floor).0 is None,
                    decreases reader.file().len() - reader.position(),
                {
                    match reader.next_record() {
                        Some(Ok(rec)) => {
                            if rec.cursor < self.cursor_floor {
                                continue;
                            }
                            self.current = Some(reader);
                            return ReplayStep::Yield(Ok(rec));
                        },
                        Some(Err(e)) => {
                            self.current = Some(reader);
                            return ReplayStep::Yield(Err(WalError::Reader(e)));
                        },
                        None => {
                            break;
                        },
                    }
                }
                self.current = None;
            },
        }
        if self.seg_idx >= self.segments.len() {
            return ReplayStep::End;
        }
        let first: u64 = self.segments[self.seg_idx];
        self.seg_idx = self.seg_idx + 1;
        assert(self.segments@.skip(self.seg_idx as int) =~= old(self).ahead().skip(1));
        ReplayStep::Open(first)
    }

    /// Takes the contents of the segment that was asked for. A segment that cannot be read
    /// is passed over, and the error is the next item of the replay.
    pub fn opened(&mut self, contents: Result<Vec<u8>, IoKind>) -> (r: Option<WalError>)
        requires
            old(self).wf(),
            old(self).reading() is None,
        ensures
            final(self).wf(),
            final(self).floor() == old(self).floor(),
            final(self).ahead() == old(self).ahead(),
            match contents {
                Err(kind) => {
                    &&& r == Some(WalError::Reader(ReaderError::Io(kind)))
                    &&& final(self).reading() is None
                },
                Ok(bytes) => match record::parsed_header(bytes@) {
                    Err(e) => {
                        &&& r == Some(WalError::Reader(ReaderError::Header(e)))
                        &&& final(self).reading() is None
                    },
                    Ok(_) => {
                        &&& r is None
                        &&& final(self).reading() == Some(
                            ReadingView {
                                file: bytes@,
                                pos: SEGMENT_HEADER_LEN as int,
                                halted: false,
                            },
                        )
                    },
                },
            },
    {
        match SegmentReader::open(contents) {
            Err(e) => Some(WalError::Reader(e)),
            Ok(reader) => {
                self.current = Some(reader);
                None
            },
        }
    }
}

} // verus!
