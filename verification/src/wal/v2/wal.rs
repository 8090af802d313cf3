//! `Wal`: the log over many memory-mapped segments.
//!
//! It offers what the file-backed log offers, over segments that are written without a
//! lock and a coordination file that tells subscribers which one is active. The caller
//! owns files and mappings: [`Wal::plan_append`] says what an append needs of them,
//! [`Wal::append`] takes down how that went and gives the stores that put the record into
//! the mapped memory, and [`Wal::finish_append`] accounts for it.

use crate::error::IoKind;
use crate::wal::config::{FsyncPolicy, WalConfig};
use crate::wal::index;
use crate::wal::index::SegmentIndex;
use crate::wal::record;
use crate::wal::record::{Record, MAX_PAYLOAD_LEN, RECORD_FRAMING, SEGMENT_HEADER_LEN};
use crate::wal::stats::WalStats;
use crate::wal::v2::active::ActiveCoord;
use crate::wal::v2::mmap_segment_reader;
use crate::wal::v2::mmap_segment_reader::{
    MmapSegmentReader, OutcomeView, ReadOutcome, ReaderError,
};
use crate::wal::v2::mmap_segment_writer;
use crate::wal::v2::mmap_segment_writer::{
    align_record_len, AppendOutcome, Entry, MarkerWrite, MmapSegmentWriter, RecordWrite,
    WriterError,
};
use crate::wal::v2::rotation;
use crate::wal::v2::rotation::{parse_segment_name, rotate, RotateError, RotateIo};
use crate::wal::wal;
use crate::wal::wal::{count_on, NewSegment};
use vstd::prelude::*;

verus! {

#[derive(Debug, Clone, Copy, PartialEq, Eq, Structural)]
pub enum WalError {
    Io(IoKind),
    Writer(WriterError),
    Reader(ReaderError),
    Rotation(RotateError),
    /// The cursor is older than the oldest one in the log.
    CursorTooOld { requested: u64, oldest: u64 },
    /// The flusher died: further appends would silently lose durability.
    Poisoned,
    PayloadTooLarge { payload_len: usize },
}

/// The active segment of a log.
#[verifier::ext_equal]
pub struct ActiveView {
    pub first: u64,
    pub log: Seq<Entry>,
}

impl ActiveView {
    /// The offset behind the last entry.
    pub open spec fn end(&self) -> nat {
        SEGMENT_HEADER_LEN as nat + mmap_segment_writer::entries_bytes(self.log).len()
    }
}

/// What a log holds.
#[verifier::ext_equal]
pub struct WalView {
    pub cfg: WalConfig,
    /// First cursor of every segment, with the size of those that are no longer active.
    pub segments: Seq<(u64, u64)>,
    /// Bytes of the segments that are no longer active.
    pub retained_bytes: u64,
    /// Bytes of the active segment.
    pub active_bytes: u64,
    pub active: Option<ActiveView>,
    /// The segment without records that the log goes on in when there is no active one.
    pub vacant: Option<u64>,
    /// The coordination file: first cursor of the active segment, and its count.
    pub coord: (u64, u64),
    /// The cursor of the next record.
    pub pending: u64,
    pub durable: u64,
    pub poisoned: bool,
    pub appends: u64,
    pub append_bytes: u64,
    pub flushes: u64,
}

/// `a + b`, as far as a `u64` goes.
pub open spec fn sat_add(a: u64, b: u64) -> u64 {
    if a + b > u64::MAX {
        u64::MAX
    } else {
        (a + b) as u64
    }
}

/// `a - b`, but not below zero.
pub open spec fn sat_sub(a: u64, b: u64) -> u64 {
    if a < b {
        0
    } else {
        (a - b) as u64
    }
}

/// A record of this size fits behind `end`.
pub open spec fn fits(end: int, rec: record::RecordView, size: usize) -> bool {
    end + mmap_segment_writer::padded_len(rec) <= size
}

impl WalView {
    /// A fresh active segment at `cursor`. A segment of that name that was known before is
    /// replaced, and its bytes no longer count.
    pub open spec fn opened(self, cursor: u64) -> WalView {
        WalView {
            segments: index::with_entry(self.segments, cursor, 0),
            retained_bytes: sat_sub(self.retained_bytes, index::size_at(self.segments, cursor)),
            active_bytes: SEGMENT_HEADER_LEN as u64,
            active: Some(ActiveView { first: cursor, log: Seq::empty() }),
            vacant: None,
            ..self
        }
    }

    /// The active segment named in the coordination file.
    pub open spec fn named(self, cursor: u64) -> WalView {
        WalView {
            coord: (
                cursor,
                if self.coord.1 == u64::MAX {
                    0
                } else {
                    (self.coord.1 + 1) as u64
                },
            ),
            ..self
        }
    }

    /// No active segment any more. One without records can be started again.
    pub open spec fn detached(self) -> WalView {
        WalView {
            active: None,
            vacant: match self.active {
                Some(a) if a.log.len() == 0 => Some(a.first),
                _ => None,
            },
            ..self
        }
    }

    /// The active segment counted among those that are no longer active.
    pub open spec fn retired(self) -> WalView {
        match self.active {
            Some(a) => WalView {
                segments: index::with_entry(self.segments, a.first, a.end() as u64),
                retained_bytes: sat_add(self.retained_bytes, a.end() as u64),
                active: None,
                ..self
            },
            None => self,
        }
    }

    /// One more record in the active segment.
    pub open spec fn recorded(self, rec: record::RecordView) -> WalView {
        match self.active {
            Some(a) => {
                let more = ActiveView { log: a.log.push(Entry::Record(rec)), ..a };
                WalView {
                    active: Some(more),
                    active_bytes: more.end() as u64,
                    pending: (rec.cursor + 1) as u64,
                    ..self
                }
            },
            None => self,
        }
    }

    /// Retention applied: the log, and the segments that have to be deleted, oldest first.
    /// The active segment stays.
    pub open spec fn pruned(self) -> (WalView, Seq<u64>)
        decreases self.segments.len(),
    {
        let active = match self.active {
            Some(a) => Some(a.first),
            None => None,
        };
        if self.retained_bytes + self.active_bytes <= self.cfg.retention_bytes {
            (self, Seq::empty())
        } else {
            match wal::oldest_other(self.segments, active) {
                None => (self, Seq::empty()),
                Some(i) => {
                    let rest = WalView {
                        segments: self.segments.remove(i),
                        retained_bytes: sat_sub(self.retained_bytes, self.segments[i].1),
                        ..self
                    }.pruned();
                    (rest.0, seq![self.segments[i].0] + rest.1)
                },
            }
        }
    }
}

/// A rotation: close the segment that starts at `old` with `marker`, then create `new`,
/// then name it in the coordination file.
#[derive(Debug, Clone, Copy, PartialEq, Eq)]
pub struct RotatePlan {
    pub old: u64,
    pub marker: Option<MarkerWrite>,
    pub new: NewSegment,
}

/// What an append needs of files and mappings, in this order.
#[derive(Debug, Clone, Copy, PartialEq, Eq)]
pub struct AppendPlan {
    /// The segment to create and to name because there is no active one.
    pub create: Option<NewSegment>,
    /// The rotation to make because the record does not fit.
    pub rotate: Option<RotatePlan>,
    /// The rotation to make because the record does not fit into a fresh segment either.
    pub retry: Option<RotatePlan>,
}

/// What the operations of an [`AppendPlan`] gave. Those that were not needed count as
/// successes.
#[derive(Debug, Clone, Copy)]
pub struct AppendIo {
    /// Creating and naming the first active segment.
    pub create: RotateIo,
    pub rotate: RotateIo,
    pub retry: RotateIo,
}

/// Why an append is refused, or not done, before anything is touched.
pub open spec fn refusal(v: WalView, len: nat) -> Option<Result<(), WalError>> {
    if !v.cfg.enabled {
        Some(Ok(()))
    } else if len > MAX_PAYLOAD_LEN {
        Some(Err(WalError::PayloadTooLarge { payload_len: len as usize }))
    } else if v.poisoned {
        Some(Err(WalError::Poisoned))
    } else {
        None
    }
}

/// The log with a first active segment at `cursor`, and whether that succeeded.
pub open spec fn started(v: WalView, cursor: u64, io: RotateIo) -> (WalView, Result<(), WalError>) {
    match (mmap_segment_writer::size_verdict(v.cfg.segment_size_max), io.created) {
        (Err(e), _) => (v, Err(WalError::Writer(e))),
        (Ok(_), Err(kind)) => (v, Err(WalError::Writer(WriterError::Io(kind)))),
        (Ok(_), Ok(_)) => match io.published {
            Err(kind) => (v.opened(cursor).named(cursor), Err(WalError::Io(kind))),
            Ok(_) => (v.opened(cursor).named(cursor), Ok(())),
        },
    }
}

/// The log that is rotated to a segment at `cursor`, and whether that succeeded.
pub open spec fn rotated(v: WalView, cursor: u64, io: RotateIo) -> (WalView, Result<(), WalError>) {
    match (mmap_segment_writer::size_verdict(v.cfg.segment_size_max), io.created) {
        (Err(e), _) => (v.detached(), Err(WalError::Rotation(RotateError::Writer(e)))),
        (Ok(_), Err(kind)) => (
            v.detached(),
            Err(WalError::Rotation(RotateError::Writer(WriterError::Io(kind)))),
        ),
        (Ok(_), Ok(_)) => match io.published {
            Err(kind) => (
                v.detached().named(cursor),
                Err(WalError::Rotation(RotateError::Io(kind))),
            ),
            Ok(_) => (v.retired().opened(cursor).named(cursor), Ok(())),
        },
    }
}

/// The log rotated if the record does not fit.
pub open spec fn rotated_if_full(v: WalView, rec: record::RecordView, io: RotateIo) -> (
    WalView,
    Result<(), WalError>,
) {
    if fits(v.active_bytes as int, rec, v.cfg.segment_size_max) {
        (v, Ok(()))
    } else {
        rotated(v, rec.cursor, io)
    }
}

/// The log with an active segment for the record, and whether that succeeded: created if
/// there was none, rotated if the record does not fit, and once more if it does not fit
/// into the fresh segment either.
pub open spec fn prepared(v: WalView, rec: record::RecordView, io: AppendIo) -> (
    WalView,
    Result<(), WalError>,
) {
    let first = match v.active {
        Some(_) => (v, Ok(())),
        None => started(v, rec.cursor, io.create),
    };
    match first {
        (w, Err(e)) => (w, Err(e)),
        (w, Ok(_)) => match rotated_if_full(w, rec, io.rotate) {
            (x, Err(e)) => (x, Err(e)),
            (x, Ok(_)) => rotated_if_full(x, rec, io.retry),
        },
    }
}

/// An append: the log after it, and what it returns. A record that fits into no segment is
/// too large.
pub open spec fn appended(v: WalView, rec: record::RecordView, io: AppendIo) -> (
    WalView,
    Result<(), WalError>,
) {
    match refusal(v, rec.payload.len()) {
        Some(r) => (v, r),
        None => match prepared(v, rec, io) {
            (w, Err(e)) => (w, Err(e)),
            (w, Ok(_)) => if fits(w.active_bytes as int, rec, v.cfg.segment_size_max) {
                (w.recorded(rec), Ok(()))
            } else {
                (
                    w,
                    Err(WalError::PayloadTooLarge { payload_len: rec.payload.len() as usize }),
                )
            },
        },
    }
}

/// The end of an append: the log after it, and the segments to delete or the error.
pub open spec fn finished(v: WalView, len: nat, flushed: Result<(), IoKind>) -> (
    WalView,
    Result<Seq<u64>, WalError>,
) {
    if !v.cfg.enabled {
        (v, Ok(Seq::empty()))
    } else {
        match (v.cfg.fsync_policy, v.active, flushed) {
            (FsyncPolicy::Each, Some(_), Err(kind)) => (v, Err(WalError::Io(kind))),
            (policy, _, _) => {
                let s = if policy == FsyncPolicy::Each {
                    WalView { durable: v.pending, flushes: wal::next_count(v.flushes, 1), ..v }
                } else {
                    v
                };
                let counted = WalView {
                    appends: wal::next_count(s.appends, 1),
                    append_bytes: wal::next_count(s.append_bytes, len),
                    ..s
                };
                let r = counted.pruned();
                (r.0, Ok(r.1))
            },
        }
    }
}

// ── Recovery ─────────────────────────────────────────────────────────────────

/// What a look at the WAL directory found so far.
pub struct WalRecovery {
    index: SegmentIndex,
    /// The cursor of the last record of the newest segment.
    last_cursor: Option<u64>,
}

/// The cursor of the last record before the first place where a segment is not intact.
pub open spec fn last_intact(mem: Seq<u8>) -> Option<u64> {
    let records = mmap_segment_reader::walk(mem, SEGMENT_HEADER_LEN as int).0;
    if mmap_segment_reader::opened(mem) is Err || records.len() == 0 {
        None
    } else {
        Some(records.last().cursor)
    }
}

impl WalRecovery {
    /// First cursor and size of the segments.
    pub closed spec fn segments(&self) -> Seq<(u64, u64)> {
        self.index@
    }

    /// The cursor of the last record of the newest segment, once it was scanned.
    pub closed spec fn last(&self) -> Option<u64> {
        self.last_cursor
    }

    pub closed spec fn wf(&self) -> bool {
        self.index.wf()
    }

    pub proof fn lemma_wf(&self)
        requires
            self.wf(),
        ensures
            index::ascending(self.segments()),
    {
    }

    /// No segments yet.
    pub fn new() -> (r: WalRecovery)
        ensures
            r.wf(),
            r.segments() == Seq::<(u64, u64)>::empty(),
            r.last() is None,
    {
        WalRecovery { index: SegmentIndex::new(), last_cursor: None }
    }

    /// Looks at one file of the directory, given what asking for its size gave. A file that
    /// is not a segment is ignored: the result says whether it is one.
    pub fn add_file(&mut self, name: &str, size: Result<u64, IoKind>) -> (r: Result<bool, WalError>)
        requires
            old(self).wf(),
        ensures
            final(self).wf(),
            final(self).last() == old(self).last(),
            match (rotation::cursor_of_name(name@), size) {
                (None, _) => {
                    &&& r == Ok::<bool, WalError>(false)
                    &&& final(self).segments() == old(self).segments()
                },
                (Some(_), Err(kind)) => {
                    &&& r == Err::<bool, WalError>(WalError::Io(kind))
                    &&& final(self).segments() == old(self).segments()
                },
                (Some(first), Ok(n)) => {
                    &&& r == Ok::<bool, WalError>(true)
                    &&& final(self).segments() == index::with_entry(old(self).segments(), first, n)
                },
            },
    {
        let first: u64 = match parse_segment_name(name) {
            Some(c) => c,
            None => {
                return Ok(false);
            },
        };
        match size {
            Err(kind) => Err(WalError::Io(kind)),
            Ok(n) => {
                self.index.insert(first, n);
                Ok(true)
            },
        }
    }

    /// The newest segment, which has to be scanned.
    pub fn newest(&self) -> (r: Option<u64>)
        ensures
            r == (if self.segments().len() == 0 {
                None
            } else {
                Some(self.segments().last().0)
            }),
    {
        self.index.last()
    }

    /// Scans the newest segment, given what mapping it gave, up to the first place where
    /// it is not intact. A segment that cannot be read at all counts as empty.
    pub fn scan_newest(&mut self, mapped: Result<&[u8], IoKind>)
        requires
            old(self).wf(),
        ensures
            final(self).wf(),
            final(self).segments() == old(self).segments(),
            final(self).last() == (match mapped {
                Ok(mem) => last_intact(mem@),
                Err(_) => None,
            }),
    {
        self.last_cursor = None;
        let mem: &[u8] = match mapped {
            Ok(m) => m,
            Err(_) => {
                return ;
            },
        };
        let mut reader: MmapSegmentReader = match MmapSegmentReader::open(Ok(mem)) {
            Ok(r) => r,
            Err(_) => {
                return ;
            },
        };
        let ghost whole = mmap_segment_reader::walk(mem@, SEGMENT_HEADER_LEN as int).0;
        let ghost mut seen: Seq<record::RecordView> = Seq::empty();
        assert(seen + whole =~= whole);
        loop
            invariant_except_break
                whole == seen + mmap_segment_reader::walk(mem@, reader.position()).0,
            invariant
                reader.wf(),
                reader.size() == mem@.len(),
                self.index.wf(),
                self.index@ == old(self).index@,
                self.last_cursor == (if seen.len() == 0 {
                    None
                } else {
                    Some(seen.last().cursor)
                }),
            ensures
                self.index.wf(),
                self.index@ == old(self).index@,
                whole == seen,
                self.last_cursor == (if seen.len() == 0 {
                    None
                } else {
                    Some(seen.last().cursor)
                }),
            decreases mem@.len() - reader.position(),
        {
            let ghost pos = reader.position();
            proof {
                reader.lemma_wf();
            }
            match reader.next_record(mem) {
                ReadOutcome::Record(rec) => {
                    proof {
                        reader.lemma_wf();
                        mmap_segment_reader::lemma_step_advances(mem@, pos);
                        let before = seen;
                        seen = seen.push(rec@);
                        assert(before + mmap_segment_reader::walk(mem@, pos).0 =~= seen
                            + mmap_segment_reader::walk(mem@, reader.position()).0);
                    }
                    self.last_cursor = Some(rec.cursor);
                },
                _ => {
                    assert(seen + mmap_segment_reader::walk(mem@, pos).0 =~= seen);
                    break;
                },
            }
        }
    }

    /// The newest segment, if no record was found in it.
    pub open spec fn vacant_is(&self) -> Option<u64> {
        if self.segments().len() == 0 || self.last() is Some {
            None
        } else {
            Some(self.segments().last().0)
        }
    }

    /// The newest segment, if no record was found in it.
    fn vacant(&self) -> (r: Option<u64>)
        ensures
            r == self.vacant_is(),
    {
        match self.last_cursor {
            Some(_) => None,
            None => self.index.last(),
        }
    }

    /// Where the log goes on: behind the last record of the newest segment, at its first
    /// cursor if it has none.
    pub open spec fn next_cursor_is(&self) -> int {
        if self.segments().len() == 0 {
            0
        } else {
            match self.last() {
                Some(last) => last + 1,
                None => self.segments().last().0 as int,
            }
        }
    }

    /// Whether the log can go on: not if the last cursor is taken.
    pub fn has_next(&self) -> (b: bool)
        ensures
            b == (self.next_cursor_is() <= u64::MAX),
    {
        match (self.index.last(), self.last_cursor) {
            (Some(_), Some(last)) => last < u64::MAX,
            _ => true,
        }
    }

    /// Where the log goes on.
    pub fn next_cursor(&self) -> (c: u64)
        requires
            self.next_cursor_is() <= u64::MAX,
        ensures
            c == self.next_cursor_is(),
    {
        match self.index.last() {
            None => 0,
            Some(first) => match self.last_cursor {
                Some(last) => last + 1,
                None => first,
            },
        }
    }

    /// Whether the log needs a fresh segment right away: its newest one holds records.
    pub open spec fn needs_segment_is(&self) -> bool {
        self.segments().len() > 0 && self.next_cursor_is() != self.segments().last().0
    }

    /// The segment that has to be created before the log is opened, if any.
    pub fn needs_segment(&self) -> (r: Option<NewSegment>)
        requires
            self.wf(),
            self.next_cursor_is() <= u64::MAX,
        ensures
            r == (if self.needs_segment_is() {
                Some(
                    NewSegment {
                        first_cursor: self.next_cursor_is() as u64,
                        reuse: false,
                    },
                )
            } else {
                None
            }),
    {
        match self.index.last() {
            None => None,
            Some(first) => {
                let next: u64 = self.next_cursor();
                if next == first {
                    None
                } else {
                    Some(NewSegment { first_cursor: next, reuse: false })
                }
            },
        }
    }
}

// ── The log ──────────────────────────────────────────────────────────────────

/// The log over many memory-mapped segments.
pub struct Wal {
    cfg: WalConfig,
    index: SegmentIndex,
    retained_bytes: u64,
    active_bytes: u64,
    writer: Option<MmapSegmentWriter>,
    vacant: Option<u64>,
    coord: ActiveCoord,
    pending: u64,
    durable: u64,
    poisoned: bool,
    appends: u64,
    append_bytes: u64,
    flushes: u64,
}

impl View for Wal {
    type V = WalView;

    closed spec fn view(&self) -> WalView {
        WalView {
            cfg: self.cfg,
            segments: self.index@,
            retained_bytes: self.retained_bytes,
            active_bytes: self.active_bytes,
            active: match self.writer {
                Some(w) => Some(ActiveView { first: w.first(), log: w.log() }),
                None => None,
            },
            vacant: self.vacant,
            coord: (self.coord.first(), self.coord.count()),
            pending: self.pending,
            durable: self.durable,
            poisoned: self.poisoned,
            appends: self.appends,
            append_bytes: self.append_bytes,
            flushes: self.flushes,
        }
    }
}

/// The log that recovery starts with.
pub open spec fn recovered(cfg: WalConfig, found: WalRecovery, coord: ActiveCoord) -> WalView {
    WalView {
        cfg,
        segments: found.segments(),
        retained_bytes: if index::total_size(found.segments()) > u64::MAX {
            u64::MAX
        } else {
            index::total_size(found.segments()) as u64
        },
        active_bytes: 0,
        active: None,
        vacant: found.vacant_is(),
        coord: (coord.first(), coord.count()),
        pending: found.next_cursor_is() as u64,
        durable: found.next_cursor_is() as u64,
        poisoned: false,
        appends: 0,
        append_bytes: 0,
        flushes: 0,
    }
}

impl Wal {
    pub closed spec fn wf(&self) -> bool {
        &&& self.index.wf()
        &&& match self.writer {
            Some(w) => w.wf() && w.size() == self.cfg.segment_size_max && self.active_bytes
                == w.end(),
            None => true,
        }
    }

    /// What holds of every log.
    pub proof fn lemma_wf(&self)
        requires
            self.wf(),
        ensures
            index::ascending(self@.segments),
            self@.active matches Some(a) ==> {
                &&& self@.active_bytes == a.end()
                &&& a.end() <= self@.cfg.segment_size_max
                &&& mmap_segment_writer::entries_fit(a.log)
            },
    {
        match self.writer {
            Some(w) => {
                w.lemma_wf();
            },
            None => {},
        }
    }

    /// Opens a log on what recovery found. `io` says how creating and naming the segment
    /// that it needs went (see [`WalRecovery::needs_segment`]); a log whose newest segment
    /// is empty names that one, and an empty log names none.
    pub fn open(cfg: WalConfig, found: WalRecovery, coord: ActiveCoord, io: RotateIo) -> (r: Result<
        Wal,
        WalError,
    >)
        requires
            found.wf(),
            found.next_cursor_is() <= u64::MAX,
        ensures
            ({
                let base = recovered(cfg, found, coord);
                let next = found.next_cursor_is() as u64;
                if found.segments().len() == 0 {
                    r matches Ok(w) && w.wf() && w@ == base
                } else if !found.needs_segment_is() {
                    match io.published {
                        Err(kind) => r == Err::<Wal, WalError>(WalError::Io(kind)),
                        Ok(_) => r matches Ok(w) && w.wf() && w@ == base.named(next),
                    }
                } else {
                    match started(base, next, io) {
                        (_, Err(e)) => r == Err::<Wal, WalError>(e),
                        (v, Ok(_)) => r matches Ok(w) && w.wf() && w@ == v,
                    }
                }
            }),
    {
        let next: u64 = found.next_cursor();
        let fresh: Option<NewSegment> = found.needs_segment();
        let empty: bool = found.index.len() == 0;
        let vacant: Option<u64> = found.vacant();
        let total: u128 = found.index.total();
        let mut w = Wal {
            cfg,
            index: found.index,
            retained_bytes: if total > u64::MAX as u128 {
                u64::MAX
            } else {
                total as u64
            },
            active_bytes: 0,
            writer: None,
            vacant,
            coord,
            pending: next,
            durable: next,
            poisoned: false,
            appends: 0,
            append_bytes: 0,
            flushes: 0,
        };
        if empty {
            return Ok(w);
        }
        match fresh {
            None => {
                let ghost base = w@;
                w.coord.store_active(next);
                assert(w@ =~= base.named(next));
                match io.published {
                    Err(kind) => Err(WalError::Io(kind)),
                    Ok(_) => Ok(w),
                }
            },
            Some(_) => match w.start_segment(next, io) {
                Err(e) => Err(e),
                Ok(_) => Ok(w),
            },
        }
    }

    /// Makes a fresh segment the active one and names it.
    fn start_segment(&mut self, cursor: u64, io: RotateIo) -> (r: Result<(), WalError>)
        requires
            old(self).wf(),
        ensures
            final(self).wf(),
            (final(self)@, r) == started(old(self)@, cursor, io),
    {
        match MmapSegmentWriter::create(self.cfg.segment_size_max, cursor, io.created) {
            Err(e) => Err(WalError::Writer(e)),
            Ok(w) => {
                let replaced: u64 = self.index.size(cursor);
                self.retained_bytes = self.retained_bytes.saturating_sub(replaced);
                self.index.insert(cursor, 0);
                proof {
                    w.lemma_wf();
                    assert(mmap_segment_writer::entries_bytes(w.log()).len() == 0);
                }
                self.active_bytes = w.current_tail();
                self.writer = Some(w);
                self.vacant = None;
                self.coord.store_active(cursor);
                assert(self@ =~= old(self)@.opened(cursor).named(cursor));
                match io.published {
                    Err(kind) => Err(WalError::Io(kind)),
                    Ok(_) => Ok(()),
                }
            },
        }
    }

    /// Rotates to a fresh segment at `cursor`.
    fn rotate_to(&mut self, cursor: u64, io: RotateIo) -> (r: Result<(), WalError>)
        requires
            old(self).wf(),
            old(self)@.active is Some,
        ensures
            final(self).wf(),
            (final(self)@, r) == rotated(old(self)@, cursor, io),
    {
        let taken: Option<MmapSegmentWriter> = self.writer.take();
        match taken {
            None => Ok(()),
            Some(mut old_writer) => {
                let first: u64 = old_writer.first_cursor();
                let final_bytes: u64 = old_writer.current_tail();
                proof {
                    old_writer.lemma_wf();
                    mmap_segment_writer::lemma_entries_nonempty(old_writer.log());
                }
                self.vacant = if final_bytes == SEGMENT_HEADER_LEN as u64 {
                    Some(first)
                } else {
                    None
                };
                match rotate(&mut old_writer, &mut self.coord, cursor, self.cfg.segment_size_max, io) {
                    Err(e) => {
                        proof {
                            if mmap_segment_writer::size_verdict(self.cfg.segment_size_max) is Ok
                                && io.created is Ok {
                                assert(self@ =~= old(self)@.detached().named(cursor));
                            } else {
                                assert(self@ =~= old(self)@.detached());
                            }
                        }
                        Err(WalError::Rotation(e))
                    },
                    Ok(new_writer) => {
                        self.index.insert(first, final_bytes);
                        self.retained_bytes = self.retained_bytes.saturating_add(final_bytes);
                        let replaced: u64 = self.index.size(cursor);
                        self.retained_bytes = self.retained_bytes.saturating_sub(replaced);
                        self.index.insert(cursor, 0);
                        proof {
                            new_writer.lemma_wf();
                            assert(mmap_segment_writer::entries_bytes(new_writer.log()).len() == 0);
                        }
                        self.active_bytes = new_writer.current_tail();
                        self.writer = Some(new_writer);
                        self.vacant = None;
                        assert(self@ =~= old(self)@.retired().opened(cursor).named(cursor));
                        Ok(())
                    },
                }
            },
        }
    }

    /// Whether a record of `total` bytes has no room behind the active segment's records.
    fn lacks_room(&self, total: usize) -> (b: bool)
        ensures
            b == (self@.active_bytes + total > self@.cfg.segment_size_max),
    {
        self.active_bytes as u128 + total as u128 > self.cfg.segment_size_max as u128
    }

    /// Says what an append of `len` payload bytes at `cursor` needs of files and mappings.
    pub fn plan_append(&self, cursor: u64, len: usize) -> (plan: AppendPlan)
        requires
            self.wf(),
        ensures
            plans(self@, cursor, len as nat, plan),
    {
        if !self.cfg.enabled || len > MAX_PAYLOAD_LEN || self.poisoned {
            return AppendPlan { create: None, rotate: None, retry: None };
        }
        let total: usize = align_record_len(RECORD_FRAMING + len);
        let cap: usize = self.cfg.segment_size_max;
        let fresh_marker: Option<MarkerWrite> = if cap >= SEGMENT_HEADER_LEN + 4 {
            Some(
                MarkerWrite {
                    tail: SEGMENT_HEADER_LEN as u64 + 4,
                    at: SEGMENT_HEADER_LEN as u64,
                },
            )
        } else {
            None
        };
        let again = RotatePlan {
            old: cursor,
            marker: fresh_marker,
            new: NewSegment { first_cursor: cursor, reuse: true },
        };
        let hopeless: bool = total > cap || cap - total < SEGMENT_HEADER_LEN;
        let vacant: bool = match self.vacant {
            Some(first) => first == cursor && self.index.contains(cursor),
            None => false,
        };
        match &self.writer {
            None => AppendPlan {
                create: Some(NewSegment { first_cursor: cursor, reuse: vacant }),
                rotate: if hopeless {
                    Some(again)
                } else {
                    None
                },
                retry: if hopeless {
                    Some(again)
                } else {
                    None
                },
            },
            Some(w) => {
                proof {
                    w.lemma_wf();
                    mmap_segment_writer::lemma_entries_nonempty(w.log());
                }
                let fresh: bool = w.current_tail() == SEGMENT_HEADER_LEN as u64
                    && w.first_cursor() == cursor;
                AppendPlan {
                    create: None,
                    rotate: if self.lacks_room(total) {
                        Some(
                            RotatePlan {
                                old: w.first_cursor(),
                                marker: w.skip_marker(),
                                new: NewSegment { first_cursor: cursor, reuse: fresh },
                            },
                        )
                    } else {
                        None
                    },
                    retry: if hopeless {
                        Some(again)
                    } else {
                        None
                    },
                }
            },
        }
    }

    /// Appends one record, given how the operations of [`Self::plan_append`] went. The
    /// stores in the result put the record into the mapped memory of the active segment; a
    /// log that is switched off takes no records and stores nothing. Go on with
    /// [`Self::finish_append`].
    pub fn append(&mut self, cursor: u64, ts_unix_nanos: u64, payload: &[u8], io: AppendIo) -> (r:
        Result<Option<RecordWrite>, WalError>)
        requires
            old(self).wf(),
            cursor < u64::MAX,
        ensures
            final(self).wf(),
            ({
                let rec = record::RecordView { cursor, ts_unix_nanos, payload: payload@ };
                let want = appended(old(self)@, rec, io);
                &&& final(self)@ == want.0
                &&& match want.1 {
                    Err(e) => r == Err::<Option<RecordWrite>, WalError>(e),
                    Ok(_) => if old(self)@.cfg.enabled {
                        &&& r matches Ok(Some(write))
                        &&& writes_record(write, rec, want.0)
                    } else {
                        r matches Ok(None)
                    },
                }
            }),
    {
        let ghost rec = record::RecordView { cursor, ts_unix_nanos, payload: payload@ };
        if !self.cfg.enabled {
            return Ok(None);
        }
        if payload.len() > MAX_PAYLOAD_LEN {
            return Err(WalError::PayloadTooLarge { payload_len: payload.len() });
        }
        if self.poisoned {
            return Err(WalError::Poisoned);
        }
        if self.writer.is_none() {
            match self.start_segment(cursor, io.create) {
                Err(e) => {
                    return Err(e);
                },
                Ok(_) => {},
            }
        }
        let total: usize = align_record_len(RECORD_FRAMING + payload.len());
        assert(total == mmap_segment_writer::padded_len(rec));
        if self.lacks_room(total) {
            match self.rotate_to(cursor, io.rotate) {
                Err(e) => {
                    return Err(e);
                },
                Ok(_) => {},
            }
        }
        if self.lacks_room(total) {
            match self.rotate_to(cursor, io.retry) {
                Err(e) => {
                    return Err(e);
                },
                Ok(_) => {},
            }
        }
        let ghost ready = self@;
        assert((ready, Ok::<(), WalError>(())) == prepared(old(self)@, rec, io));
        let taken: Option<MmapSegmentWriter> = self.writer.take();
        match taken {
            None => Ok(None),
            Some(mut w) => {
                let ghost log = w.log();
                match w.append(cursor, ts_unix_nanos, payload) {
                    Err(e) => {
                        self.writer = Some(w);
                        Err(WalError::Writer(e))
                    },
                    Ok(AppendOutcome::SegmentFull) => {
                        self.writer = Some(w);
                        assert(self@ =~= ready);
                        Err(WalError::PayloadTooLarge { payload_len: payload.len() })
                    },
                    Ok(AppendOutcome::Appended { byte_offset, next_cursor, write }) => {
                        self.active_bytes = w.current_tail();
                        self.pending = next_cursor;
                        self.writer = Some(w);
                        assert(self@ =~= ready.recorded(rec));
                        Ok(Some(write))
                    },
                }
            },
        }
    }

    /// Ends an append of `len` payload bytes that went well so far: under
    /// [`FsyncPolicy::Each`] the active segment was flushed, and `flushed` says how that
    /// went. Returns the segments that retention deletes.
    pub fn finish_append(&mut self, len: usize, flushed: Result<(), IoKind>) -> (r: Result<
        Vec<u64>,
        WalError,
    >)
        requires
            old(self).wf(),
        ensures
            final(self).wf(),
            match (r, finished(old(self)@, len as nat, flushed)) {
                (Ok(victims), (v, Ok(deleted))) => victims@ == deleted && final(self)@ == v,
                (Err(e), (v, Err(want))) => e == want && final(self)@ == v,
                _ => false,
            },
    {
        if !self.cfg.enabled {
            return Ok(Vec::new());
        }
        let each: bool = match self.cfg.fsync_policy {
            FsyncPolicy::Each => true,
            _ => false,
        };
        if each {
            if self.writer.is_some() {
                match flushed {
                    Err(kind) => {
                        return Err(WalError::Io(kind));
                    },
                    Ok(_) => {},
                }
            }
            self.durable = self.pending;
            self.flushes = count_on(self.flushes, 1);
        }
        self.appends = count_on(self.appends, 1);
        self.append_bytes = count_on(self.append_bytes, len as u64);
        Ok(self.enforce_retention())
    }

    /// Deletes the oldest segments from the index while there are too many bytes. Returns
    /// the first cursors of the deleted ones. The active segment is never deleted.
    fn enforce_retention(&mut self) -> (victims: Vec<u64>)
        requires
            old(self).wf(),
        ensures
            final(self).wf(),
            (final(self)@, victims@) == old(self)@.pruned(),
    {
        let mut victims: Vec<u64> = Vec::new();
        assert(victims@ + self@.pruned().1 =~= self@.pruned().1);
        let active: Option<u64> = match &self.writer {
            Some(w) => Some(w.first_cursor()),
            None => None,
        };
        loop
            invariant
                self.wf(),
                active == (match self@.active {
                    Some(a) => Some(a.first),
                    None => None,
                }),
                old(self)@.pruned().0 == self@.pruned().0,
                old(self)@.pruned().1 == victims@ + self@.pruned().1,
            decreases self@.segments.len(),
        {
            let total: u128 = self.retained_bytes as u128 + self.active_bytes as u128;
            if total <= self.cfg.retention_bytes as u128 {
                assert(victims@ + Seq::<u64>::empty() =~= victims@);
                return victims;
            }
            let n: usize = self.index.len();
            let place: Option<usize> = if n > 0 {
                let first: u64 = self.index.entry(0).0;
                let is_active: bool = match active {
                    Some(a) => a == first,
                    None => false,
                };
                if !is_active {
                    Some(0)
                } else if n > 1 {
                    Some(1)
                } else {
                    None
                }
            } else {
                None
            };
            match place {
                Some(i) => {
                    let ghost before = self@;
                    let e: (u64, u64) = self.index.remove_at(i);
                    self.retained_bytes = self.retained_bytes.saturating_sub(e.1);
                    let ghost done = victims@;
                    victims.push(e.0);
                    proof {
                        let smaller = WalView {
                            segments: before.segments.remove(i as int),
                            retained_bytes: sat_sub(
                                before.retained_bytes,
                                before.segments[i as int].1,
                            ),
                            ..before
                        };
                        assert(self@ =~= smaller);
                        assert(before.pruned() == (smaller.pruned().0, seq![e.0]
                            + smaller.pruned().1));
                        assert(done + (seq![e.0] + self@.pruned().1) =~= victims@
                            + self@.pruned().1);
                    }
                },
                None => {
                    assert(victims@ + Seq::<u64>::empty() =~= victims@);
                    return victims;
                },
            }
        }
    }

    /// Flushes the active segment, if there is one, whatever the policy says: `flushed` is
    /// what that gave. All records count as durable afterwards.
    pub fn fsync(&mut self, flushed: Result<(), IoKind>) -> (r: Result<(), WalError>)
        requires
            old(self).wf(),
        ensures
            final(self).wf(),
            match (old(self)@.active, flushed) {
                (Some(_), Err(kind)) => {
                    &&& r == Err::<(), WalError>(WalError::Io(kind))
                    &&& final(self)@ == old(self)@
                },
                _ => {
                    &&& r == Ok::<(), WalError>(())
                    &&& final(self)@ == (WalView {
                        durable: old(self)@.pending,
                        flushes: wal::next_count(old(self)@.flushes, 1),
                        ..old(self)@
                    })
                },
            },
    {
        if self.writer.is_some() {
            match flushed {
                Err(kind) => {
                    return Err(WalError::Io(kind));
                },
                Ok(_) => {},
            }
        }
        self.durable = self.pending;
        self.flushes = count_on(self.flushes, 1);
        Ok(())
    }

    /// One tick of the flusher: `snapshot` is the pending cursor from before the flush, so
    /// that a record that came later does not count as durable. A failed flush poisons the
    /// log, and the flusher stops: the result says whether it goes on.
    pub fn flush_tick(&mut self, snapshot: u64, flushed: Result<(), IoKind>) -> (go_on: bool)
        requires
            old(self).wf(),
        ensures
            final(self).wf(),
            match (old(self)@.active, flushed) {
                (Some(_), Err(_)) => {
                    &&& !go_on
                    &&& final(self)@ == (WalView { poisoned: true, ..old(self)@ })
                },
                _ => {
                    &&& go_on
                    &&& final(self)@ == (WalView {
                        durable: snapshot,
                        flushes: wal::next_count(old(self)@.flushes, 1),
                        ..old(self)@
                    })
                },
            },
    {
        if self.writer.is_some() {
            match flushed {
                Err(_) => {
                    self.poisoned = true;
                    return false;
                },
                Ok(_) => {},
            }
        }
        self.durable = snapshot;
        self.flushes = count_on(self.flushes, 1);
        true
    }

    /// The rotation that a generation bump makes, if there is an active segment.
    pub fn plan_bump(&self) -> (r: Option<RotatePlan>)
        requires
            self.wf(),
        ensures
            r == (match self@.active {
                Some(a) => Some(
                    RotatePlan {
                        old: a.first,
                        marker: marker_at(a.end() as int, self@.cfg.segment_size_max),
                        new: NewSegment {
                            first_cursor: self@.pending,
                            reuse: false,
                        },
                    },
                ),
                None => None,
            }),
    {
        match &self.writer {
            Some(w) => Some(
                RotatePlan {
                    old: w.first_cursor(),
                    marker: w.skip_marker(),
                    new: NewSegment {
                        first_cursor: self.pending,
                        reuse: false,
                    },
                },
            ),
            None => None,
        }
    }

    /// Rotates the active segment, if there is one, so that a new publisher never appends
    /// behind the records of the one before.
    pub fn bump_generation(&mut self, io: RotateIo) -> (r: Result<(), WalError>)
        requires
            old(self).wf(),
        ensures
            final(self).wf(),
            (final(self)@, r) == (match old(self)@.active {
                Some(_) => rotated(old(self)@, old(self)@.pending, io),
                None => (old(self)@, Ok(())),
            }),
    {
        if self.writer.is_some() {
            return self.rotate_to(self.pending, io);
        }
        Ok(())
    }

    pub fn durable_cursor(&self) -> (c: u64)
        ensures
            c == self@.durable,
    {
        self.durable
    }

    /// The cursor of the next record.
    pub fn pending_cursor(&self) -> (c: u64)
        ensures
            c == self@.pending,
    {
        self.pending
    }

    /// First cursor still in any segment: 0 for an empty log.
    pub fn oldest_cursor(&self) -> (c: u64)
        ensures
            c == wal::oldest_of(self@.segments),
    {
        match self.index.first() {
            Some(c) => c,
            None => 0,
        }
    }

    /// The first cursor of the active segment.
    pub fn active_segment(&self) -> (r: Option<u64>)
        ensures
            r == (match self@.active {
                Some(a) => Some(a.first),
                None => None,
            }),
    {
        match &self.writer {
            Some(w) => Some(w.first_cursor()),
            None => None,
        }
    }

    /// The coordination file as it stands.
    pub fn coord(&self) -> (c: ActiveCoord)
        ensures
            (c.first(), c.count()) == self@.coord,
    {
        self.coord
    }

    /// Reads the records from `cursor` on. Refuses a cursor that is older than the oldest
    /// segment.
    pub fn read_from(&self, cursor: u64) -> (r: Result<WalReplayer, WalError>)
        requires
            self.wf(),
        ensures
            replays(self@.segments, cursor, r),
    {
        match self.index.first() {
            None => {
                proof {
                    assert(self.index@.skip(0).len() == 0);
                    assert(index::keys(self.index@.skip(0)) =~= Seq::<u64>::empty());
                }
                Ok(WalReplayer::new(Vec::new(), cursor))
            },
            Some(oldest) => {
                if cursor < oldest {
                    return Err(WalError::CursorTooOld { requested: cursor, oldest });
                }
                Ok(WalReplayer::new(self.index.from_cursor(cursor), cursor))
            },
        }
    }

    /// Snapshot for monitoring.
    pub fn stats(&self) -> (s: WalStats)
        ensures
            s == (WalStats {
                pending_cursor: self@.pending,
                durable_cursor: self@.durable,
                oldest_cursor: wal::oldest_of(self@.segments),
                active_segment_bytes: self@.active_bytes,
                total_wal_bytes: sat_add(self@.retained_bytes, self@.active_bytes),
                segments: self@.segments.len() as usize,
                appends_total: self@.appends,
                append_bytes_total: self@.append_bytes,
                flushes_total: self@.flushes,
            }),
    {
        WalStats {
            pending_cursor: self.pending,
            durable_cursor: self.durable,
            oldest_cursor: self.oldest_cursor(),
            active_segment_bytes: self.active_bytes,
            total_wal_bytes: self.retained_bytes.saturating_add(self.active_bytes),
            segments: self.index.len(),
            appends_total: self.appends,
            append_bytes_total: self.append_bytes,
            flushes_total: self.flushes,
        }
    }
}

/// The marker that closes a segment of `size` bytes whose records end at `end`.
pub open spec fn marker_at(end: int, size: usize) -> Option<MarkerWrite> {
    if end + 4 > size {
        None
    } else {
        Some(MarkerWrite { tail: (end + 4) as u64, at: end as u64 })
    }
}

/// What an append of `len` payload bytes at `cursor` needs. The file of a segment is replaced
/// only where the log knows that the segment holds no record: it was found that way, its
/// rotation failed, or it is the active one, and the record does not fit into it. Any other
/// file must not exist.
pub open spec fn plans(v: WalView, cursor: u64, len: nat, plan: AppendPlan) -> bool {
    let rec_len = mmap_segment_writer::aligned((RECORD_FRAMING + len) as int);
    let cap = v.cfg.segment_size_max;
    let hopeless = SEGMENT_HEADER_LEN + rec_len > cap;
    let again = RotatePlan {
        old: cursor,
        marker: marker_at(SEGMENT_HEADER_LEN as int, cap),
        new: NewSegment { first_cursor: cursor, reuse: true },
    };
    if refusal(v, len) is Some {
        plan == (AppendPlan { create: None, rotate: None, retry: None })
    } else {
        &&& plan.create == (match v.active {
            None => Some(
                NewSegment {
                    first_cursor: cursor,
                    reuse: v.vacant == Some(cursor) && index::has_key(v.segments, cursor),
                },
            ),
            Some(_) => None,
        })
        &&& plan.rotate == (match v.active {
            None => if hopeless {
                Some(again)
            } else {
                None
            },
            Some(a) => if v.active_bytes + rec_len > cap {
                Some(
                    RotatePlan {
                        old: a.first,
                        marker: marker_at(a.end() as int, cap),
                        new: NewSegment {
                            first_cursor: cursor,
                            reuse: a.log.len() == 0 && a.first == cursor,
                        },
                    },
                )
            } else {
                None
            },
        })
        &&& plan.retry == (if hopeless {
            Some(again)
        } else {
            None
        })
    }
}

/// The stores put `rec` behind the entries that stood in the active segment before it.
pub open spec fn writes_record(write: RecordWrite, rec: record::RecordView, after: WalView) -> bool {
    let len = mmap_segment_writer::padded_len(rec);
    &&& write.tail == after.active_bytes
    &&& write.at == after.active_bytes - len
    &&& write.commit == len
    &&& write.claim == len + mmap_segment_writer::WRITING_BIT_U32
    &&& write.body@ == mmap_segment_writer::record_tail(rec)
}

// ── Replay ───────────────────────────────────────────────────────────────────

/// What a replay of these segments from `cursor` on is.
pub open spec fn replays(
    segments: Seq<(u64, u64)>,
    cursor: u64,
    r: Result<WalReplayer, WalError>,
) -> bool {
    if segments.len() > 0 && cursor < segments[0].0 {
        r == Err::<WalReplayer, WalError>(
            WalError::CursorTooOld { requested: cursor, oldest: segments[0].0 },
        )
    } else {
        &&& r matches Ok(p)
        &&& p.wf()
        &&& p.floor() == cursor
        &&& p.ahead() == index::keys(segments.skip(index::containing(segments, cursor)))
        &&& p.reading() is None
    }
}

/// What a replay needs or gives next.
#[derive(Debug)]
pub enum ReplayStep {
    /// Map the segment that starts here, and report to [`WalReplayer::opened`].
    Open(u64),
    /// The next record, or what is wrong with it.
    Yield(Result<Record, WalError>),
    /// There are no more records.
    End,
}

/// Reads the records of several segments in order, from a cursor on.
pub struct WalReplayer {
    segments: Vec<u64>,
    seg_idx: usize,
    cursor_floor: u64,
    current: Option<MmapSegmentReader>,
}

/// What reading on from `pos` gives: the next record at the cursor floor or above, or a bad
/// record, and where the reading goes on. `None`: the segment has no more records for now.
pub open spec fn read_on(mem: Seq<u8>, pos: int, floor: u64) -> (
    Option<Result<record::RecordView, ReaderError>>,
    int,
)
    decreases mem.len() - pos,
{
    match mmap_segment_reader::step(mem, pos) {
        (OutcomeView::Record(rec), next) => if rec.cursor < floor && pos < next <= mem.len() {
            read_on(mem, next, floor)
        } else {
            (Some(Ok(rec)), next)
        },
        (OutcomeView::Failed(e), next) => (Some(Err(e)), next),
        (_, next) => (None, next),
    }
}

impl WalReplayer {
    /// The cursor below which records are skipped.
    pub closed spec fn floor(&self) -> u64 {
        self.cursor_floor
    }

    /// The segments that are still to be read.
    pub closed spec fn ahead(&self) -> Seq<u64> {
        self.segments@.skip(self.seg_idx as int)
    }

    /// Size of the segment that is being read, and the position in it.
    pub closed spec fn reading(&self) -> Option<(usize, int)> {
        match self.current {
            Some(rd) => Some((rd.size(), rd.position())),
            None => None,
        }
    }

    pub closed spec fn wf(&self) -> bool {
        &&& self.seg_idx <= self.segments@.len()
        &&& match self.current {
            Some(rd) => rd.wf(),
            None => true,
        }
    }

    pub fn new(segments: Vec<u64>, cursor_floor: u64) -> (r: WalReplayer)
        ensures
            r.wf(),
            r.floor() == cursor_floor,
            r.ahead() == segments@,
            r.reading() is None,
    {
        let r = WalReplayer { segments, seg_idx: 0, cursor_floor, current: None };
        assert(r.segments@.skip(0) =~= r.segments@);
        r
    }

    /// The next step of the replay, over the mapped memory of the segment that is being
    /// read. A segment whose records are all read is left for the next one.
    pub fn next(&mut self, mem: &[u8]) -> (step: ReplayStep)
        requires
            old(self).wf(),
            old(self).reading() matches Some((size, _)) ==> mem@.len() == size,
        ensures
            final(self).wf(),
            final(self).floor() == old(self).floor(),
            ({
                let read = match old(self).reading() {
                    Some((_, pos)) => read_on(mem@, pos, old(self).floor()),
                    None => (None, 0),
                };
                match read.0 {
                    Some(Ok(rec)) => {
                        &&& step matches ReplayStep::Yield(Ok(got))
                        &&& got@ == rec
                        &&& final(self).reading() == Some((mem@.len() as usize, read.1))
                        &&& final(self).ahead() == old(self).ahead()
                    },
                    Some(Err(e)) => {
                        &&& step == ReplayStep::Yield(Err(WalError::Reader(e)))
                        &&& final(self).reading() == Some((mem@.len() as usize, read.1))
                        &&& final(self).ahead() == old(self).ahead()
                    },
                    None => {
                        &&& final(self).reading() is None
                        &&& if old(self).ahead().len() == 0 {
                            step is End && final(self).ahead() == old(self).ahead()
                        } else {
                            &&& step == ReplayStep::Open(old(self).ahead()[0])
                            &&& final(self).ahead() == old(self).ahead().skip(1)
                        }
                    },
                }
            }),
    {
        let taken: Option<MmapSegmentReader> = self.current.take();
        match taken {
            None => {},
            Some(mut reader) => {
                let ghost start = reader.position();
                let ghost floor = self.cursor_floor;
                proof {
                    reader.lemma_wf();
                }
                loop
                    invariant
                        reader.wf(),
                        reader.size() == mem@.len(),
                        SEGMENT_HEADER_LEN <= reader.position() <= mem@.len(),
                        self.seg_idx <= self.segments@.len(),
                        self.segments@ == old(self).segments@,
                        self.seg_idx == old(self).seg_idx,
                        self.cursor_floor == old(self).cursor_floor,
                        floor == self.cursor_floor,
                        old(self).reading() == Some((mem@.len() as usize, start)),
                        read_on(mem@, start, floor) == read_on(mem@, reader.position(), floor),
                    ensures
                        self.seg_idx <= self.segments@.len(),
                        self.segments@ == old(self).segments@,
                        self.seg_idx == old(self).seg_idx,
                        self.cursor_floor == old(self).cursor_floor,
                        read_on(mem@, start, floor).0 is None,
                    decreases mem@.len() - reader.position(),
                {
                    let ghost pos = reader.position();
                    let outcome: ReadOutcome = reader.next_record(mem);
                    proof {
                        reader.lemma_wf();
                        mmap_segment_reader::lemma_step_advances(mem@, pos);
                    }
                    match outcome {
                        ReadOutcome::Record(rec) => {
                            if rec.cursor < self.cursor_floor {
                                continue;
                            }
                            self.current = Some(reader);
                            return ReplayStep::Yield(Ok(rec));
                        },
                        ReadOutcome::Failed(e) => {
                            self.current = Some(reader);
                            return ReplayStep::Yield(Err(WalError::Reader(e)));
                        },
                        _ => {
                            break;
                        },
                    }
                }
                self.current = None;
            },
        }
        if self.seg_idx >= self.segments.len() {
            return ReplayStep::End;
        }
        let first: u64 = self.segments[self.seg_idx];
        self.seg_idx = self.seg_idx + 1;
        assert(self.segments@.skip(self.seg_idx as int) =~= old(self).ahead().skip(1));
        ReplayStep::Open(first)
    }

    /// Takes the memory of the segment that was asked for. A segment that cannot be read is
    /// passed over, and the error is the next item of the replay.
    pub fn opened(&mut self, mapped: Result<&[u8], IoKind>) -> (r: Option<WalError>)
        requires
            old(self).wf(),
            old(self).reading() is None,
        ensures
            final(self).wf(),
            final(self).floor() == old(self).floor(),
            final(self).ahead() == old(self).ahead(),
            match mapped {
                Err(kind) => {
                    &&& r == Some(WalError::Reader(ReaderError::Io(kind)))
                    &&& final(self).reading() is None
                },
                Ok(mem) => match mmap_segment_reader::opened(mem@) {
                    Err(e) => r == Some(WalError::Reader(e)) && final(self).reading() is None,
                    Ok(_) => {
                        &&& r is None
                        &&& final(self).reading() == Some(
                            (mem@.len() as usize, SEGMENT_HEADER_LEN as int),
                        )
                    },
                },
            },
    {
        match MmapSegmentReader::open(mapped) {
            Err(e) => Some(WalError::Reader(e)),
            Ok(reader) => {
                self.current = Some(reader);
                None
            },
        }
    }
}

} // verus!
