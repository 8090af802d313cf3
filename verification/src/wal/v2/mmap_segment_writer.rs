//! Writer of one memory-mapped segment.
//!
//! The writer keeps the reservations of a segment and says which stores put a record
//! into the mapped memory; whoever owns the mapping makes them. What differs from the
//! file-backed format:
//!
//! * the header carries version 2, so that a reader of the file-backed format rejects
//!   the segment in place of misparsing it;
//! * bytes 24..32 of the header hold the tail, the offset behind the last reservation;
//! * `record_len` is the total size rounded up to eight bytes, so that every record
//!   starts where its length can be loaded atomically. The padding is zero and counts
//!   toward the checksum;
//! * the high bit of `record_len` is set while the record is being written.

use crate::codec;
use crate::error::IoKind;
use crate::wal::checksum;
use crate::wal::record;
use crate::wal::record::{
    build_header, Record, MAX_PAYLOAD_LEN, MAX_RECORD_LEN, RECORD_FRAMING, SEGMENT_HEADER_LEN,
};
use crate::wal::v2::mmap_segment_reader::SKIP_TO_END_SENTINEL;
use vstd::prelude::*;

verus! {

/// Format version of memory-mapped segments.
pub const SEGMENT_VERSION_V2: u32 = 2;

/// High bit of the `record_len` field: set while the record is being written, cleared
/// on commit.
pub const WRITING_BIT_U32: u32 = 0x8000_0000;

/// Byte offset of the tail inside the segment header.
pub const TAIL_OFFSET: usize = 24;

/// `n` rounded up to a multiple of eight.
pub open spec fn aligned(n: int) -> int {
    (n + 7) / 8 * 8
}

/// Rounds `unpadded` up to the next multiple of eight.
pub fn align_record_len(unpadded: usize) -> (n: usize)
    requires
        unpadded + 7 <= usize::MAX,
    ensures
        n == aligned(unpadded as int),
        n % 8 == 0,
        unpadded <= n < unpadded + 8,
{
    (unpadded + 7) / 8 * 8
}

#[derive(Debug, Clone, Copy, PartialEq, Eq, Structural)]
pub enum WriterError {
    PayloadTooLarge { payload_len: usize },
    /// The segment could not hold its header and the framing of one record.
    SegmentTooSmall { segment_size: usize, min: usize },
    Io(IoKind),
}

/// `n` zero bytes.
pub open spec fn zeros(n: int) -> Seq<u8> {
    Seq::new(n as nat, |i: int| 0u8)
}

/// The bytes of a record that the checksum covers, padding included.
pub open spec fn padded_body(r: record::RecordView) -> Seq<u8> {
    let unpadded = RECORD_FRAMING + r.payload.len();
    record::record_body(r) + zeros(aligned(unpadded as int) - unpadded)
}

/// What follows the `record_len` field of a record: the padded body and its checksum.
pub open spec fn record_tail(r: record::RecordView) -> Seq<u8> {
    padded_body(r) + codec::le_bytes(checksum::crc32c_of(padded_body(r)) as nat, 4)
}

/// The total size of a record.
pub open spec fn padded_len(r: record::RecordView) -> int {
    aligned((RECORD_FRAMING + r.payload.len()) as int)
}

/// A committed record.
pub open spec fn padded_record(r: record::RecordView) -> Seq<u8> {
    codec::le_bytes(padded_len(r) as nat, 4) + record_tail(r)
}

pub proof fn lemma_padded_record_len(r: record::RecordView)
    ensures
        padded_body(r).len() == padded_len(r) - 8,
        record_tail(r).len() == padded_len(r) - 4,
        padded_record(r).len() == padded_len(r),
        padded_len(r) >= RECORD_FRAMING + r.payload.len(),
        padded_len(r) < RECORD_FRAMING + r.payload.len() + 8,
        r.payload.len() <= MAX_PAYLOAD_LEN ==> padded_len(r) <= MAX_RECORD_LEN,
{
    record::lemma_record_body_len(r);
    codec::lemma_le_bytes_len(checksum::crc32c_of(padded_body(r)) as nat, 4);
    codec::lemma_le_bytes_len(padded_len(r) as nat, 4);
}

/// What was put into a segment.
pub enum Entry {
    Record(record::RecordView),
    /// The marker that closes the segment.
    Skip,
}

/// An entry as it stands in the segment.
pub open spec fn entry_bytes(e: Entry) -> Seq<u8> {
    match e {
        Entry::Record(r) => padded_record(r),
        Entry::Skip => codec::le_bytes(SKIP_TO_END_SENTINEL as nat, 4),
    }
}

/// The entries one after the other.
pub open spec fn entries_bytes(es: Seq<Entry>) -> Seq<u8>
    decreases es.len(),
{
    if es.len() == 0 {
        Seq::empty()
    } else {
        entry_bytes(es[0]) + entries_bytes(es.skip(1))
    }
}

/// Entries take up room.
pub proof fn lemma_entries_nonempty(es: Seq<Entry>)
    ensures
        entries_bytes(es).len() == 0 <==> es.len() == 0,
{
    if es.len() > 0 {
        let e = es.last();
        lemma_entries_push(es.drop_last(), e);
        assert(es.drop_last().push(e) =~= es);
        match e {
            Entry::Record(r) => lemma_padded_record_len(r),
            Entry::Skip => codec::lemma_le_bytes_len(SKIP_TO_END_SENTINEL as nat, 4),
        }
    }
}

pub proof fn lemma_entries_push(es: Seq<Entry>, e: Entry)
    ensures
        entries_bytes(es.push(e)) == entries_bytes(es) + entry_bytes(e),
    decreases es.len(),
{
    let all = es.push(e);
    if es.len() == 0 {
        assert(all[0] == e && all.skip(1).len() == 0);
        assert(entries_bytes(all.skip(1)) =~= Seq::empty());
        assert(entries_bytes(all) =~= entries_bytes(es) + entry_bytes(e));
    } else {
        lemma_entries_push(es.skip(1), e);
        assert(all.skip(1) =~= es.skip(1).push(e));
        assert(entries_bytes(all) =~= entries_bytes(es) + entry_bytes(e));
    }
}

/// The memory of a segment of `size` bytes: header, entries, zeros up to the end.
pub open spec fn image_of(size: int, first_cursor: u64, entries: Seq<Entry>) -> Seq<u8> {
    let tail = SEGMENT_HEADER_LEN + entries_bytes(entries).len();
    record::header_bytes(SEGMENT_VERSION_V2, first_cursor, tail as u64) + entries_bytes(entries)
        + zeros(size - tail)
}

/// Every payload among the entries fits in a record.
pub open spec fn entries_fit(es: Seq<Entry>) -> bool {
    forall|i: int|
        0 <= i < es.len() ==> ((#[trigger] es[i]) matches Entry::Record(r) ==> r.payload.len()
            <= MAX_PAYLOAD_LEN)
}

/// The stores that put one record into a mapped segment. They have to be made in this
/// order, each visible to readers before the next one: the tail, then the claim, then
/// the body, then the commit.
#[derive(Debug, Clone, PartialEq, Eq)]
pub struct RecordWrite {
    /// The new tail.
    pub tail: u64,
    /// Where the record starts.
    pub at: u64,
    /// The `record_len` with the writing bit set, stored at `at` first.
    pub claim: u32,
    /// The bytes behind the `record_len`, stored at `at + 4`.
    pub body: Vec<u8>,
    /// The clean `record_len`, stored at `at` last.
    pub commit: u32,
}

impl RecordWrite {
    /// The memory after the first `n` of the four stores.
    pub open spec fn staged(&self, mem: Seq<u8>, n: int) -> Seq<u8> {
        let m1 = codec::patch(mem, TAIL_OFFSET as int, codec::le_bytes(self.tail as nat, 8));
        let m2 = codec::patch(m1, self.at as int, codec::le_bytes(self.claim as nat, 4));
        let m3 = codec::patch(m2, self.at + 4, self.body@);
        if n <= 0 {
            mem
        } else if n == 1 {
            m1
        } else if n == 2 {
            m2
        } else if n == 3 {
            m3
        } else {
            codec::patch(m3, self.at as int, codec::le_bytes(self.commit as nat, 4))
        }
    }

    /// The stores lie behind the header, inside a segment of `size` bytes.
    pub open spec fn fits(&self, size: int) -> bool {
        SEGMENT_HEADER_LEN <= self.at && self.at + 4 + self.body@.len() <= size
    }

    /// Makes the four stores on `mem`.
    pub fn apply(&self, mem: &mut Vec<u8>)
        requires
            self.fits(old(mem)@.len() as int),
        ensures
            final(mem)@ == self.staged(old(mem)@, 4),
    {
        let total: usize = mem.len();
        assert(self.at + 4 <= total);
        let at: usize = self.at as usize;
        codec::write_u64(mem, TAIL_OFFSET, self.tail);
        codec::write_u32(mem, at, self.claim);
        codec::write_bytes(mem, at + 4, self.body.as_slice());
        codec::write_u32(mem, at, self.commit);
    }
}

/// The stores that close a segment: the tail, then the marker.
#[derive(Debug, Clone, Copy, PartialEq, Eq, Structural)]
pub struct MarkerWrite {
    /// The new tail.
    pub tail: u64,
    /// Where [`SKIP_TO_END_SENTINEL`] goes.
    pub at: u64,
}

impl MarkerWrite {
    /// The memory after the stores.
    pub open spec fn applied(&self, mem: Seq<u8>) -> Seq<u8> {
        codec::patch(
            codec::patch(mem, TAIL_OFFSET as int, codec::le_bytes(self.tail as nat, 8)),
            self.at as int,
            codec::le_bytes(SKIP_TO_END_SENTINEL as nat, 4),
        )
    }

    /// Makes the stores on `mem`.
    pub fn apply(&self, mem: &mut Vec<u8>)
        requires
            SEGMENT_HEADER_LEN <= self.at,
            self.at + 4 <= old(mem)@.len(),
        ensures
            final(mem)@ == self.applied(old(mem)@),
    {
        let total: usize = mem.len();
        assert(self.at + 4 <= total);
        codec::write_u64(mem, TAIL_OFFSET, self.tail);
        codec::write_u32(mem, self.at as usize, SKIP_TO_END_SENTINEL);
    }
}

/// Outcome of an append.
#[derive(Debug, Clone, PartialEq, Eq)]
pub enum AppendOutcome {
    /// The record takes its place at `byte_offset` with the stores in `write`;
    /// `next_cursor` is the cursor to advance to.
    Appended { byte_offset: u64, next_cursor: u64, write: RecordWrite },
    /// The record would overrun the segment. The tail is unchanged.
    SegmentFull,
}

/// Writer of one memory-mapped segment.
pub struct MmapSegmentWriter {
    segment_size: usize,
    first_cursor: u64,
    tail: u64,
    entries: Ghost<Seq<Entry>>,
}

/// Whether a segment of `segment_size` bytes can be created.
pub open spec fn size_verdict(segment_size: usize) -> Result<(), WriterError> {
    if segment_size < SEGMENT_HEADER_LEN + RECORD_FRAMING {
        Err(
            WriterError::SegmentTooSmall {
                segment_size,
                min: (SEGMENT_HEADER_LEN + RECORD_FRAMING) as usize,
            },
        )
    } else {
        Ok(())
    }
}

impl MmapSegmentWriter {
    /// The size of the segment, in bytes.
    pub closed spec fn size(&self) -> usize {
        self.segment_size
    }

    /// The cursor that the segment starts at.
    pub closed spec fn first(&self) -> u64 {
        self.first_cursor
    }

    /// What was put into the segment so far.
    pub closed spec fn log(&self) -> Seq<Entry> {
        self.entries@
    }

    /// The offset behind the last reservation.
    pub open spec fn end(&self) -> int {
        (SEGMENT_HEADER_LEN + entries_bytes(self.log()).len()) as int
    }

    /// The memory of the segment when every store was made.
    pub open spec fn image(&self) -> Seq<u8> {
        image_of(self.size() as int, self.first(), self.log())
    }

    pub closed spec fn wf(&self) -> bool {
        &&& size_verdict(self.segment_size) is Ok
        &&& self.tail == self.end()
        &&& self.tail <= self.segment_size
        &&& entries_fit(self.entries@)
    }

    /// What a writer guarantees of its parts.
    pub proof fn lemma_wf(&self)
        requires
            self.wf(),
        ensures
            size_verdict(self.size()) is Ok,
            SEGMENT_HEADER_LEN <= self.end() <= self.size(),
            entries_fit(self.log()),
            self.image().len() == self.size(),
    {
        record::lemma_header_bytes(SEGMENT_VERSION_V2, self.first(), self.end() as u64);
    }

    /// Whether a segment of that size can be created: the test that stands before any
    /// work on the file.
    pub fn check_size(segment_size: usize) -> (r: Result<(), WriterError>)
        ensures
            r == size_verdict(segment_size),
    {
        if segment_size < SEGMENT_HEADER_LEN + RECORD_FRAMING {
            return Err(
                WriterError::SegmentTooSmall {
                    segment_size,
                    min: SEGMENT_HEADER_LEN + RECORD_FRAMING,
                },
            );
        }
        Ok(())
    }

    /// Starts a fresh segment of `segment_size` bytes, given what creating, sizing and
    /// mapping its file gave. The mapped memory has to start with [`Self::header`] and
    /// to be zero behind it.
    pub fn create(segment_size: usize, first_cursor: u64, created: Result<(), IoKind>) -> (r:
        Result<MmapSegmentWriter, WriterError>)
        ensures
            match (size_verdict(segment_size), created) {
                (Err(e), _) => r == Err::<MmapSegmentWriter, WriterError>(e),
                (Ok(_), Err(kind)) => r == Err::<MmapSegmentWriter, WriterError>(
                    WriterError::Io(kind),
                ),
                (Ok(_), Ok(_)) => {
                    &&& r matches Ok(w)
                    &&& w.wf()
                    &&& w.size() == segment_size
                    &&& w.first() == first_cursor
                    &&& w.log() == Seq::<Entry>::empty()
                },
            },
    {
        match Self::check_size(segment_size) {
            Err(e) => {
                return Err(e);
            },
            Ok(_) => {},
        }
        match created {
            Err(kind) => Err(WriterError::Io(kind)),
            Ok(_) => Ok(
                MmapSegmentWriter {
                    segment_size,
                    first_cursor,
                    tail: SEGMENT_HEADER_LEN as u64,
                    entries: Ghost(Seq::empty()),
                },
            ),
        }
    }

    /// The header of the segment, with the tail as it stands.
    pub fn header(&self) -> (b: Vec<u8>)
        requires
            self.wf(),
        ensures
            b@ == self.image().take(SEGMENT_HEADER_LEN as int),
    {
        let b: Vec<u8> = build_header(SEGMENT_VERSION_V2, self.first_cursor, self.tail);
        proof {
            record::lemma_header_bytes(SEGMENT_VERSION_V2, self.first(), self.end() as u64);
            assert(b@ =~= self.image().take(SEGMENT_HEADER_LEN as int));
        }
        b
    }

    /// Reserves room for one record and encodes it. That the cursors follow each other
    /// is up to the caller.
    pub fn append(&mut self, cursor: u64, ts_unix_nanos: u64, payload: &[u8]) -> (r: Result<
        AppendOutcome,
        WriterError,
    >)
        requires
            old(self).wf(),
            cursor < u64::MAX,
        ensures
            final(self).wf(),
            final(self).size() == old(self).size(),
            final(self).first() == old(self).first(),
            ({
                let rec = record::RecordView { cursor, ts_unix_nanos, payload: payload@ };
                if payload@.len() > MAX_PAYLOAD_LEN {
                    &&& r == Err::<AppendOutcome, WriterError>(
                        WriterError::PayloadTooLarge { payload_len: payload@.len() as usize },
                    )
                    &&& *final(self) == *old(self)
                } else if old(self).end() + padded_len(rec) > old(self).size() {
                    &&& r == Ok::<AppendOutcome, WriterError>(AppendOutcome::SegmentFull)
                    &&& *final(self) == *old(self)
                } else {
                    &&& final(self).log() == old(self).log().push(Entry::Record(rec))
                    &&& final(self).end() == old(self).end() + padded_len(rec)
                    &&& r matches Ok(AppendOutcome::Appended { byte_offset, next_cursor, write })
                    &&& byte_offset == old(self).end()
                    &&& next_cursor == cursor + 1
                    &&& write.at == byte_offset
                    &&& write.tail == final(self).end()
                    &&& write.commit == padded_len(rec)
                    &&& write.claim == padded_len(rec) + WRITING_BIT_U32
                    &&& write.body@ == record_tail(rec)
                }
            }),
    {
        if payload.len() > MAX_PAYLOAD_LEN {
            return Err(WriterError::PayloadTooLarge { payload_len: payload.len() });
        }
        let unpadded: usize = RECORD_FRAMING + payload.len();
        let total: usize = align_record_len(unpadded);
        let rec = Record {
            cursor,
            ts_unix_nanos,
            payload: codec::copy_range(payload, 0, payload.len()),
        };
        let ghost rv = record::RecordView { cursor, ts_unix_nanos, payload: payload@ };
        proof {
            assert(rec@.payload =~= payload@);
            lemma_padded_record_len(rv);
            lemma_entries_push(self.entries@, Entry::Record(rv));
        }
        if total as u64 > self.segment_size as u64 - self.tail {
            return Ok(AppendOutcome::SegmentFull);
        }
        let at: u64 = self.tail;
        let mut body: Vec<u8> = Vec::new();
        rec.push_body(&mut body);
        proof {
            record::lemma_record_body_len(rv);
            assert(body@ =~= record::record_body(rv) + zeros(0));
        }
        let mut pad: usize = 0;
        while pad < total - unpadded
            invariant
                pad <= total - unpadded,
                unpadded <= total,
                body@ == record::record_body(rv) + zeros(pad as int),
            decreases total - unpadded - pad,
        {
            body.push(0);
            pad = pad + 1;
            assert(body@ =~= record::record_body(rv) + zeros(pad as int));
        }
        assert(body@ =~= padded_body(rv));
        let crc: u32 = crc32c::crc32c(body.as_slice());
        codec::push_u32(&mut body, crc);
        let commit: u32 = total as u32;
        let claim: u32 = commit | WRITING_BIT_U32;
        assert(commit < 0x8000_0000 ==> commit | 0x8000_0000u32 == commit + 0x8000_0000u32)
            by (bit_vector);
        let write = RecordWrite { tail: at + total as u64, at, claim, body, commit };
        self.tail = at + total as u64;
        self.entries = Ghost(self.entries@.push(Entry::Record(rv)));
        Ok(AppendOutcome::Appended { byte_offset: at, next_cursor: cursor + 1, write })
    }

    /// The offset behind the last reservation.
    pub fn current_tail(&self) -> (t: u64)
        requires
            self.wf(),
        ensures
            t == self.end(),
    {
        self.tail
    }

    /// The marker that would close the segment now: `None` when there is no room for it.
    pub fn skip_marker(&self) -> (m: Option<MarkerWrite>)
        requires
            self.wf(),
        ensures
            m == (if self.end() + 4 > self.size() {
                None
            } else {
                Some(MarkerWrite { tail: (self.end() + 4) as u64, at: self.end() as u64 })
            }),
    {
        if self.segment_size as u64 - self.tail < 4 {
            None
        } else {
            Some(MarkerWrite { tail: self.tail + 4, at: self.tail })
        }
    }

    /// Reserves room for the marker that sends readers on to the next segment. `None`
    /// when there is no room for it: a reader that comes this far sees the end of the
    /// segment by itself.
    pub fn write_skip_to_end(&mut self) -> (r: Result<Option<MarkerWrite>, WriterError>)
        requires
            old(self).wf(),
        ensures
            final(self).wf(),
            final(self).size() == old(self).size(),
            final(self).first() == old(self).first(),
            if old(self).end() + 4 > old(self).size() {
                &&& r == Ok::<Option<MarkerWrite>, WriterError>(None)
                &&& *final(self) == *old(self)
            } else {
                &&& r == Ok::<Option<MarkerWrite>, WriterError>(
                    Some(
                        MarkerWrite {
                            tail: (old(self).end() + 4) as u64,
                            at: old(self).end() as u64,
                        },
                    ),
                )
                &&& final(self).log() == old(self).log().push(Entry::Skip)
                &&& final(self).end() == old(self).end() + 4
            },
    {
        let marker: Option<MarkerWrite> = self.skip_marker();
        match marker {
            None => Ok(None),
            Some(write) => {
                proof {
                    lemma_entries_push(self.entries@, Entry::Skip);
                    codec::lemma_le_bytes_len(SKIP_TO_END_SENTINEL as nat, 4);
                }
                self.tail = write.tail;
                self.entries = Ghost(self.entries@.push(Entry::Skip));
                Ok(Some(write))
            },
        }
    }

    pub fn first_cursor(&self) -> (c: u64)
        ensures
            c == self.first(),
    {
        self.first_cursor
    }

    pub fn segment_size(&self) -> (n: usize)
        ensures
            n == self.size(),
    {
        self.segment_size
    }
}

/// The stores of an append lead from the memory before it to the memory after it.
pub proof fn law_append_stores(
    size: int,
    first_cursor: u64,
    log: Seq<Entry>,
    rec: record::RecordView,
    write: RecordWrite,
)
    requires
        SEGMENT_HEADER_LEN + entries_bytes(log).len() + padded_len(rec) <= size <= u64::MAX,
        rec.payload.len() <= MAX_PAYLOAD_LEN,
        write.at == SEGMENT_HEADER_LEN + entries_bytes(log).len(),
        write.tail == write.at + padded_len(rec),
        write.commit == padded_len(rec),
        write.body@ == record_tail(rec),
    ensures
        write.staged(image_of(size, first_cursor, log), 4) == image_of(
            size,
            first_cursor,
            log.push(Entry::Record(rec)),
        ),
{
    let before = image_of(size, first_cursor, log);
    let after = image_of(size, first_cursor, log.push(Entry::Record(rec)));
    let got = write.staged(before, 4);
    let at = write.at as int;
    lemma_entries_push(log, Entry::Record(rec));
    lemma_padded_record_len(rec);
    record::lemma_header_bytes(SEGMENT_VERSION_V2, first_cursor, at as u64);
    record::lemma_header_bytes(SEGMENT_VERSION_V2, first_cursor, write.tail);
    lemma_header_tail(first_cursor, at as u64, write.tail);
    codec::lemma_le_bytes_len(write.tail as nat, 8);
    codec::lemma_le_bytes_len(write.claim as nat, 4);
    codec::lemma_le_bytes_len(write.commit as nat, 4);
    let h0 = record::header_bytes(SEGMENT_VERSION_V2, first_cursor, at as u64);
    let h1 = record::header_bytes(SEGMENT_VERSION_V2, first_cursor, write.tail);
    assert forall|i: int| 0 <= i < size implies got[i] == after[i] by {
        if i < SEGMENT_HEADER_LEN {
            assert(after[i] == h1[i]);
            assert(before[i] == h0[i]);
            assert(h1[i] == codec::patch(h0, TAIL_OFFSET as int, codec::le_bytes(write.tail as nat, 8))[i]);
        }
    }
    assert(got =~= after);
}

/// Headers of one segment differ in the tail alone.
proof fn lemma_header_tail(first_cursor: u64, tail0: u64, tail1: u64)
    ensures
        record::header_bytes(SEGMENT_VERSION_V2, first_cursor, tail1) == codec::patch(
            record::header_bytes(SEGMENT_VERSION_V2, first_cursor, tail0),
            TAIL_OFFSET as int,
            codec::le_bytes(tail1 as nat, 8),
        ),
{
    codec::lemma_le_bytes_len(record::SEGMENT_MAGIC as nat, 8);
    codec::lemma_le_bytes_len(SEGMENT_VERSION_V2 as nat, 4);
    codec::lemma_le_bytes_len(0, 4);
    codec::lemma_le_bytes_len(first_cursor as nat, 8);
    codec::lemma_le_bytes_len(tail0 as nat, 8);
    codec::lemma_le_bytes_len(tail1 as nat, 8);
    assert(record::header_bytes(SEGMENT_VERSION_V2, first_cursor, tail1) =~= codec::patch(
        record::header_bytes(SEGMENT_VERSION_V2, first_cursor, tail0),
        TAIL_OFFSET as int,
        codec::le_bytes(tail1 as nat, 8),
    ));
}

/// The stores of a marker lead from the memory before it to the memory after it.
pub proof fn law_marker_stores(
    size: int,
    first_cursor: u64,
    log: Seq<Entry>,
    write: MarkerWrite,
)
    requires
        SEGMENT_HEADER_LEN + entries_bytes(log).len() + 4 <= size <= u64::MAX,
        write.at == SEGMENT_HEADER_LEN + entries_bytes(log).len(),
        write.tail == write.at + 4,
    ensures
        write.applied(image_of(size, first_cursor, log)) == image_of(
            size,
            first_cursor,
            log.push(Entry::Skip),
        ),
{
    let before = image_of(size, first_cursor, log);
    let after = image_of(size, first_cursor, log.push(Entry::Skip));
    let got = write.applied(before);
    let at = write.at as int;
    lemma_entries_push(log, Entry::Skip);
    record::lemma_header_bytes(SEGMENT_VERSION_V2, first_cursor, at as u64);
    record::lemma_header_bytes(SEGMENT_VERSION_V2, first_cursor, write.tail);
    lemma_header_tail(first_cursor, at as u64, write.tail);
    codec::lemma_le_bytes_len(write.tail as nat, 8);
    codec::lemma_le_bytes_len(SKIP_TO_END_SENTINEL as nat, 4);
    let h0 = record::header_bytes(SEGMENT_VERSION_V2, first_cursor, at as u64);
    let h1 = record::header_bytes(SEGMENT_VERSION_V2, first_cursor, write.tail);
    assert forall|i: int| 0 <= i < size implies got[i] == after[i] by {
        if i < SEGMENT_HEADER_LEN {
            assert(after[i] == h1[i]);
            assert(before[i] == h0[i]);
            assert(h1[i] == codec::patch(h0, TAIL_OFFSET as int, codec::le_bytes(write.tail as nat, 8))[i]);
        }
    }
    assert(got =~= after);
}

} // verus!
