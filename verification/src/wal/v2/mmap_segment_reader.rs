//! Reader of one memory-mapped segment.
//!
//! The reader walks the records of a mapped segment while the publisher appends to it.
//! What the leading `u32` of a record tells it:
//!
//! | `record_len`         | state                                    | outcome        |
//! |----------------------|------------------------------------------|----------------|
//! | `0`                  | reserved, nothing stored yet             | `AwaitMore`    |
//! | writing bit set      | being written                            | `AwaitMore`    |
//! | clean, above zero    | committed                                | decode, check  |
//! | all ones             | the segment is closed                    | `EndOfSegment` |
//!
//! The writing bit covers records in flight; the checksum covers those that a publisher
//! left behind when it died.

use crate::codec;
use crate::error::IoKind;
use crate::wal::checksum;
use crate::wal::record;
use crate::wal::record::{
    Record, SegmentHeaderError, MAX_PAYLOAD_LEN, MAX_RECORD_LEN, RECORD_FRAMING, SEGMENT_HEADER_LEN,
    SEGMENT_MAGIC, SEGMENT_VERSION,
};
use crate::wal::v2::mmap_segment_writer;
use crate::wal::v2::mmap_segment_writer::{
    align_record_len, Entry, MmapSegmentWriter, RecordWrite, SEGMENT_VERSION_V2, TAIL_OFFSET,
    WRITING_BIT_U32,
};
use vstd::prelude::*;

verus! {

/// The `record_len` that closes a segment. It has the writing bit set, but no record in
/// flight has all its bits.
pub const SKIP_TO_END_SENTINEL: u32 = 0xFFFF_FFFF;

#[derive(Debug, Clone, Copy, PartialEq, Eq, Structural)]
pub enum ReaderError {
    Io(IoKind),
    Header(SegmentHeaderError),
    /// The segment has the file-backed format, which another reader is for.
    LegacyV1Segment,
    /// The length, or the payload length inside, runs past its bounds.
    OversizeRecord { record_len: usize, offset: usize },
    CrcMismatch { offset: usize, stored: u32, computed: u32 },
    /// The length is less than the framing of a record.
    UndersizeRecord { record_len: usize, offset: usize },
}

/// What [`MmapSegmentReader::next_record`] gives.
#[derive(Debug, Clone, PartialEq, Eq)]
pub enum ReadOutcome {
    /// A committed record. The reader has moved behind it.
    Record(Record),
    /// There is no record here yet, or it is being written: wait and try again. The
    /// reader has not moved.
    AwaitMore,
    /// The segment is closed: go on with the next one.
    EndOfSegment,
    /// A bad record. The reader has moved behind it, so the caller may skip it.
    Failed(ReaderError),
}

/// What a [`ReadOutcome`] stands for.
#[verifier::ext_equal]
pub enum OutcomeView {
    Record(record::RecordView),
    AwaitMore,
    EndOfSegment,
    Failed(ReaderError),
}

impl View for ReadOutcome {
    type V = OutcomeView;

    open spec fn view(&self) -> OutcomeView {
        match *self {
            ReadOutcome::Record(r) => OutcomeView::Record(r@),
            ReadOutcome::AwaitMore => OutcomeView::AwaitMore,
            ReadOutcome::EndOfSegment => OutcomeView::EndOfSegment,
            ReadOutcome::Failed(e) => OutcomeView::Failed(e),
        }
    }
}

/// The verdict on the memory of a segment: its first cursor, or why it cannot be read.
pub open spec fn opened(mem: Seq<u8>) -> Result<u64, ReaderError> {
    if mem.len() < SEGMENT_HEADER_LEN {
        Err(ReaderError::Header(SegmentHeaderError::Truncated(mem.len() as usize)))
    } else if codec::le_at(mem, 0, 8) != SEGMENT_MAGIC {
        Err(ReaderError::Header(SegmentHeaderError::BadMagic { got: codec::le_at(mem, 0, 8) as u64 }))
    } else if codec::le_at(mem, 8, 4) == SEGMENT_VERSION {
        Err(ReaderError::LegacyV1Segment)
    } else if codec::le_at(mem, 8, 4) != SEGMENT_VERSION_V2 {
        Err(
            ReaderError::Header(
                SegmentHeaderError::UnsupportedVersion { got: codec::le_at(mem, 8, 4) as u32 },
            ),
        )
    } else {
        Ok(codec::le_at(mem, 16, 8) as u64)
    }
}

/// Whether a reader of a segment of `size` bytes at `pos` has to look at a record, given
/// the tail that it loaded.
pub open spec fn polled(size: int, pos: int, tail: u64) -> Option<OutcomeView> {
    if size - pos < 4 {
        Some(OutcomeView::EndOfSegment)
    } else if pos >= tail {
        Some(OutcomeView::AwaitMore)
    } else {
        None
    }
}

/// What the loaded `record_len` decides before the body is looked at.
pub open spec fn length_verdict(size: int, pos: int, raw: u32) -> Option<(OutcomeView, int)> {
    let bad_len = ReaderError::OversizeRecord { record_len: raw as usize, offset: pos as usize };
    if raw == 0 {
        Some((OutcomeView::AwaitMore, pos))
    } else if raw == SKIP_TO_END_SENTINEL {
        Some((OutcomeView::EndOfSegment, size))
    } else if raw >= WRITING_BIT_U32 {
        Some((OutcomeView::AwaitMore, pos))
    } else if raw > MAX_RECORD_LEN {
        Some((OutcomeView::Failed(bad_len), size))
    } else if raw < RECORD_FRAMING {
        Some(
            (
                OutcomeView::Failed(
                    ReaderError::UndersizeRecord { record_len: raw as usize, offset: pos as usize },
                ),
                size,
            ),
        )
    } else if pos + raw > size {
        Some((OutcomeView::Failed(bad_len), size))
    } else {
        None
    }
}

/// The bytes that the checksum of the record of `len` bytes at `pos` covers.
pub open spec fn covered(mem: Seq<u8>, pos: int, len: int) -> Seq<u8> {
    mem.subrange(pos + 4, pos + len - 4)
}

/// The committed record of `len` bytes at `pos`, whose covered bytes have the checksum
/// `computed`, and where the reader goes on.
pub open spec fn body_verdict(mem: Seq<u8>, pos: int, len: int, computed: u32) -> (
    OutcomeView,
    int,
) {
    let payload_len = codec::le_at(mem, pos + 20, 4) as int;
    let stored = codec::le_at(mem, pos + len - 4, 4) as u32;
    if RECORD_FRAMING + payload_len > len {
        let next = pos + mmap_segment_writer::aligned(len);
        (
            OutcomeView::Failed(
                ReaderError::OversizeRecord { record_len: len as usize, offset: pos as usize },
            ),
            if next > mem.len() {
                mem.len() as int
            } else {
                next
            },
        )
    } else if stored != computed {
        (
            OutcomeView::Failed(ReaderError::CrcMismatch { offset: pos as usize, stored, computed }),
            pos + len,
        )
    } else {
        (
            OutcomeView::Record(
                record::RecordView {
                    cursor: codec::le_at(mem, pos + 4, 8) as u64,
                    ts_unix_nanos: codec::le_at(mem, pos + 12, 8) as u64,
                    payload: mem.subrange(pos + 24, pos + 24 + payload_len),
                },
            ),
            pos + len,
        )
    }
}

/// What the `record_len` loaded at `pos` leads to, and where the reader goes on.
pub open spec fn decoded(mem: Seq<u8>, pos: int, raw: u32) -> (OutcomeView, int) {
    match length_verdict(mem.len() as int, pos, raw) {
        Some(v) => v,
        None => body_verdict(
            mem,
            pos,
            raw as int,
            checksum::crc32c_of(covered(mem, pos, raw as int)),
        ),
    }
}

/// One read of the memory at `pos`: the outcome, and where the reader goes on.
pub open spec fn step(mem: Seq<u8>, pos: int) -> (OutcomeView, int) {
    match polled(mem.len() as int, pos, codec::le_at(mem, TAIL_OFFSET as int, 8) as u64) {
        Some(o) => (o, pos),
        None => decoded(mem, pos, codec::le_at(mem, pos, 4) as u32),
    }
}

/// Decodes the committed record of `len` bytes at `pos`, whose covered bytes have the
/// checksum `computed`. Returns the outcome and where the reader goes on.
pub fn check_body(mem: &[u8], pos: usize, len: usize, computed: u32) -> (r: (ReadOutcome, usize))
    requires
        RECORD_FRAMING <= len <= MAX_RECORD_LEN,
        pos + len <= mem@.len(),
    ensures
        (r.0@, r.1 as int) == body_verdict(mem@, pos as int, len as int, computed),
        pos <= r.1 <= mem@.len(),
{
    let total: usize = mem.len();
    let cursor: u64 = codec::read_u64(mem, pos + 4);
    let ts: u64 = codec::read_u64(mem, pos + 12);
    let payload_len: usize = codec::read_u32(mem, pos + 20) as usize;
    if payload_len > len - RECORD_FRAMING {
        let step: usize = align_record_len(len);
        let next: usize = if step > total - pos {
            total
        } else {
            pos + step
        };
        return (
            ReadOutcome::Failed(ReaderError::OversizeRecord { record_len: len, offset: pos }),
            next,
        );
    }
    let stored: u32 = codec::read_u32(mem, pos + len - 4);
    if stored != computed {
        return (
            ReadOutcome::Failed(ReaderError::CrcMismatch { offset: pos, stored, computed }),
            pos + len,
        );
    }
    let payload: Vec<u8> = codec::copy_range(mem, pos + 24, pos + 24 + payload_len);
    (ReadOutcome::Record(Record { cursor, ts_unix_nanos: ts, payload }), pos + len)
}

/// Position of a reader in one memory-mapped segment.
pub struct MmapSegmentReader {
    segment_size: usize,
    first_cursor: u64,
    pos: usize,
}

impl MmapSegmentReader {
    /// The size of the segment, in bytes.
    pub closed spec fn size(&self) -> usize {
        self.segment_size
    }

    /// The cursor that the segment starts at.
    pub closed spec fn first(&self) -> u64 {
        self.first_cursor
    }

    /// Where the next record starts.
    pub closed spec fn position(&self) -> int {
        self.pos as int
    }

    /// The position lies inside the segment, behind its header.
    pub closed spec fn wf(&self) -> bool {
        SEGMENT_HEADER_LEN <= self.pos <= self.segment_size
    }

    pub proof fn lemma_wf(&self)
        requires
            self.wf(),
        ensures
            SEGMENT_HEADER_LEN <= self.position() <= self.size(),
    {
    }

    /// Opens a segment from what mapping its file gave: validates the header.
    pub fn open(mapped: Result<&[u8], IoKind>) -> (r: Result<MmapSegmentReader, ReaderError>)
        ensures
            match mapped {
                Err(kind) => r == Err::<MmapSegmentReader, ReaderError>(ReaderError::Io(kind)),
                Ok(mem) => match opened(mem@) {
                    Err(e) => r == Err::<MmapSegmentReader, ReaderError>(e),
                    Ok(first) => {
                        &&& r matches Ok(rd)
                        &&& rd.wf()
                        &&& rd.size() == mem@.len()
                        &&& rd.first() == first
                        &&& rd.position() == SEGMENT_HEADER_LEN
                    },
                },
            },
    {
        let mem: &[u8] = match mapped {
            Ok(m) => m,
            Err(kind) => {
                return Err(ReaderError::Io(kind));
            },
        };
        if mem.len() < SEGMENT_HEADER_LEN {
            return Err(ReaderError::Header(SegmentHeaderError::Truncated(mem.len())));
        }
        let magic: u64 = codec::read_u64(mem, 0);
        if magic != SEGMENT_MAGIC {
            return Err(ReaderError::Header(SegmentHeaderError::BadMagic { got: magic }));
        }
        let version: u32 = codec::read_u32(mem, 8);
        if version == SEGMENT_VERSION {
            return Err(ReaderError::LegacyV1Segment);
        }
        if version != SEGMENT_VERSION_V2 {
            return Err(ReaderError::Header(SegmentHeaderError::UnsupportedVersion { got: version }));
        }
        let first_cursor: u64 = codec::read_u64(mem, 16);
        Ok(MmapSegmentReader { segment_size: mem.len(), first_cursor, pos: SEGMENT_HEADER_LEN })
    }

    pub fn first_cursor(&self) -> (c: u64)
        ensures
            c == self.first(),
    {
        self.first_cursor
    }

    pub fn segment_size(&self) -> (n: usize)
        ensures
            n == self.size(),
    {
        self.segment_size
    }

    /// Where the next record starts.
    pub fn pos(&self) -> (n: usize)
        ensures
            n == self.position(),
    {
        self.pos
    }

    /// The tail in the header of the mapped memory: nothing is committed behind it.
    pub fn tail(&self, mem: &[u8]) -> (t: u64)
        requires
            self.wf(),
            mem@.len() == self.size(),
        ensures
            t == codec::le_at(mem@, TAIL_OFFSET as int, 8),
    {
        codec::read_u64(mem, TAIL_OFFSET)
    }

    /// Whether there is a record to look at, given the tail just loaded. `None`: load its
    /// `record_len` and go on with [`Self::decode`].
    pub fn poll(&self, tail: u64) -> (r: Option<ReadOutcome>)
        requires
            self.wf(),
        ensures
            match (r, polled(self.size() as int, self.position(), tail)) {
                (Some(o), Some(v)) => o@ == v,
                (None, None) => true,
                _ => false,
            },
    {
        if self.segment_size - self.pos < 4 {
            return Some(ReadOutcome::EndOfSegment);
        }
        if self.pos as u64 >= tail {
            return Some(ReadOutcome::AwaitMore);
        }
        None
    }

    /// Reads the record whose `record_len` was loaded as `raw`.
    pub fn decode(&mut self, mem: &[u8], raw: u32) -> (o: ReadOutcome)
        requires
            old(self).wf(),
            mem@.len() == old(self).size(),
        ensures
            final(self).wf(),
            final(self).size() == old(self).size(),
            final(self).first() == old(self).first(),
            (o@, final(self).position()) == decoded(mem@, old(self).position(), raw),
    {
        if raw == 0 {
            return ReadOutcome::AwaitMore;
        }
        if raw == SKIP_TO_END_SENTINEL {
            self.pos = self.segment_size;
            return ReadOutcome::EndOfSegment;
        }
        assert((raw & 0x8000_0000u32 != 0) == (raw >= 0x8000_0000u32)) by (bit_vector);
        if raw & WRITING_BIT_U32 != 0 {
            return ReadOutcome::AwaitMore;
        }
        let record_len: usize = raw as usize;
        let offset: usize = self.pos;
        if record_len > MAX_RECORD_LEN {
            self.pos = self.segment_size;
            return ReadOutcome::Failed(ReaderError::OversizeRecord { record_len, offset });
        }
        if record_len < RECORD_FRAMING {
            self.pos = self.segment_size;
            return ReadOutcome::Failed(ReaderError::UndersizeRecord { record_len, offset });
        }
        if record_len > self.segment_size - offset {
            self.pos = self.segment_size;
            return ReadOutcome::Failed(ReaderError::OversizeRecord { record_len, offset });
        }
        let input: &[u8] = vstd::slice::slice_subrange(mem, offset + 4, offset + record_len - 4);
        let computed: u32 = crc32c::crc32c(input);
        let (outcome, next): (ReadOutcome, usize) = check_body(mem, offset, record_len, computed);
        self.pos = next;
        outcome
    }

    /// Reads the next record of the mapped memory.
    pub fn next_record(&mut self, mem: &[u8]) -> (o: ReadOutcome)
        requires
            old(self).wf(),
            mem@.len() == old(self).size(),
        ensures
            final(self).wf(),
            final(self).size() == old(self).size(),
            final(self).first() == old(self).first(),
            (o@, final(self).position()) == step(mem@, old(self).position()),
    {
        let tail: u64 = self.tail(mem);
        match self.poll(tail) {
            Some(o) => o,
            None => {
                let raw: u32 = codec::read_u32(mem, self.pos);
                self.decode(mem, raw)
            },
        }
    }

    /// Goes back to the first record.
    pub fn rewind(&mut self)
        requires
            old(self).wf(),
        ensures
            final(self).wf(),
            final(self).size() == old(self).size(),
            final(self).first() == old(self).first(),
            final(self).position() == SEGMENT_HEADER_LEN,
    {
        self.pos = SEGMENT_HEADER_LEN;
    }
}

/// A read that gives a record, or finds a bad one, moves the reader forward, and none moves
/// it out of the segment.
pub proof fn lemma_step_advances(mem: Seq<u8>, pos: int)
    requires
        SEGMENT_HEADER_LEN <= pos <= mem.len(),
    ensures
        pos <= step(mem, pos).1 <= mem.len(),
        step(mem, pos).0 is Record ==> pos < step(mem, pos).1,
{
}

/// The reading of a committed record gives it back, whatever stands around it.
pub proof fn law_committed_record_reads_back(
    mem: Seq<u8>,
    before: Seq<u8>,
    r: record::RecordView,
    after: Seq<u8>,
)
    requires
        r.payload.len() <= MAX_PAYLOAD_LEN,
        mem == before + mmap_segment_writer::padded_record(r) + after,
        before.len() >= SEGMENT_HEADER_LEN,
        before.len() < codec::le_at(mem, TAIL_OFFSET as int, 8) as u64,
    ensures
        step(mem, before.len() as int) == (
            OutcomeView::Record(r),
            before.len() + mmap_segment_writer::padded_len(r),
        ),
{
    let pos = before.len() as int;
    let len = mmap_segment_writer::padded_len(r);
    let body = mmap_segment_writer::padded_body(r);
    let crc = checksum::crc32c_of(body);
    let plain = record::record_body(r);
    codec::lemma_pow256();
    mmap_segment_writer::lemma_padded_record_len(r);
    record::lemma_record_body_len(r);
    codec::lemma_le_value_of_bytes(len as nat, 4);
    codec::lemma_le_value_of_bytes(crc as nat, 4);
    codec::lemma_le_value_of_bytes(r.cursor as nat, 8);
    codec::lemma_le_value_of_bytes(r.ts_unix_nanos as nat, 8);
    codec::lemma_le_value_of_bytes(r.payload.len(), 4);
    assert(mem.subrange(pos, pos + 4) =~= codec::le_bytes(len as nat, 4));
    assert(covered(mem, pos, len) =~= body);
    assert(mem.subrange(pos + len - 4, pos + len - 4 + 4) =~= codec::le_bytes(crc as nat, 4));
    assert(mem.subrange(pos + 4, pos + 4 + 8) =~= codec::le_bytes(r.cursor as nat, 8));
    assert(mem.subrange(pos + 12, pos + 12 + 8) =~= codec::le_bytes(r.ts_unix_nanos as nat, 8));
    assert(mem.subrange(pos + 20, pos + 20 + 4) =~= codec::le_bytes(r.payload.len(), 4));
    assert(mem.subrange(pos + 24, pos + 24 + r.payload.len()) =~= r.payload);
}

/// A damaged record is noticed: if a byte of it behind the length is replaced, so that the
/// checksum of the bytes that it covers comes out different, or the stored checksum does,
/// reading it fails with the mismatch, and the reader moves behind it as it would have. A
/// payload length that was made too large for the record is told apart.
pub proof fn law_damage_is_noticed(mem: Seq<u8>, pos: int, at: int, byte: u8)
    requires
        SEGMENT_HEADER_LEN <= pos <= mem.len() <= usize::MAX,
        step(mem, pos).0 is Record,
        pos + 4 <= at < step(mem, pos).1,
        mem[at] != byte,
        at < step(mem, pos).1 - 4 ==> checksum::crc32c_of(
            covered(mem.update(at, byte), pos, step(mem, pos).1 - pos),
        ) != checksum::crc32c_of(covered(mem, pos, step(mem, pos).1 - pos)),
    ensures
        ({
            let d = mem.update(at, byte);
            let next = step(mem, pos).1;
            let len = next - pos;
            let mismatch = ReaderError::CrcMismatch {
                offset: pos as usize,
                stored: codec::le_at(d, next - 4, 4) as u32,
                computed: checksum::crc32c_of(covered(d, pos, len)),
            };
            if RECORD_FRAMING + codec::le_at(d, pos + 20, 4) > len {
                &&& pos + 20 <= at < pos + 24
                &&& step(d, pos).0 == OutcomeView::Failed(
                    ReaderError::OversizeRecord {
                        record_len: len as usize,
                        offset: pos as usize,
                    },
                )
            } else {
                step(d, pos) == (OutcomeView::Failed(mismatch), next)
            }
        }),
{
    let d = mem.update(at, byte);
    let next = step(mem, pos).1;
    let sum = mem.subrange(next - 4, next - 4 + 4);
    let sum_d = d.subrange(next - 4, next - 4 + 4);
    codec::lemma_pow256();
    codec::lemma_le_bytes_of_value(sum);
    codec::lemma_le_bytes_of_value(sum_d);
    assert(d.subrange(pos, pos + 4) =~= mem.subrange(pos, pos + 4));
    assert(d.subrange(TAIL_OFFSET as int, TAIL_OFFSET + 8) =~= mem.subrange(
        TAIL_OFFSET as int,
        TAIL_OFFSET + 8,
    ));
    if !(pos + 20 <= at < pos + 24) {
        assert(d.subrange(pos + 20, pos + 20 + 4) =~= mem.subrange(pos + 20, pos + 20 + 4));
    }
    if at < next - 4 {
        assert(sum_d =~= sum);
    } else {
        assert(covered(d, pos, next - pos) =~= covered(mem, pos, next - pos));
        assert(sum[at - (next - 4)] != sum_d[at - (next - 4)]);
        codec::lemma_le_value_differs(sum, sum_d);
    }
}

/// Reading goes on behind a damaged record: of two committed records the first of which lost
/// a byte of its payload, so that its checksum comes out different, a reader is told of the
/// mismatch and then gets the second.
pub proof fn law_reading_goes_on_behind_damage(
    mem: Seq<u8>,
    before: Seq<u8>,
    r0: record::RecordView,
    r1: record::RecordView,
    after: Seq<u8>,
    k: int,
    byte: u8,
)
    requires
        r0.payload.len() <= MAX_PAYLOAD_LEN,
        r1.payload.len() <= MAX_PAYLOAD_LEN,
        mem == before + mmap_segment_writer::padded_record(r0)
            + mmap_segment_writer::padded_record(r1) + after,
        mem.len() <= usize::MAX,
        before.len() >= SEGMENT_HEADER_LEN,
        before.len() + mmap_segment_writer::padded_len(r0) < codec::le_at(
            mem,
            TAIL_OFFSET as int,
            8,
        ) as u64,
        0 <= k < r0.payload.len(),
        r0.payload[k] != byte,
        checksum::crc32c_of(
            mmap_segment_writer::padded_body(
                record::RecordView { payload: r0.payload.update(k, byte), ..r0 },
            ),
        ) != checksum::crc32c_of(mmap_segment_writer::padded_body(r0)),
    ensures
        ({
            let pos = before.len() as int;
            let d = mem.update(pos + 24 + k, byte);
            let lost = record::RecordView { payload: r0.payload.update(k, byte), ..r0 };
            let next = pos + mmap_segment_writer::padded_len(r0);
            &&& step(d, pos) == (
                OutcomeView::Failed(
                    ReaderError::CrcMismatch {
                        offset: pos as usize,
                        stored: checksum::crc32c_of(mmap_segment_writer::padded_body(r0)),
                        computed: checksum::crc32c_of(mmap_segment_writer::padded_body(lost)),
                    },
                ),
                next,
            )
            &&& step(d, next) == (
                OutcomeView::Record(r1),
                next + mmap_segment_writer::padded_len(r1),
            )
        }),
{
    let b0 = mmap_segment_writer::padded_record(r0);
    let b1 = mmap_segment_writer::padded_record(r1);
    let bad = b0.update(24 + k, byte);
    mmap_segment_writer::lemma_padded_record_len(r0);
    lemma_regroup(before, b0, b1, after);
    lemma_regroup(before, bad, b1, after);
    lemma_update_part(before, b0, b1 + after, 24 + k, byte);
    lemma_damaged_step(mem, before, r0, b1 + after, k, byte);
    reveal(stepped);
    lemma_part(before, bad, b1 + after, 0, 0);
    lemma_tail_kept(mem, before.len() + 24 + k, byte);
    law_committed_record_reads_back(
        mem.update(before.len() + 24 + k, byte),
        before + bad,
        r1,
        after,
    );
}

/// Bytes one after the other, taken together in another way.
proof fn lemma_regroup(a: Seq<u8>, b: Seq<u8>, c: Seq<u8>, d: Seq<u8>)
    ensures
        a + b + c + d == a + b + (c + d),
{
    assert(a + b + c + d =~= a + b + (c + d));
}

/// Replacing a byte of one part.
proof fn lemma_update_part(a: Seq<u8>, b: Seq<u8>, c: Seq<u8>, i: int, byte: u8)
    requires
        0 <= i < b.len(),
    ensures
        (a + b + c).update(a.len() + i, byte) == a + b.update(i, byte) + c,
        (a + b + c)[a.len() + i] == b[i],
{
    assert((a + b + c).update(a.len() + i, byte) =~= a + b.update(i, byte) + c);
}

/// Some bytes of one part.
proof fn lemma_part(a: Seq<u8>, b: Seq<u8>, c: Seq<u8>, i: int, j: int)
    requires
        0 <= i <= j <= b.len(),
    ensures
        (a + b + c).subrange(a.len() + i, a.len() + j) == b.subrange(i, j),
{
    assert((a + b + c).subrange(a.len() + i, a.len() + j) =~= b.subrange(i, j));
}

/// The tail in the header does not depend on what stands behind the header.
proof fn lemma_tail_kept(mem: Seq<u8>, at: int, byte: u8)
    requires
        SEGMENT_HEADER_LEN <= at < mem.len(),
    ensures
        codec::le_at(mem.update(at, byte), TAIL_OFFSET as int, 8) == codec::le_at(
            mem,
            TAIL_OFFSET as int,
            8,
        ),
{
    assert(mem.update(at, byte).subrange(TAIL_OFFSET as int, TAIL_OFFSET + 8) =~= mem.subrange(
        TAIL_OFFSET as int,
        TAIL_OFFSET + 8,
    ));
}

/// One read, as a whole.
#[verifier::opaque]
spec fn stepped(mem: Seq<u8>, pos: int) -> (OutcomeView, int) {
    step(mem, pos)
}

proof fn lemma_intact_step(mem: Seq<u8>, before: Seq<u8>, r: record::RecordView, after: Seq<u8>)
    requires
        r.payload.len() <= MAX_PAYLOAD_LEN,
        mem == before + mmap_segment_writer::padded_record(r) + after,
        before.len() >= SEGMENT_HEADER_LEN,
        before.len() < codec::le_at(mem, TAIL_OFFSET as int, 8) as u64,
    ensures
        stepped(mem, before.len() as int) == (
            OutcomeView::Record(r),
            before.len() + mmap_segment_writer::padded_len(r),
        ),
{
    reveal(stepped);
    law_committed_record_reads_back(mem, before, r, after);
}

/// What a reader finds in place of a record that lost a byte of its payload.
proof fn lemma_damaged_step(
    mem: Seq<u8>,
    before: Seq<u8>,
    r: record::RecordView,
    after: Seq<u8>,
    k: int,
    byte: u8,
)
    requires
        r.payload.len() <= MAX_PAYLOAD_LEN,
        mem == before + mmap_segment_writer::padded_record(r) + after,
        mem.len() <= usize::MAX,
        before.len() >= SEGMENT_HEADER_LEN,
        before.len() < codec::le_at(mem, TAIL_OFFSET as int, 8) as u64,
        0 <= k < r.payload.len(),
        r.payload[k] != byte,
        checksum::crc32c_of(
            mmap_segment_writer::padded_body(
                record::RecordView { payload: r.payload.update(k, byte), ..r },
            ),
        ) != checksum::crc32c_of(mmap_segment_writer::padded_body(r)),
    ensures
        ({
            let pos = before.len() as int;
            let lost = record::RecordView { payload: r.payload.update(k, byte), ..r };
            stepped(mem.update(pos + 24 + k, byte), pos) == (
                OutcomeView::Failed(
                    ReaderError::CrcMismatch {
                        offset: pos as usize,
                        stored: checksum::crc32c_of(mmap_segment_writer::padded_body(r)),
                        computed: checksum::crc32c_of(mmap_segment_writer::padded_body(lost)),
                    },
                ),
                pos + mmap_segment_writer::padded_len(r),
            )
        }),
{
    lemma_intact_step(mem, before, r, after);
    lemma_damaged_bytes(r, k, byte);
    lemma_damaged_part(mem, before, mmap_segment_writer::padded_record(r), after, 24 + k, byte);
}

/// What a reader finds in place of bytes that were a record until one of them was replaced.
proof fn lemma_damaged_part(
    mem: Seq<u8>,
    before: Seq<u8>,
    good: Seq<u8>,
    after: Seq<u8>,
    i: int,
    byte: u8,
)
    requires
        mem == before + good + after,
        mem.len() <= usize::MAX,
        before.len() >= SEGMENT_HEADER_LEN,
        stepped(mem, before.len() as int).0 is Record,
        stepped(mem, before.len() as int).1 == before.len() + good.len(),
        24 <= i < good.len() - 4,
        good[i] != byte,
        RECORD_FRAMING + codec::le_value(good.update(i, byte).subrange(20, 24)) <= good.len(),
        checksum::crc32c_of(good.update(i, byte).subrange(4, good.len() - 4))
            != checksum::crc32c_of(good.subrange(4, good.len() - 4)),
    ensures
        ({
            let pos = before.len() as int;
            let bad = good.update(i, byte);
            let len = good.len() as int;
            stepped(mem.update(pos + i, byte), pos) == (
                OutcomeView::Failed(
                    ReaderError::CrcMismatch {
                        offset: pos as usize,
                        stored: codec::le_value(bad.subrange(len - 4, len)) as u32,
                        computed: checksum::crc32c_of(bad.subrange(4, len - 4)),
                    },
                ),
                pos + len,
            )
        }),
{
    reveal(stepped);
    let pos = before.len() as int;
    let len = good.len() as int;
    let bad = good.update(i, byte);
    lemma_update_part(before, good, after, i, byte);
    lemma_part(before, good, after, 4, len - 4);
    lemma_part(before, bad, after, 4, len - 4);
    lemma_part(before, bad, after, 20, 24);
    lemma_part(before, bad, after, len - 4, len);
    law_damage_is_noticed(mem, pos, pos + i, byte);
}

/// The bytes of a record of which one byte of the payload was replaced.
proof fn lemma_damaged_bytes(r: record::RecordView, k: int, byte: u8)
    requires
        0 <= k < r.payload.len() <= MAX_PAYLOAD_LEN,
    ensures
        ({
            let len = mmap_segment_writer::padded_len(r);
            let good = mmap_segment_writer::padded_record(r);
            let bad = good.update(24 + k, byte);
            let lost = record::RecordView { payload: r.payload.update(k, byte), ..r };
            &&& good.len() == len
            &&& RECORD_FRAMING + r.payload.len() <= len
            &&& good[24 + k] == r.payload[k]
            &&& good.subrange(4, len - 4) == mmap_segment_writer::padded_body(r)
            &&& bad.subrange(4, len - 4) == mmap_segment_writer::padded_body(lost)
            &&& codec::le_value(bad.subrange(20, 24)) == r.payload.len()
            &&& codec::le_value(bad.subrange(len - 4, len)) == checksum::crc32c_of(
                mmap_segment_writer::padded_body(r),
            )
        }),
{
    let len = mmap_segment_writer::padded_len(r);
    let good = mmap_segment_writer::padded_record(r);
    let bad = good.update(24 + k, byte);
    let lost = record::RecordView { payload: r.payload.update(k, byte), ..r };
    let crc = checksum::crc32c_of(mmap_segment_writer::padded_body(r));
    mmap_segment_writer::lemma_padded_record_len(r);
    mmap_segment_writer::lemma_padded_record_len(lost);
    record::lemma_record_body_len(r);
    record::lemma_record_body_len(lost);
    codec::lemma_pow256();
    codec::lemma_le_bytes_len(len as nat, 4);
    codec::lemma_le_bytes_len(r.cursor as nat, 8);
    codec::lemma_le_bytes_len(r.ts_unix_nanos as nat, 8);
    codec::lemma_le_value_of_bytes(crc as nat, 4);
    codec::lemma_le_value_of_bytes(r.payload.len(), 4);
    assert(good.subrange(4, len - 4) =~= mmap_segment_writer::padded_body(r));
    assert(bad.subrange(4, len - 4) =~= mmap_segment_writer::padded_body(lost));
    assert(bad.subrange(20, 24) =~= codec::le_bytes(r.payload.len(), 4));
    assert(bad.subrange(len - 4, len) =~= codec::le_bytes(crc as nat, 4));
}

/// The entries before the first marker.
pub open spec fn readable(es: Seq<Entry>) -> Seq<record::RecordView>
    decreases es.len(),
{
    if es.len() == 0 {
        Seq::empty()
    } else {
        match es[0] {
            Entry::Skip => Seq::empty(),
            Entry::Record(r) => seq![r] + readable(es.skip(1)),
        }
    }
}

/// What a reader sees from `pos` on until it has to wait, reaches the end of the segment
/// or meets a bad record: the records, and what stopped it.
pub open spec fn walk(mem: Seq<u8>, pos: int) -> (Seq<record::RecordView>, OutcomeView)
    decreases mem.len() - pos,
{
    match step(mem, pos) {
        (OutcomeView::Record(r), next) => if pos < next <= mem.len() {
            let rest = walk(mem, next);
            (seq![r] + rest.0, rest.1)
        } else {
            (seq![r], OutcomeView::AwaitMore)
        },
        (o, _) => (Seq::empty(), o),
    }
}

/// What a reader is told behind the records of a segment.
pub open spec fn at_end(size: int, es: Seq<Entry>) -> OutcomeView {
    if readable(es).len() < es.len() || size - SEGMENT_HEADER_LEN
        - mmap_segment_writer::entries_bytes(es).len() < 4 {
        OutcomeView::EndOfSegment
    } else {
        OutcomeView::AwaitMore
    }
}

proof fn lemma_walk(mem: Seq<u8>, before: Seq<u8>, es: Seq<Entry>, after: Seq<u8>)
    requires
        mmap_segment_writer::entries_fit(es),
        mem == before + mmap_segment_writer::entries_bytes(es) + after,
        before.len() >= SEGMENT_HEADER_LEN,
        codec::le_at(mem, TAIL_OFFSET as int, 8) as u64 == before.len()
            + mmap_segment_writer::entries_bytes(es).len(),
    ensures
        walk(mem, before.len() as int) == (
            readable(es),
            if readable(es).len() < es.len() || after.len() < 4 {
                OutcomeView::EndOfSegment
            } else {
                OutcomeView::AwaitMore
            },
        ),
        readable(es).len() <= es.len(),
    decreases es.len(),
{
    let pos = before.len() as int;
    if es.len() == 0 {
        assert(mem =~= before + after);
        assert(walk(mem, pos).0 =~= readable(es));
    } else {
        let rest = mmap_segment_writer::entries_bytes(es.skip(1));
        match es[0] {
            Entry::Skip => {
                codec::lemma_pow256();
                codec::lemma_le_value_of_bytes(SKIP_TO_END_SENTINEL as nat, 4);
                assert(mem.subrange(pos, pos + 4) =~= codec::le_bytes(
                    SKIP_TO_END_SENTINEL as nat,
                    4,
                ));
                assert(walk(mem, pos).0 =~= readable(es));
            },
            Entry::Record(r) => {
                let bytes = mmap_segment_writer::padded_record(r);
                mmap_segment_writer::lemma_padded_record_len(r);
                assert(mem =~= before + bytes + (rest + after));
                law_committed_record_reads_back(mem, before, r, rest + after);
                assert(mmap_segment_writer::entries_fit(es.skip(1))) by {
                    assert forall|i: int| 0 <= i < es.skip(1).len() implies ((#[trigger] es.skip(
                        1,
                    )[i]) matches Entry::Record(r) ==> r.payload.len() <= MAX_PAYLOAD_LEN) by {
                        assert(es.skip(1)[i] == es[i + 1]);
                    }
                }
                assert(mem =~= (before + bytes) + rest + after);
                lemma_walk(mem, before + bytes, es.skip(1), after);
            },
        }
    }
}

/// What a reader sees of a segment whose memory has room for its entries.
pub proof fn lemma_walk_image(size: int, first_cursor: u64, log: Seq<Entry>)
    requires
        SEGMENT_HEADER_LEN + mmap_segment_writer::entries_bytes(log).len() <= size <= u64::MAX,
        mmap_segment_writer::entries_fit(log),
    ensures
        opened(mmap_segment_writer::image_of(size, first_cursor, log)) == Ok::<u64, ReaderError>(
            first_cursor,
        ),
        walk(
            mmap_segment_writer::image_of(size, first_cursor, log),
            SEGMENT_HEADER_LEN as int,
        ) == (readable(log), at_end(size, log)),
{
    let mem = mmap_segment_writer::image_of(size, first_cursor, log);
    let bytes = mmap_segment_writer::entries_bytes(log);
    let tail = (SEGMENT_HEADER_LEN + bytes.len()) as u64;
    let h = record::header_bytes(SEGMENT_VERSION_V2, first_cursor, tail);
    record::lemma_header_bytes(SEGMENT_VERSION_V2, first_cursor, tail);
    let after = mmap_segment_writer::zeros(size - tail);
    assert(mem =~= h + bytes + after);
    assert(mem.subrange(0, 8) =~= h.subrange(0, 8));
    assert(mem.subrange(8, 12) =~= h.subrange(8, 12));
    assert(mem.subrange(16, 24) =~= h.subrange(16, 24));
    assert(mem.subrange(24, 32) =~= h.subrange(24, 32));
    lemma_walk(mem, h, log, after);
}

/// A reader of the memory that a writer fills sees exactly the records that were appended
/// before the segment was closed, in order. Behind them it is told to wait, or that the
/// segment has ended: the latter exactly when the segment was closed or has no room left
/// for a marker.
pub proof fn law_reader_follows_writer(w: MmapSegmentWriter)
    requires
        w.wf(),
    ensures
        opened(w.image()) == Ok::<u64, ReaderError>(w.first()),
        walk(w.image(), SEGMENT_HEADER_LEN as int) == (
            readable(w.log()),
            at_end(w.size() as int, w.log()),
        ),
{
    w.lemma_wf();
    lemma_walk_image(w.size() as int, w.first(), w.log());
}

/// A reader that stands at a record which is being written is told to wait until the last
/// of its stores is made: it never sees a part of a record.
pub proof fn law_no_torn_read(w: MmapSegmentWriter, rec: record::RecordView, write: RecordWrite, n: int)
    requires
        w.wf(),
        rec.payload.len() <= MAX_PAYLOAD_LEN,
        w.end() + mmap_segment_writer::padded_len(rec) <= w.size(),
        write.at == w.end(),
        write.tail == w.end() + mmap_segment_writer::padded_len(rec),
        write.commit == mmap_segment_writer::padded_len(rec),
        write.claim == mmap_segment_writer::padded_len(rec) + WRITING_BIT_U32,
        write.body@ == mmap_segment_writer::record_tail(rec),
        0 <= n <= 4,
    ensures
        step(write.staged(w.image(), n), w.end()) == (if n < 4 {
            (OutcomeView::AwaitMore, w.end())
        } else {
            (OutcomeView::Record(rec), w.end() + mmap_segment_writer::padded_len(rec))
        }),
{
    w.lemma_wf();
    let mem = w.image();
    let at = w.end();
    let m = write.staged(mem, n);
    codec::lemma_pow256();
    mmap_segment_writer::lemma_padded_record_len(rec);
    record::lemma_header_bytes(SEGMENT_VERSION_V2, w.first(), at as u64);
    codec::lemma_le_value_of_bytes(at as nat, 8);
    codec::lemma_le_value_of_bytes(write.tail as nat, 8);
    codec::lemma_le_value_of_bytes(write.claim as nat, 4);
    codec::lemma_le_value_of_bytes(write.commit as nat, 4);
    codec::lemma_le_value_of_bytes(0, 4);
    let h = record::header_bytes(SEGMENT_VERSION_V2, w.first(), at as u64);
    if n == 0 {
        assert(m.subrange(24, 32) =~= h.subrange(24, 32));
    } else {
        assert(m.subrange(24, 32) =~= codec::le_bytes(write.tail as nat, 8));
        if n == 1 {
            assert(m.subrange(at, at + 4) =~= codec::le_bytes(0, 4)) by {
                reveal_with_fuel(codec::le_bytes, 5);
            }
        } else if n < 4 {
            assert(m.subrange(at, at + 4) =~= codec::le_bytes(write.claim as nat, 4));
        } else {
            let before = m.take(at);
            let after = m.skip(at + mmap_segment_writer::padded_len(rec));
            assert(m =~= before + mmap_segment_writer::padded_record(rec) + after);
            law_committed_record_reads_back(m, before, rec, after);
        }
    }
}

} // verus!
