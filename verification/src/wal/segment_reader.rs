//! Single-segment reader and recovery scan.
//!
//! [`SegmentReader`] parses the header of a segment and yields its records in order.
//! [`recover_truncate`] runs the full scan and says where the segment has to be cut so
//! that every record left in it is intact: a power-loss-torn record at the end is
//! dropped before any reader sees it.

use crate::codec;
use crate::error::IoKind;
use crate::wal::checksum;
use crate::wal::record;
use crate::wal::record::{
    Record, SegmentHeader, SegmentHeaderError, MAX_PAYLOAD_LEN, MAX_RECORD_LEN, RECORD_FRAMING,
    SEGMENT_HEADER_LEN,
};
use vstd::prelude::*;

verus! {

#[derive(Debug, Clone, Copy, PartialEq, Eq, Structural)]
pub enum ReaderError {
    /// The segment file could not be read.
    Io(IoKind),
    /// The segment header did not parse.
    Header(SegmentHeaderError),
    /// `record_len` lies outside the range of a record, or does not agree with the
    /// payload length inside.
    OversizeRecord { record_len: usize },
    /// The trailing CRC does not match the body: corrupt or torn write.
    CrcMismatch { offset: u64, stored: u32, computed: u32 },
    /// The file ends in the middle of a record.
    ShortRead { offset: u64, needed: u64 },
}

/// The length of the record that starts at `pos` of `f`: `None` at the end of the file.
pub open spec fn frame_at(f: Seq<u8>, pos: int) -> Result<Option<nat>, ReaderError> {
    let remaining = f.len() - pos;
    if remaining <= 0 {
        Ok(None)
    } else if remaining < 4 {
        Err(ReaderError::ShortRead { offset: pos as u64, needed: (4 - remaining) as u64 })
    } else {
        let record_len = codec::le_at(f, pos, 4);
        if record_len > MAX_RECORD_LEN || record_len < RECORD_FRAMING {
            Err(ReaderError::OversizeRecord { record_len: record_len as usize })
        } else if remaining < record_len {
            Err(
                ReaderError::ShortRead {
                    offset: pos as u64,
                    needed: (record_len - remaining) as u64,
                },
            )
        } else {
            Ok(Some(record_len))
        }
    }
}

/// The bytes of a record between its length prefix and its checksum.
pub open spec fn body_at(f: Seq<u8>, pos: int, record_len: int) -> Seq<u8> {
    f.subrange(pos + 4, pos + record_len - 4)
}

/// The record in the `record_len` bytes at `pos`, whose body has the checksum `computed`.
pub open spec fn checked_record(f: Seq<u8>, pos: int, record_len: int, computed: u32) -> Result<
    record::RecordView,
    ReaderError,
> {
    let body = body_at(f, pos, record_len);
    let stored = codec::le_at(f, pos + record_len - 4, 4) as u32;
    if stored != computed {
        Err(ReaderError::CrcMismatch { offset: pos as u64, stored, computed })
    } else if codec::le_at(body, 16, 4) + RECORD_FRAMING != record_len {
        Err(ReaderError::OversizeRecord { record_len: record_len as usize })
    } else {
        Ok(
            record::RecordView {
                cursor: codec::le_at(body, 0, 8) as u64,
                ts_unix_nanos: codec::le_at(body, 8, 8) as u64,
                payload: body.subrange(20, body.len() as int),
            },
        )
    }
}

/// The record at `pos` and the bytes it takes: `None` at the end of the file.
pub open spec fn record_at(f: Seq<u8>, pos: int) -> Result<
    Option<(record::RecordView, nat)>,
    ReaderError,
> {
    match frame_at(f, pos) {
        Err(e) => Err(e),
        Ok(None) => Ok(None),
        Ok(Some(n)) => match checked_record(
            f,
            pos,
            n as int,
            checksum::crc32c_of(body_at(f, pos, n as int)),
        ) {
            Err(e) => Err(e),
            Ok(r) => Ok(Some((r, n))),
        },
    }
}

/// What a scan of a segment finds: the records before the first bad one, the offset
/// where they end, and what stopped the scan short of the end of the file.
#[verifier::ext_equal]
pub struct Scan {
    pub records: Seq<record::RecordView>,
    pub end: int,
    pub error: Option<ReaderError>,
}

/// The scan of `f` from `pos` on.
pub open spec fn scan(f: Seq<u8>, pos: int) -> Scan
    decreases f.len() - pos,
{
    match record_at(f, pos) {
        Err(e) => Scan { records: Seq::empty(), end: pos, error: Some(e) },
        Ok(None) => Scan { records: Seq::empty(), end: pos, error: None },
        Ok(Some((r, n))) => {
            let rest = scan(f, pos + n);
            Scan { records: seq![r] + rest.records, end: rest.end, error: rest.error }
        },
    }
}

/// What a decoding function hands back for one record.
pub open spec fn decoded_as(
    got: Result<Option<(Record, u64)>, ReaderError>,
    want: Result<Option<(record::RecordView, nat)>, ReaderError>,
) -> bool {
    match (got, want) {
        (Ok(Some((r, n))), Ok(Some((rv, nv)))) => r@ == rv && n == nv,
        (Ok(None), Ok(None)) => true,
        (Err(e), Err(ev)) => e == ev,
        _ => false,
    }
}

/// Frames the record at byte `pos` of `file`.
pub fn read_frame(file: &[u8], pos: u64) -> (r: Result<Option<usize>, ReaderError>)
    ensures
        match (r, frame_at(file@, pos as int)) {
            (Ok(Some(n)), Ok(Some(nv))) => n == nv,
            (Ok(None), Ok(None)) => true,
            (Err(e), Err(ev)) => e == ev,
            _ => false,
        },
{
    let file_len: u64 = file.len() as u64;
    if pos >= file_len {
        return Ok(None);
    }
    let remaining: u64 = file_len - pos;
    if remaining < 4 {
        return Err(ReaderError::ShortRead { offset: pos, needed: 4 - remaining });
    }
    let record_len: usize = codec::read_u32(file, pos as usize) as usize;
    if record_len > MAX_RECORD_LEN {
        return Err(ReaderError::OversizeRecord { record_len });
    }
    if record_len < RECORD_FRAMING {
        return Err(ReaderError::OversizeRecord { record_len });
    }
    let total_after_len: u64 = (record_len - 4) as u64;
    let remaining_after_len: u64 = remaining - 4;
    if remaining_after_len < total_after_len {
        return Err(
            ReaderError::ShortRead { offset: pos, needed: total_after_len - remaining_after_len },
        );
    }
    Ok(Some(record_len))
}

/// Decodes the `record_len` bytes at `pos`, whose body has the checksum `computed`.
pub fn check_record(file: &[u8], pos: u64, record_len: usize, computed: u32) -> (r: Result<
    Record,
    ReaderError,
>)
    requires
        RECORD_FRAMING <= record_len <= MAX_RECORD_LEN,
        pos + record_len <= file@.len(),
    ensures
        match (r, checked_record(file@, pos as int, record_len as int, computed)) {
            (Ok(rec), Ok(v)) => rec@ == v,
            (Err(e), Err(ev)) => e == ev,
            _ => false,
        },
{
    let total: usize = file.len();
    let at: usize = pos as usize;
    let ghost body = body_at(file@, pos as int, record_len as int);
    let stored: u32 = codec::read_u32(file, at + record_len - 4);
    if stored != computed {
        return Err(ReaderError::CrcMismatch { offset: pos, stored, computed });
    }
    let cursor: u64 = codec::read_u64(file, at + 4);
    let ts: u64 = codec::read_u64(file, at + 12);
    let payload_len: u32 = codec::read_u32(file, at + 20);
    proof {
        assert(body.subrange(0, 8) =~= file@.subrange(at + 4, at + 4 + 8));
        assert(body.subrange(8, 16) =~= file@.subrange(at + 12, at + 12 + 8));
        assert(body.subrange(16, 20) =~= file@.subrange(at + 20, at + 20 + 4));
    }
    if payload_len as u64 + RECORD_FRAMING as u64 != record_len as u64 {
        return Err(ReaderError::OversizeRecord { record_len });
    }
    let payload: Vec<u8> = codec::copy_range(file, at + 24, at + record_len - 4);
    assert(payload@ =~= body.subrange(20, body.len() as int));
    Ok(Record { cursor, ts_unix_nanos: ts, payload })
}

/// Reads one record starting at byte `pos` of `file`: `Ok(Some((record, bytes)))` on
/// success, `Ok(None)` at the end of the file, an error for any structural failure.
pub fn read_one_record(file: &[u8], pos: u64) -> (r: Result<Option<(Record, u64)>, ReaderError>)
    ensures
        decoded_as(r, record_at(file@, pos as int)),
{
    match read_frame(file, pos) {
        Err(e) => Err(e),
        Ok(None) => Ok(None),
        Ok(Some(record_len)) => {
            let total: usize = file.len();
            assert(pos + record_len <= total);
            let at: usize = pos as usize;
            let body: &[u8] = vstd::slice::slice_subrange(file, at + 4, at + record_len - 4);
            let computed: u32 = crc32c::crc32c(body);
            match check_record(file, pos, record_len, computed) {
                Err(e) => Err(e),
                Ok(rec) => Ok(Some((rec, record_len as u64))),
            }
        },
    }
}

/// Read-only view over one segment.
pub struct SegmentReader {
    header: SegmentHeader,
    bytes: Vec<u8>,
    pos: u64,
    halted: bool,
}

impl SegmentReader {
    /// The bytes of the segment.
    pub closed spec fn file(&self) -> Seq<u8> {
        self.bytes@
    }

    /// Where the next record starts.
    pub closed spec fn position(&self) -> int {
        self.pos as int
    }

    /// Whether an earlier record was bad: nothing is yielded after it.
    pub closed spec fn is_halted(&self) -> bool {
        self.halted
    }

    /// The header agrees with the bytes, and the position lies inside them.
    pub closed spec fn wf(&self) -> bool {
        &&& record::parsed_header(self.bytes@) == Ok::<SegmentHeader, SegmentHeaderError>(
            self.header,
        )
        &&& SEGMENT_HEADER_LEN <= self.pos <= self.bytes@.len()
    }

    /// Opens a segment from what reading its file gave.
    pub fn open(contents: Result<Vec<u8>, IoKind>) -> (r: Result<SegmentReader, ReaderError>)
        ensures
            match contents {
                Err(kind) => r == Err::<SegmentReader, ReaderError>(ReaderError::Io(kind)),
                Ok(bytes) => match record::parsed_header(bytes@) {
                    Err(e) => r == Err::<SegmentReader, ReaderError>(ReaderError::Header(e)),
                    Ok(h) => {
                        &&& r is Ok
                        &&& r->Ok_0.wf()
                        &&& r->Ok_0.file() == bytes@
                        &&& r->Ok_0.position() == SEGMENT_HEADER_LEN
                        &&& !r->Ok_0.is_halted()
                    },
                },
            },
    {
        let bytes: Vec<u8> = match contents {
            Ok(b) => b,
            Err(kind) => {
                return Err(ReaderError::Io(kind));
            },
        };
        match SegmentHeader::parse(bytes.as_slice()) {
            Err(e) => Err(ReaderError::Header(e)),
            Ok(header) => Ok(
                SegmentReader { header, bytes, pos: SEGMENT_HEADER_LEN as u64, halted: false },
            ),
        }
    }

    pub fn header(&self) -> (h: &SegmentHeader)
        requires
            self.wf(),
        ensures
            record::parsed_header(self.file()) == Ok::<SegmentHeader, SegmentHeaderError>(*h),
    {
        &self.header
    }

    pub fn first_cursor(&self) -> (c: u64)
        requires
            self.wf(),
        ensures
            c == codec::le_at(self.file(), 16, 8),
    {
        proof {
            codec::lemma_pow256();
            codec::lemma_le_bytes_of_value(self.bytes@.subrange(16, 24));
        }
        self.header.first_cursor
    }

    pub fn file_len(&self) -> (n: u64)
        ensures
            n == self.file().len(),
    {
        self.bytes.len() as u64
    }

    /// The next record: `None` at the end of the segment and after a bad record.
    pub fn next_record(&mut self) -> (r: Option<Result<Record, ReaderError>>)
        requires
            old(self).wf(),
        ensures
            final(self).wf(),
            final(self).file() == old(self).file(),
            yielded(
                r,
                old(self).file(),
                old(self).position(),
                old(self).is_halted(),
                final(self).position(),
                final(self).is_halted(),
            ),
    {
        if self.halted {
            return None;
        }
        let total: usize = self.bytes.len();
        match read_one_record(self.bytes.as_slice(), self.pos) {
            Ok(Some((rec, advance))) => {
                assert(self.pos + advance <= total);
                self.pos = self.pos + advance;
                Some(Ok(rec))
            },
            Ok(None) => None,
            Err(e) => {
                self.halted = true;
                Some(Err(e))
            },
        }
    }

    /// Yields the records in order from the first one on.
    pub fn iter(&self) -> (it: RecordIter<'_>)
        requires
            self.wf(),
        ensures
            it.wf(),
            it.file() == self.file(),
            it.position() == SEGMENT_HEADER_LEN,
            !it.is_halted(),
    {
        RecordIter { reader: self, pos: SEGMENT_HEADER_LEN as u64, halted: false }
    }
}

/// One step over the records of `f`: what is yielded at `pos`, and the position and the
/// halt flag after it.
pub open spec fn yielded(
    r: Option<Result<Record, ReaderError>>,
    f: Seq<u8>,
    pos: int,
    halted: bool,
    pos2: int,
    halted2: bool,
) -> bool {
    if halted {
        r is None && pos2 == pos && halted2
    } else {
        match record_at(f, pos) {
            Ok(None) => r is None && pos2 == pos && !halted2,
            Ok(Some((rv, n))) => {
                &&& r matches Some(Ok(rec))
                &&& rec@ == rv
                &&& pos2 == pos + n
                &&& !halted2
            },
            Err(e) => r == Some(Err::<Record, ReaderError>(e)) && pos2 == pos && halted2,
        }
    }
}

/// Walk over the records of a [`SegmentReader`]; halts for good on the first error.
pub struct RecordIter<'a> {
    reader: &'a SegmentReader,
    pos: u64,
    halted: bool,
}

impl<'a> RecordIter<'a> {
    /// The bytes of the segment.
    pub closed spec fn file(&self) -> Seq<u8> {
        self.reader.bytes@
    }

    /// Where the next record starts.
    pub closed spec fn position(&self) -> int {
        self.pos as int
    }

    /// Whether an earlier record was bad.
    pub closed spec fn is_halted(&self) -> bool {
        self.halted
    }

    /// The position lies inside the segment.
    pub closed spec fn wf(&self) -> bool {
        self.pos <= self.reader.bytes@.len()
    }

    /// The next record: `None` at the end of the segment and after a bad record.
    pub fn next(&mut self) -> (r: Option<Result<Record, ReaderError>>)
        requires
            old(self).wf(),
        ensures
            final(self).wf(),
            final(self).file() == old(self).file(),
            yielded(
                r,
                old(self).file(),
                old(self).position(),
                old(self).is_halted(),
                final(self).position(),
                final(self).is_halted(),
            ),
    {
        if self.halted {
            return None;
        }
        let total: usize = self.reader.bytes.len();
        match read_one_record(self.reader.bytes.as_slice(), self.pos) {
            Ok(Some((rec, advance))) => {
                assert(self.pos + advance <= total);
                self.pos = self.pos + advance;
                Some(Ok(rec))
            },
            Ok(None) => None,
            Err(e) => {
                self.halted = true;
                Some(Err(e))
            },
        }
    }
}

/// Outcome of a recovery scan over a single segment.
#[derive(Debug, Clone, Copy, PartialEq, Eq, Structural)]
pub struct RecoveryReport {
    /// File length after recovery.
    pub final_len: u64,
    /// Bytes dropped by the truncate (0 if the segment was clean).
    pub bytes_dropped: u64,
    /// Cursor of the last intact record in the segment. If no record survived, it is the
    /// cursor before the first one of the segment: `None` if there is none before that.
    pub last_cursor: Option<u64>,
}

/// The cursor of the last of `records`.
pub open spec fn highest_of(records: Seq<record::RecordView>) -> Option<u64> {
    if records.len() == 0 {
        None
    } else {
        Some(records.last().cursor)
    }
}

/// The cursor of the last of the records of a segment that starts at `first`: the one before
/// `first` if there are none.
pub open spec fn last_cursor_of(first: u64, records: Seq<record::RecordView>) -> Option<u64> {
    if records.len() == 0 && first > 0 {
        Some((first - 1) as u64)
    } else {
        highest_of(records)
    }
}

/// The recovery of a segment that reads as `f`.
pub open spec fn recovered(f: Seq<u8>) -> RecoveryReport {
    let s = scan(f, SEGMENT_HEADER_LEN as int);
    RecoveryReport {
        final_len: s.end as u64,
        bytes_dropped: (f.len() - s.end) as u64,
        last_cursor: last_cursor_of(codec::le_at(f, 16, 8) as u64, s.records),
    }
}

/// Scans a segment from its header forward up to the first bad record. The report says
/// how long the file has to be afterwards: the bad record and all that follows it go.
pub fn recover_truncate(contents: Result<Vec<u8>, IoKind>) -> (r: Result<
    RecoveryReport,
    ReaderError,
>)
    ensures
        match contents {
            Err(kind) => r == Err::<RecoveryReport, ReaderError>(ReaderError::Io(kind)),
            Ok(bytes) => match record::parsed_header(bytes@) {
                Err(e) => r == Err::<RecoveryReport, ReaderError>(ReaderError::Header(e)),
                Ok(_) => {
                    &&& r == Ok::<RecoveryReport, ReaderError>(recovered(bytes@))
                    &&& r->Ok_0.final_len == scan(bytes@, SEGMENT_HEADER_LEN as int).end
                    &&& r->Ok_0.final_len + r->Ok_0.bytes_dropped == bytes@.len()
                    &&& r->Ok_0.bytes_dropped > 0 <==> scan(
                        bytes@,
                        SEGMENT_HEADER_LEN as int,
                    ).error is Some
                },
            },
        },
{
    let reader: SegmentReader = match SegmentReader::open(contents) {
        Ok(rd) => rd,
        Err(e) => {
            return Err(e);
        },
    };
    let ghost f = reader.bytes@;
    let original_len: u64 = reader.file_len();
    let mut pos: u64 = SEGMENT_HEADER_LEN as u64;
    let first: u64 = reader.first_cursor();
    let mut last_cursor: Option<u64> = if first > 0 {
        Some(first - 1)
    } else {
        None
    };
    let ghost mut seen: Seq<record::RecordView> = Seq::empty();
    assert(seen + scan(f, pos as int).records =~= scan(f, pos as int).records);
    loop
        invariant
            reader.bytes@ == f,
            original_len == f.len(),
            SEGMENT_HEADER_LEN <= pos <= f.len(),
            last_cursor == last_cursor_of(first, seen),
            scan(f, SEGMENT_HEADER_LEN as int).end == scan(f, pos as int).end,
            scan(f, SEGMENT_HEADER_LEN as int).error == scan(f, pos as int).error,
            scan(f, SEGMENT_HEADER_LEN as int).records == seen + scan(f, pos as int).records,
        ensures
            original_len == f.len(),
            pos <= f.len(),
            last_cursor == last_cursor_of(first, scan(f, SEGMENT_HEADER_LEN as int).records),
            scan(f, SEGMENT_HEADER_LEN as int).end == pos,
            scan(f, SEGMENT_HEADER_LEN as int).error is Some <==> pos < f.len(),
        decreases f.len() - pos,
    {
        match read_one_record(reader.bytes.as_slice(), pos) {
            Ok(None) => {
                assert(seen + scan(f, pos as int).records =~= seen);
                break;
            },
            Ok(Some((rec, advance))) => {
                proof {
                    let before = seen;
                    seen = seen.push(rec@);
                    assert(before + scan(f, pos as int).records =~= seen + scan(
                        f,
                        pos + advance,
                    ).records);
                }
                pos = pos + advance;
                last_cursor = Some(rec.cursor);
            },
            Err(_) => {
                assert(seen + scan(f, pos as int).records =~= seen);
                break;
            },
        }
    }
    Ok(RecoveryReport { final_len: pos, bytes_dropped: original_len - pos, last_cursor })
}

/// The records one after the other as they stand on disk.
pub open spec fn encoded_records(rs: Seq<record::RecordView>) -> Seq<u8>
    decreases rs.len(),
{
    if rs.len() == 0 {
        Seq::empty()
    } else {
        record::encoded_record(rs[0]) + encoded_records(rs.skip(1))
    }
}

/// Every payload fits in a record.
pub open spec fn payloads_fit(rs: Seq<record::RecordView>) -> bool {
    forall|i: int| 0 <= i < rs.len() ==> (#[trigger] rs[i]).payload.len() <= MAX_PAYLOAD_LEN
}

proof fn lemma_payloads_fit_skip(rs: Seq<record::RecordView>)
    requires
        payloads_fit(rs),
        rs.len() > 0,
    ensures
        payloads_fit(rs.skip(1)),
{
    assert forall|i: int| 0 <= i < rs.skip(1).len() implies (#[trigger] rs.skip(
        1,
    )[i]).payload.len() <= MAX_PAYLOAD_LEN by {
        assert(rs.skip(1)[i] == rs[i + 1]);
    }
}

/// Decoding an encoded record gives it back, whatever stands before and after it.
pub proof fn law_record_round_trip(
    before: Seq<u8>,
    r: record::RecordView,
    after: Seq<u8>,
)
    requires
        r.payload.len() <= MAX_PAYLOAD_LEN,
    ensures
        record_at(before + record::encoded_record(r) + after, before.len() as int) == Ok::<
            Option<(record::RecordView, nat)>,
            ReaderError,
        >(Some((r, RECORD_FRAMING as nat + r.payload.len()))),
{
    let f = before + record::encoded_record(r) + after;
    let pos = before.len() as int;
    let n = RECORD_FRAMING + r.payload.len();
    let body = record::record_body(r);
    let crc = checksum::crc32c_of(body);
    codec::lemma_pow256();
    record::lemma_record_body_len(r);
    record::lemma_sealed_record_len(r, crc);
    codec::lemma_le_value_of_bytes(n as nat, 4);
    codec::lemma_le_value_of_bytes(crc as nat, 4);
    codec::lemma_le_value_of_bytes(r.cursor as nat, 8);
    codec::lemma_le_value_of_bytes(r.ts_unix_nanos as nat, 8);
    codec::lemma_le_value_of_bytes(r.payload.len(), 4);
    assert(f.subrange(pos, pos + 4) =~= codec::le_bytes(n as nat, 4));
    assert(body_at(f, pos, n as int) =~= body);
    assert(f.subrange(pos + n - 4, pos + n - 4 + 4) =~= codec::le_bytes(crc as nat, 4));
    assert(body.subrange(0, 8) =~= codec::le_bytes(r.cursor as nat, 8));
    assert(body.subrange(8, 16) =~= codec::le_bytes(r.ts_unix_nanos as nat, 8));
    assert(body.subrange(16, 20) =~= codec::le_bytes(r.payload.len(), 4));
    assert(body.subrange(20, body.len() as int) =~= r.payload);
}

/// A damaged record is noticed: if a byte of it behind the length is replaced, so that the
/// checksum of the bytes that it covers comes out different, or the stored checksum does,
/// reading it fails with the mismatch, and a scan ends in front of it.
pub proof fn law_damage_is_noticed(f: Seq<u8>, pos: int, at: int, byte: u8)
    requires
        0 <= pos <= u64::MAX,
        record_at(f, pos) matches Ok(Some((_, n))) && pos + 4 <= at < pos + n,
        f[at] != byte,
        ({
            let n = codec::le_at(f, pos, 4) as int;
            at < pos + n - 4 ==> checksum::crc32c_of(body_at(f.update(at, byte), pos, n))
                != checksum::crc32c_of(body_at(f, pos, n))
        }),
    ensures
        ({
            let d = f.update(at, byte);
            let n = codec::le_at(f, pos, 4) as int;
            let e = ReaderError::CrcMismatch {
                offset: pos as u64,
                stored: codec::le_at(d, pos + n - 4, 4) as u32,
                computed: checksum::crc32c_of(body_at(d, pos, n)),
            };
            &&& record_at(d, pos) == Err::<Option<(record::RecordView, nat)>, ReaderError>(e)
            &&& scan(d, pos) == (Scan { records: Seq::empty(), end: pos, error: Some(e) })
        }),
{
    let d = f.update(at, byte);
    let n = codec::le_at(f, pos, 4) as int;
    let sum = f.subrange(pos + n - 4, pos + n - 4 + 4);
    let sum_d = d.subrange(pos + n - 4, pos + n - 4 + 4);
    codec::lemma_pow256();
    codec::lemma_le_bytes_of_value(sum);
    codec::lemma_le_bytes_of_value(sum_d);
    assert(d.subrange(pos, pos + 4) =~= f.subrange(pos, pos + 4));
    if at < pos + n - 4 {
        assert(sum_d =~= sum);
    } else {
        assert(body_at(d, pos, n) =~= body_at(f, pos, n));
        assert(sum[at - (pos + n - 4)] != sum_d[at - (pos + n - 4)]);
        codec::lemma_le_value_differs(sum, sum_d);
    }
}

/// A segment that holds the encoded `rs` scans to exactly those records, with nothing
/// left over and no error.
pub proof fn law_scan_of_encoded(before: Seq<u8>, rs: Seq<record::RecordView>)
    requires
        payloads_fit(rs),
    ensures
        scan(before + encoded_records(rs), before.len() as int) == (Scan {
            records: rs,
            end: (before + encoded_records(rs)).len() as int,
            error: None,
        }),
    decreases rs.len(),
{
    let f = before + encoded_records(rs);
    if rs.len() == 0 {
        assert(f =~= before);
        assert(rs =~= Seq::empty());
    } else {
        let e = record::encoded_record(rs[0]);
        law_record_round_trip(before, rs[0], encoded_records(rs.skip(1)));
        record::lemma_sealed_record_len(
            rs[0],
            checksum::crc32c_of(record::record_body(rs[0])),
        );
        assert(f =~= before + e + encoded_records(rs.skip(1)));
        lemma_payloads_fit_skip(rs);
        law_scan_of_encoded(before + e, rs.skip(1));
        assert(f =~= (before + e) + encoded_records(rs.skip(1)));
        assert(seq![rs[0]] + rs.skip(1) =~= rs);
    }
}

/// A record that was read is read the same when the file is cut anywhere behind it.
proof fn lemma_record_at_prefix(f: Seq<u8>, pos: int, k: int)
    requires
        0 <= pos,
        k <= f.len(),
        record_at(f, pos) matches Ok(Some((r, n))) && pos + n <= k,
    ensures
        record_at(f.take(k), pos) == record_at(f, pos),
{
    let n = record_at(f, pos)->Ok_0->Some_0.1 as int;
    let g = f.take(k);
    assert(g.subrange(pos, pos + 4) =~= f.subrange(pos, pos + 4));
    assert(body_at(g, pos, n) =~= body_at(f, pos, n));
    assert(g.subrange(pos + n - 4, pos + n - 4 + 4) =~= f.subrange(pos + n - 4, pos + n - 4 + 4));
}

/// A scan ends inside the file, and never before where it began.
pub proof fn lemma_scan_end(f: Seq<u8>, pos: int)
    requires
        0 <= pos <= f.len(),
    ensures
        pos <= scan(f, pos).end <= f.len(),
        scan(f, pos).error is None <==> scan(f, pos).end == f.len(),
        scan(f, pos).records.len() == 0 <==> scan(f, pos).end == pos,
    decreases f.len() - pos,
{
    match record_at(f, pos) {
        Ok(Some((r, n))) => {
            lemma_scan_end(f, pos + n);
        },
        _ => {},
    }
}

/// Cutting a segment where its scan ended keeps every record before the cut and leaves
/// a segment that scans clean.
pub proof fn law_recovery_keeps_records(f: Seq<u8>, pos: int)
    requires
        0 <= pos <= f.len(),
    ensures
        scan(f.take(scan(f, pos).end), pos) == (Scan {
            records: scan(f, pos).records,
            end: scan(f, pos).end,
            error: None,
        }),
    decreases f.len() - pos,
{
    let end = scan(f, pos).end;
    lemma_scan_end(f, pos);
    match record_at(f, pos) {
        Ok(Some((r, n))) => {
            lemma_scan_end(f, pos + n);
            lemma_record_at_prefix(f, pos, end);
            law_recovery_keeps_records(f, pos + n);
        },
        _ => {},
    }
}

/// Recovery is idempotent: a second run on the truncated file drops nothing.
pub proof fn law_recovery_is_idempotent(f: Seq<u8>)
    requires
        SEGMENT_HEADER_LEN <= f.len() <= u64::MAX,
    ensures
        recovered(f.take(recovered(f).final_len as int)) == (RecoveryReport {
            final_len: recovered(f).final_len,
            bytes_dropped: 0,
            last_cursor: recovered(f).last_cursor,
        }),
{
    lemma_scan_end(f, SEGMENT_HEADER_LEN as int);
    law_recovery_keeps_records(f, SEGMENT_HEADER_LEN as int);
    let cut = f.take(recovered(f).final_len as int);
    assert(cut.subrange(16, 24) =~= f.subrange(16, 24));
}

/// How many of `rs` fit whole into `room` bytes.
pub open spec fn whole_records(rs: Seq<record::RecordView>, room: int) -> nat
    decreases rs.len(),
{
    if rs.len() == 0 || RECORD_FRAMING + rs[0].payload.len() > room {
        0
    } else {
        1 + whole_records(rs.skip(1), room - RECORD_FRAMING - rs[0].payload.len())
    }
}

/// A record that was cut short is not yielded.
proof fn lemma_torn_record(before: Seq<u8>, r: record::RecordView, after: Seq<u8>, k: int)
    requires
        r.payload.len() <= MAX_PAYLOAD_LEN,
        before.len() <= k < before.len() + RECORD_FRAMING + r.payload.len(),
    ensures
        !(record_at(
            (before + record::encoded_record(r) + after).take(k),
            before.len() as int,
        ) matches Ok(Some(_))),
{
    let full = before + record::encoded_record(r) + after;
    let pos = before.len() as int;
    law_record_round_trip(before, r, after);
    record::lemma_sealed_record_len(r, checksum::crc32c_of(record::record_body(r)));
    if k - pos >= 4 {
        assert(full.take(k).subrange(pos, pos + 4) =~= full.subrange(pos, pos + 4));
    }
    assert(!(frame_at(full.take(k), pos) matches Ok(Some(_))));
}

/// A segment torn at any byte behind its header keeps exactly the records that were
/// written whole.
#[verifier::spinoff_prover]
#[verifier::rlimit(40)]
pub proof fn law_torn_tail(before: Seq<u8>, rs: Seq<record::RecordView>, k: int)
    requires
        payloads_fit(rs),
        before.len() <= k <= (before + encoded_records(rs)).len(),
    ensures
        scan((before + encoded_records(rs)).take(k), before.len() as int).records == rs.take(
            whole_records(rs, k - before.len()) as int,
        ),
        whole_records(rs, k - before.len()) <= rs.len(),
    decreases rs.len(),
{
    let full = before + encoded_records(rs);
    let pos = before.len() as int;
    if rs.len() == 0 {
        assert(full.take(k) =~= before);
        assert(rs.take(0) =~= Seq::empty());
    } else {
        let e = record::encoded_record(rs[0]);
        let rest = encoded_records(rs.skip(1));
        let n = RECORD_FRAMING + rs[0].payload.len();
        assert(e.len() == n) by {
            record::lemma_sealed_record_len(
                rs[0],
                checksum::crc32c_of(record::record_body(rs[0])),
            );
        }
        assert(full =~= before + e + rest);
        lemma_payloads_fit_skip(rs);
        if pos + n <= k {
            assert(record_at(full.take(k), pos) == Ok::<
                Option<(record::RecordView, nat)>,
                ReaderError,
            >(Some((rs[0], n as nat)))) by {
                law_record_round_trip(before, rs[0], rest);
                lemma_record_at_prefix(full, pos, k);
            }
            assert(full =~= (before + e) + rest);
            law_torn_tail(before + e, rs.skip(1), k);
            let m = whole_records(rs.skip(1), k - pos - n);
            assert(scan(full.take(k), pos).records == seq![rs[0]] + scan(
                full.take(k),
                pos + n,
            ).records);
            assert(seq![rs[0]] + rs.skip(1).take(m as int) =~= rs.take(1 + m as int));
        } else {
            assert(rs.take(0) =~= Seq::empty());
            lemma_torn_record(before, rs[0], rest, k);
        }
    }
}

} // verus!
