//! WAL on-disk record and segment-header layout. All multi-byte fields are
//! little-endian.

use crate::codec;
use crate::wal::checksum;
use crate::wal::clock::unix_nanos;
use vstd::prelude::*;

verus! {

/// Segment header magic: `"mmbusWAL"` packed as a little-endian `u64`.
pub const SEGMENT_MAGIC: u64 = 0x6D6D_6275_7357_414C;

/// Current segment-format version.
pub const SEGMENT_VERSION: u32 = 1;

/// Bytes occupied by the segment header.
pub const SEGMENT_HEADER_LEN: usize = 32;

/// Fixed per-record overhead on disk:
/// `u32 record_len + u64 cursor + u64 ts + u32 payload_len + u32 crc`.
pub const RECORD_FRAMING: usize = 28;

/// Hard cap on `record_len`.
pub const MAX_RECORD_LEN: usize = 16 * 1024 * 1024;

/// Cap on the payload size itself.
pub const MAX_PAYLOAD_LEN: usize = MAX_RECORD_LEN - RECORD_FRAMING;

/// One WAL record.
#[derive(Debug, Clone, PartialEq, Eq)]
pub struct Record {
    pub cursor: u64,
    pub ts_unix_nanos: u64,
    pub payload: Vec<u8>,
}

/// What a [`Record`] stands for.
#[verifier::ext_equal]
pub struct RecordView {
    pub cursor: u64,
    pub ts_unix_nanos: u64,
    pub payload: Seq<u8>,
}

impl View for Record {
    type V = RecordView;

    open spec fn view(&self) -> RecordView {
        RecordView {
            cursor: self.cursor,
            ts_unix_nanos: self.ts_unix_nanos,
            payload: self.payload@,
        }
    }
}

/// The bytes that the checksum covers: cursor, timestamp, payload length, payload.
pub open spec fn record_body(r: RecordView) -> Seq<u8> {
    codec::le_bytes(r.cursor as nat, 8) + codec::le_bytes(r.ts_unix_nanos as nat, 8) + codec::le_bytes(
        r.payload.len(),
        4,
    ) + r.payload
}

/// A record whose checksum field holds `crc`.
pub open spec fn sealed_record(r: RecordView, crc: u32) -> Seq<u8> {
    codec::le_bytes(RECORD_FRAMING as nat + r.payload.len(), 4) + record_body(r) + codec::le_bytes(crc as nat, 4)
}

/// A record as it stands on disk.
pub open spec fn encoded_record(r: RecordView) -> Seq<u8> {
    sealed_record(r, checksum::crc32c_of(record_body(r)))
}

pub proof fn lemma_record_body_len(r: RecordView)
    ensures
        record_body(r).len() == 20 + r.payload.len(),
{
    codec::lemma_le_bytes_len(r.cursor as nat, 8);
    codec::lemma_le_bytes_len(r.ts_unix_nanos as nat, 8);
    codec::lemma_le_bytes_len(r.payload.len(), 4);
}

pub proof fn lemma_sealed_record_len(r: RecordView, crc: u32)
    ensures
        sealed_record(r, crc).len() == RECORD_FRAMING + r.payload.len(),
{
    lemma_record_body_len(r);
    codec::lemma_le_bytes_len(RECORD_FRAMING as nat + r.payload.len(), 4);
    codec::lemma_le_bytes_len(crc as nat, 4);
}

impl Record {
    /// On-disk size of this record, with the `record_len` prefix and the trailing CRC.
    pub fn encoded_len(&self) -> (n: usize)
        requires
            RECORD_FRAMING + self.payload@.len() <= usize::MAX,
        ensures
            n == RECORD_FRAMING + self.payload@.len(),
            self.payload@.len() <= MAX_PAYLOAD_LEN ==> n == encoded_record(self@).len(),
    {
        proof {
            lemma_sealed_record_len(self@, checksum::crc32c_of(record_body(self@)));
        }
        RECORD_FRAMING + self.payload.len()
    }

    /// Appends the bytes that the checksum covers.
    pub(crate) fn push_body(&self, out: &mut Vec<u8>)
        requires
            self.payload@.len() <= MAX_PAYLOAD_LEN,
        ensures
            final(out)@ == old(out)@ + record_body(self@),
    {
        let ghost before = out@;
        codec::push_u64(out, self.cursor);
        codec::push_u64(out, self.ts_unix_nanos);
        codec::push_u32(out, self.payload.len() as u32);
        codec::push_bytes(out, self.payload.as_slice());
        assert(out@ =~= before + record_body(self@));
    }

    /// Appends the record with `crc` in its checksum field.
    pub fn seal_into(&self, crc: u32, out: &mut Vec<u8>)
        requires
            self.payload@.len() <= MAX_PAYLOAD_LEN,
        ensures
            final(out)@ == old(out)@ + sealed_record(self@, crc),
    {
        let ghost before = out@;
        codec::push_u32(out, (RECORD_FRAMING + self.payload.len()) as u32);
        self.push_body(out);
        codec::push_u32(out, crc);
        assert(out@ =~= before + sealed_record(self@, crc));
    }

    /// Appends the encoded record bytes to `out`. The CRC is computed over the cursor,
    /// the timestamp, the payload length and the payload.
    pub fn encode_into(&self, out: &mut Vec<u8>)
        requires
            self.payload@.len() <= MAX_PAYLOAD_LEN,
        ensures
            final(out)@ == old(out)@ + encoded_record(self@),
    {
        let mut body: Vec<u8> = Vec::new();
        self.push_body(&mut body);
        assert(body@ =~= record_body(self@));
        let crc: u32 = crc32c::crc32c(body.as_slice());
        self.seal_into(crc, out);
    }
}

/// A segment header: magic, version, four reserved zero bytes, the first cursor and
/// one more `u64`.
pub open spec fn header_bytes(version: u32, first_cursor: u64, last: u64) -> Seq<u8> {
    codec::le_bytes(SEGMENT_MAGIC as nat, 8) + codec::le_bytes(version as nat, 4) + codec::le_bytes(0, 4) + codec::le_bytes(
        first_cursor as nat,
        8,
    ) + codec::le_bytes(last as nat, 8)
}

/// Where the fields of a header stand.
pub proof fn lemma_header_bytes(version: u32, first_cursor: u64, last: u64)
    ensures
        header_bytes(version, first_cursor, last).len() == SEGMENT_HEADER_LEN,
        codec::le_at(header_bytes(version, first_cursor, last), 0, 8) == SEGMENT_MAGIC,
        codec::le_at(header_bytes(version, first_cursor, last), 8, 4) == version,
        codec::le_at(header_bytes(version, first_cursor, last), 16, 8) == first_cursor,
        codec::le_at(header_bytes(version, first_cursor, last), 24, 8) == last,
{
    let h = header_bytes(version, first_cursor, last);
    codec::lemma_pow256();
    codec::lemma_le_value_of_bytes(SEGMENT_MAGIC as nat, 8);
    codec::lemma_le_value_of_bytes(version as nat, 4);
    codec::lemma_le_value_of_bytes(0, 4);
    codec::lemma_le_value_of_bytes(first_cursor as nat, 8);
    codec::lemma_le_value_of_bytes(last as nat, 8);
    assert(h.subrange(0, 8) =~= codec::le_bytes(SEGMENT_MAGIC as nat, 8));
    assert(h.subrange(8, 12) =~= codec::le_bytes(version as nat, 4));
    assert(h.subrange(16, 24) =~= codec::le_bytes(first_cursor as nat, 8));
    assert(h.subrange(24, 32) =~= codec::le_bytes(last as nat, 8));
}

/// Builds a 32-byte segment header.
pub fn build_header(version: u32, first_cursor: u64, last: u64) -> (b: Vec<u8>)
    ensures
        b@ == header_bytes(version, first_cursor, last),
{
    let mut b: Vec<u8> = Vec::new();
    codec::push_u64(&mut b, SEGMENT_MAGIC);
    codec::push_u32(&mut b, version);
    codec::push_u32(&mut b, 0);
    codec::push_u64(&mut b, first_cursor);
    codec::push_u64(&mut b, last);
    assert(b@ =~= header_bytes(version, first_cursor, last));
    b
}

/// The 32-byte header of a segment whose first record carries `first_cursor`, created
/// at `created_unix_nanos`.
pub fn encode_segment_header_at(first_cursor: u64, created_unix_nanos: u64) -> (b:
    [u8; SEGMENT_HEADER_LEN])
    ensures
        b@ == header_bytes(SEGMENT_VERSION, first_cursor, created_unix_nanos),
{
    let v: Vec<u8> = build_header(SEGMENT_VERSION, first_cursor, created_unix_nanos);
    proof {
        lemma_header_bytes(SEGMENT_VERSION, first_cursor, created_unix_nanos);
    }
    let mut b: [u8; SEGMENT_HEADER_LEN] = [0u8; SEGMENT_HEADER_LEN];
    let mut i: usize = 0;
    while i < SEGMENT_HEADER_LEN
        invariant
            i <= SEGMENT_HEADER_LEN,
            v@.len() == SEGMENT_HEADER_LEN,
            forall|j: int| 0 <= j < i ==> b@[j] == v@[j],
        decreases SEGMENT_HEADER_LEN - i,
    {
        b[i] = v[i];
        i = i + 1;
    }
    assert(b@ =~= v@);
    b
}

/// The 32-byte header of a fresh segment whose first record carries `first_cursor`.
/// The creation time is captured at call time.
pub fn encode_segment_header(first_cursor: u64) -> (b: [u8; SEGMENT_HEADER_LEN])
    ensures
        exists|created: u64| b@ == #[trigger] header_bytes(SEGMENT_VERSION, first_cursor, created),
{
    let created: u64 = unix_nanos();
    encode_segment_header_at(first_cursor, created)
}

/// Parsed segment header.
#[derive(Debug, Clone, Copy, PartialEq, Eq, Structural)]
pub struct SegmentHeader {
    pub first_cursor: u64,
    pub created_unix_nanos: u64,
}

/// Errors that can surface while parsing the header.
#[derive(Debug, Clone, Copy, PartialEq, Eq, Structural)]
pub enum SegmentHeaderError {
    BadMagic { got: u64 },
    UnsupportedVersion { got: u32 },
    Truncated(usize),
}

/// The header at the start of `b`.
pub open spec fn parsed_header(b: Seq<u8>) -> Result<SegmentHeader, SegmentHeaderError> {
    if b.len() < SEGMENT_HEADER_LEN {
        Err(SegmentHeaderError::Truncated(b.len() as usize))
    } else if codec::le_at(b, 0, 8) != SEGMENT_MAGIC {
        Err(SegmentHeaderError::BadMagic { got: codec::le_at(b, 0, 8) as u64 })
    } else if codec::le_at(b, 8, 4) != SEGMENT_VERSION {
        Err(SegmentHeaderError::UnsupportedVersion { got: codec::le_at(b, 8, 4) as u32 })
    } else {
        Ok(
            SegmentHeader {
                first_cursor: codec::le_at(b, 16, 8) as u64,
                created_unix_nanos: codec::le_at(b, 24, 8) as u64,
            },
        )
    }
}

impl SegmentHeader {
    /// Parses the header at the start of `bytes`.
    pub fn parse(bytes: &[u8]) -> (r: Result<SegmentHeader, SegmentHeaderError>)
        ensures
            r == parsed_header(bytes@),
    {
        if bytes.len() < SEGMENT_HEADER_LEN {
            return Err(SegmentHeaderError::Truncated(bytes.len()));
        }
        let magic: u64 = codec::read_u64(bytes, 0);
        if magic != SEGMENT_MAGIC {
            return Err(SegmentHeaderError::BadMagic { got: magic });
        }
        let version: u32 = codec::read_u32(bytes, 8);
        if version != SEGMENT_VERSION {
            return Err(SegmentHeaderError::UnsupportedVersion { got: version });
        }
        let first_cursor: u64 = codec::read_u64(bytes, 16);
        let created_unix_nanos: u64 = codec::read_u64(bytes, 24);
        Ok(SegmentHeader { first_cursor, created_unix_nanos })
    }
}

/// A header that was built for a segment parses back to its fields, whatever follows it.
pub proof fn law_header_round_trip(first_cursor: u64, created: u64, rest: Seq<u8>)
    ensures
        parsed_header(header_bytes(SEGMENT_VERSION, first_cursor, created) + rest) == Ok::<
            SegmentHeader,
            SegmentHeaderError,
        >(SegmentHeader { first_cursor, created_unix_nanos: created }),
{
    let h = header_bytes(SEGMENT_VERSION, first_cursor, created);
    lemma_header_bytes(SEGMENT_VERSION, first_cursor, created);
    let b = h + rest;
    assert(b.subrange(0, 8) =~= h.subrange(0, 8));
    assert(b.subrange(8, 12) =~= h.subrange(8, 12));
    assert(b.subrange(16, 24) =~= h.subrange(16, 24));
    assert(b.subrange(24, 32) =~= h.subrange(24, 32));
}

} // verus!
