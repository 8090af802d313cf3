//! How the log stands in its files, byte by byte.

use crate::codec;
use crate::wal::checksum;
use crate::wal::record;
use crate::wal::record::{Record, SegmentHeader, SegmentHeaderError};
use crate::wal::segment_reader;
use crate::wal::segment_reader::ReaderError;
use vstd::prelude::*;

verus! {

/// Behind its checksum a record is its cursor, its time and the length of its payload, in
/// eight, eight and four bytes, and then the payload.
pub proof fn law_body_holds_the_record(r: record::RecordView)
    requires
        r.payload.len() <= u32::MAX,
    ensures
        ({
            let b = record::record_body(r);
            &&& b.len() == 20 + r.payload.len()
            &&& codec::le_at(b, 0, 8) == r.cursor
            &&& codec::le_at(b, 8, 8) == r.ts_unix_nanos
            &&& codec::le_at(b, 16, 4) == r.payload.len()
            &&& b.skip(20) == r.payload
        }),
{
    let b = record::record_body(r);
    codec::law_numbers_read_back(r.payload.len() as u32, r.cursor);
    codec::law_numbers_read_back(0, r.ts_unix_nanos);
    assert(b.subrange(0, 8) =~= codec::le_bytes(r.cursor as nat, 8));
    assert(b.subrange(8, 16) =~= codec::le_bytes(r.ts_unix_nanos as nat, 8));
    assert(b.subrange(16, 20) =~= codec::le_bytes(r.payload.len(), 4));
    assert(b.skip(20) =~= r.payload);
}

/// On disk a record is its whole length in four bytes, what the checksum covers, and the
/// checksum in four bytes.
pub proof fn law_record_is_framed(r: record::RecordView, crc: u32)
    requires
        r.payload.len() <= 16_777_188,
    ensures
        ({
            let b = record::sealed_record(r, crc);
            let n = 28 + r.payload.len() as int;
            &&& b.len() == n
            &&& codec::le_at(b, 0, 4) == n
            &&& b.subrange(4, n - 4) == record::record_body(r)
            &&& codec::le_at(b, n - 4, 4) == crc
            &&& record::encoded_record(r) == record::sealed_record(
                r,
                checksum::crc32c_of(record::record_body(r)),
            )
        }),
{
    let b = record::sealed_record(r, crc);
    let n = 28 + r.payload.len() as int;
    law_body_holds_the_record(r);
    codec::law_numbers_read_back(n as u32, 0);
    codec::law_numbers_read_back(crc, 0);
    assert(b.subrange(0, 4) =~= codec::le_bytes(n as nat, 4));
    assert(b.subrange(4, n - 4) =~= record::record_body(r));
    assert(b.subrange(n - 4, n) =~= codec::le_bytes(crc as nat, 4));
}

/// A segment starts with its magic, its version, four zeros, its first cursor and one more
/// number.
pub proof fn law_header_holds_its_fields(version: u32, first_cursor: u64, last: u64)
    ensures
        ({
            let b = record::header_bytes(version, first_cursor, last);
            &&& b.len() == 32
            &&& codec::le_at(b, 0, 8) == 0x6D6D_6275_7357_414C
            &&& codec::le_at(b, 8, 4) == version
            &&& codec::le_at(b, 12, 4) == 0
            &&& codec::le_at(b, 16, 8) == first_cursor
            &&& codec::le_at(b, 24, 8) == last
        }),
{
    let b = record::header_bytes(version, first_cursor, last);
    codec::law_numbers_read_back(version, 0x6D6D_6275_7357_414C);
    codec::law_numbers_read_back(0, first_cursor);
    codec::law_numbers_read_back(0, last);
    assert(b.subrange(0, 8) =~= codec::le_bytes(0x6D6D_6275_7357_414Cnat, 8));
    assert(b.subrange(8, 12) =~= codec::le_bytes(version as nat, 4));
    assert(b.subrange(12, 16) =~= codec::le_bytes(0, 4));
    assert(b.subrange(16, 24) =~= codec::le_bytes(first_cursor as nat, 8));
    assert(b.subrange(24, 32) =~= codec::le_bytes(last as nat, 8));
}

/// A header is taken exactly when it is whole and has the magic and version 1; its fields are
/// then those at their places, and otherwise the error names what is wrong first.
pub proof fn law_header_is_read_by_its_bytes(b: Seq<u8>)
    ensures
        ({
            let h = record::parsed_header(b);
            let magic = codec::le_at(b, 0, 8);
            let version = codec::le_at(b, 8, 4);
            &&& h is Ok <==> b.len() >= 32 && magic == 0x6D6D_6275_7357_414C && version == 1
            &&& h is Ok ==> h->Ok_0 == (SegmentHeader {
                first_cursor: codec::le_at(b, 16, 8) as u64,
                created_unix_nanos: codec::le_at(b, 24, 8) as u64,
            })
            &&& b.len() < 32 ==> h == Err::<SegmentHeader, SegmentHeaderError>(
                SegmentHeaderError::Truncated(b.len() as usize),
            )
            &&& b.len() >= 32 && magic != 0x6D6D_6275_7357_414C ==> h == Err::<
                SegmentHeader,
                SegmentHeaderError,
            >(SegmentHeaderError::BadMagic { got: magic as u64 })
            &&& b.len() >= 32 && magic == 0x6D6D_6275_7357_414C && version != 1 ==> h == Err::<
                SegmentHeader,
                SegmentHeaderError,
            >(SegmentHeaderError::UnsupportedVersion { got: version as u32 })
        }),
{
}

/// What is read at a place of a segment goes by the bytes there alone: nothing at its end, a
/// short read where bytes are missing, a refused length, a checksum that does not match, or
/// the record.
pub proof fn law_record_is_read_by_its_bytes(f: Seq<u8>, pos: int)
    requires
        0 <= pos,
    ensures
        ({
            let r = segment_reader::record_at(f, pos);
            let left = f.len() - pos;
            let n = codec::le_at(f, pos, 4) as int;
            let stored = codec::le_at(f, pos + n - 4, 4) as u32;
            let computed = checksum::crc32c_of(f.subrange(pos + 4, pos + n - 4));
            let offset = pos as u64;
            if left <= 0 {
                r == Ok::<Option<(record::RecordView, nat)>, ReaderError>(None)
            } else if left < 4 {
                r == Err::<Option<(record::RecordView, nat)>, ReaderError>(
                    ReaderError::ShortRead { offset, needed: (4 - left) as u64 },
                )
            } else if n < 28 || n > 16_777_216 {
                r == Err::<Option<(record::RecordView, nat)>, ReaderError>(
                    ReaderError::OversizeRecord { record_len: n as usize },
                )
            } else if left < n {
                r == Err::<Option<(record::RecordView, nat)>, ReaderError>(
                    ReaderError::ShortRead { offset, needed: (n - left) as u64 },
                )
            } else if stored != computed {
                r == Err::<Option<(record::RecordView, nat)>, ReaderError>(
                    ReaderError::CrcMismatch { offset, stored, computed },
                )
            } else if codec::le_at(f, pos + 20, 4) + 28 != n {
                r == Err::<Option<(record::RecordView, nat)>, ReaderError>(
                    ReaderError::OversizeRecord { record_len: n as usize },
                )
            } else {
                r == Ok::<Option<(record::RecordView, nat)>, ReaderError>(
                    Some(
                        (
                            record::RecordView {
                                cursor: codec::le_at(f, pos + 4, 8) as u64,
                                ts_unix_nanos: codec::le_at(f, pos + 12, 8) as u64,
                                payload: f.subrange(pos + 24, pos + n - 4),
                            },
                            n as nat,
                        ),
                    ),
                )
            }
        }),
{
    let n = codec::le_at(f, pos, 4) as int;
    if f.len() - pos >= 4 && 28 <= n <= 16_777_216 && n <= f.len() - pos {
        let body = segment_reader::body_at(f, pos, n);
        assert(body.subrange(0, 8) =~= f.subrange(pos + 4, pos + 12));
        assert(body.subrange(8, 16) =~= f.subrange(pos + 12, pos + 20));
        assert(body.subrange(16, 20) =~= f.subrange(pos + 20, pos + 24));
        assert(body.subrange(20, body.len() as int) =~= f.subrange(pos + 24, pos + n - 4));
    }
}

/// A scan reads one record after the other, and stops at the end or at the first that cannot
/// be read.
pub proof fn law_scan_goes_record_by_record(f: Seq<u8>, pos: int)
    requires
        0 <= pos <= f.len(),
    ensures
        ({
            let s = segment_reader::scan(f, pos);
            match segment_reader::record_at(f, pos) {
                Err(e) => s.records.len() == 0 && s.end == pos && s.error == Some(e),
                Ok(None) => s.records.len() == 0 && s.end == pos && s.error is None,
                Ok(Some((r, n))) => {
                    let rest = segment_reader::scan(f, pos + n);
                    &&& s.records == seq![r] + rest.records
                    &&& s.end == rest.end
                    &&& s.error == rest.error
                },
            }
        }),
{
    reveal_with_fuel(segment_reader::scan, 2);
}

/// Recovery keeps what a scan from behind the header reads and drops the rest. Its last cursor
/// is that of the last record; without one it is the cursor before the first of the segment,
/// if there is any.
pub proof fn law_recovery_reports_the_scan(f: Seq<u8>)
    requires
        32 <= f.len() <= u64::MAX,
    ensures
        ({
            let s = segment_reader::scan(f, 32);
            let r = segment_reader::recovered(f);
            let first = codec::le_at(f, 16, 8) as u64;
            &&& r.final_len == s.end
            &&& r.final_len + r.bytes_dropped == f.len()
            &&& s.records.len() > 0 ==> r.last_cursor == Some(s.records.last().cursor)
            &&& s.records.len() == 0 && first > 0 ==> r.last_cursor == Some((first - 1) as u64)
            &&& s.records.len() == 0 && first == 0 ==> r.last_cursor is None
            &&& segment_reader::highest_of(s.records) is Some <==> s.records.len() > 0
            &&& s.records.len() > 0 ==> segment_reader::highest_of(s.records) == Some(
                s.records.last().cursor,
            )
        }),
{
    segment_reader::lemma_scan_end(f, 32);
}

/// Records are written one behind the other.
pub proof fn law_records_stand_in_order(rs: Seq<record::RecordView>, r: record::RecordView)
    ensures
        segment_reader::encoded_records(Seq::empty()) == Seq::<u8>::empty(),
        segment_reader::encoded_records(rs.push(r)) == segment_reader::encoded_records(rs)
            + record::encoded_record(r),
{
    crate::wal::segment_writer::lemma_encoded_push(rs, r);
}

/// A frame is found by the length at its place alone, before anything is checked.
pub proof fn law_frame_goes_by_its_length(f: Seq<u8>, pos: int)
    requires
        0 <= pos,
    ensures
        ({
            let r = segment_reader::frame_at(f, pos);
            let left = f.len() - pos;
            let n = codec::le_at(f, pos, 4);
            if left <= 0 {
                r == Ok::<Option<nat>, ReaderError>(None)
            } else if left < 4 {
                r == Err::<Option<nat>, ReaderError>(
                    ReaderError::ShortRead { offset: pos as u64, needed: (4 - left) as u64 },
                )
            } else if n < 28 || n > 16_777_216 {
                r == Err::<Option<nat>, ReaderError>(
                    ReaderError::OversizeRecord { record_len: n as usize },
                )
            } else if left < n {
                r == Err::<Option<nat>, ReaderError>(
                    ReaderError::ShortRead { offset: pos as u64, needed: (n - left) as u64 },
                )
            } else {
                r == Ok::<Option<nat>, ReaderError>(Some(n))
            }
        }),
{
}

/// A record is refused when the checksum that it carries is not the one it is held to, or when
/// its lengths do not agree, and read from its bytes otherwise.
pub proof fn law_record_is_held_to_its_checksum(f: Seq<u8>, pos: int, n: int, computed: u32)
    requires
        0 <= pos,
        28 <= n,
        pos + n <= f.len(),
    ensures
        ({
            let r = segment_reader::checked_record(f, pos, n, computed);
            let stored = codec::le_at(f, pos + n - 4, 4) as u32;
            let agree = codec::le_at(f, pos + 20, 4) + 28 == n;
            &&& r is Ok <==> stored == computed && agree
            &&& stored != computed ==> r == Err::<record::RecordView, ReaderError>(
                ReaderError::CrcMismatch { offset: pos as u64, stored, computed },
            )
            &&& stored == computed && !agree ==> r == Err::<record::RecordView, ReaderError>(
                ReaderError::OversizeRecord { record_len: n as usize },
            )
            &&& r is Ok ==> r->Ok_0 == (record::RecordView {
                cursor: codec::le_at(f, pos + 4, 8) as u64,
                ts_unix_nanos: codec::le_at(f, pos + 12, 8) as u64,
                payload: f.subrange(pos + 24, pos + n - 4),
            })
        }),
{
    let body = segment_reader::body_at(f, pos, n);
    assert(body.subrange(0, 8) =~= f.subrange(pos + 4, pos + 12));
    assert(body.subrange(8, 16) =~= f.subrange(pos + 12, pos + 20));
    assert(body.subrange(16, 20) =~= f.subrange(pos + 20, pos + 24));
    assert(body.subrange(20, body.len() as int) =~= f.subrange(pos + 24, pos + n - 4));
}

/// A reader gives what stands at its place and moves behind it; at the end it gives nothing and
/// stays. What cannot be read halts it, and a reader that is halted gives nothing any more.
pub proof fn law_reader_moves_behind_what_it_gives(
    r: Option<Result<Record, ReaderError>>,
    f: Seq<u8>,
    pos: int,
    halted: bool,
    pos2: int,
    halted2: bool,
)
    requires
        segment_reader::yielded(r, f, pos, halted, pos2, halted2),
    ensures
        halted ==> r is None && pos2 == pos && halted2,
        !halted ==> match segment_reader::record_at(f, pos) {
            Ok(None) => r is None && pos2 == pos && !halted2,
            Ok(Some((rec, n))) => r is Some && r->Some_0 is Ok && r->Some_0->Ok_0@ == rec && pos2
                == pos + n && !halted2,
            Err(e) => r == Some(Err::<Record, ReaderError>(e)) && pos2 == pos && halted2,
        },
{
}

/// What is decoded is what stands there: the record and its length, nothing, or the error.
pub proof fn law_decoding_gives_what_stands_there(
    got: Result<Option<(Record, u64)>, ReaderError>,
    want: Result<Option<(record::RecordView, nat)>, ReaderError>,
)
    requires
        segment_reader::decoded_as(got, want),
    ensures
        got is Ok <==> want is Ok,
        want is Err ==> got->Err_0 == want->Err_0,
        want is Ok ==> (got->Ok_0 is Some <==> want->Ok_0 is Some),
        want is Ok && want->Ok_0 is Some ==> got->Ok_0->Some_0.0@ == want->Ok_0->Some_0.0
            && got->Ok_0->Some_0.1 == want->Ok_0->Some_0.1,
{
}

/// The numbers of the format, and the longest nap between two looks at the log.
pub proof fn law_numbers_of_the_log()
    ensures
        record::SEGMENT_MAGIC == 0x6D6D_6275_7357_414C,
        record::SEGMENT_VERSION == 1,
        record::SEGMENT_HEADER_LEN == 32,
        record::RECORD_FRAMING == 28,
        record::MAX_RECORD_LEN == 16_777_216,
        record::MAX_PAYLOAD_LEN == 16_777_188,
        crate::wal::flusher::MAX_NAP == 50_000_000,
{
}

} // verus!
