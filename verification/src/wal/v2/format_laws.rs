//! How the log stands in mapped memory, byte by byte.

use crate::codec;
use crate::wal::checksum;
use crate::wal::record;
use crate::wal::record::SegmentHeaderError;
use crate::wal::v2::active;
use crate::wal::v2::mmap_segment_reader;
use crate::wal::v2::mmap_segment_reader::{OutcomeView, ReaderError};
use crate::wal::v2::mmap_segment_writer;
use crate::wal::v2::mmap_segment_writer::{Entry, WriterError};
use vstd::prelude::*;

verus! {

/// In memory a record is its padded length in four bytes, then its body and zeros up to that
/// length, and the checksum of both in the last four bytes. A marker is four bytes of ones.
pub proof fn law_record_is_padded_with_zeros(r: record::RecordView, i: int)
    requires
        r.payload.len() <= 16_777_188,
    ensures
        ({
            let b = mmap_segment_writer::padded_record(r);
            let n = mmap_segment_writer::padded_len(r);
            let end = 24 + r.payload.len() as int;
            &&& b.len() == n
            &&& codec::le_at(b, 0, 4) == n
            &&& b.subrange(4, end) == record::record_body(r)
            &&& end <= i < n - 4 ==> b[i] == 0
            &&& codec::le_at(b, n - 4, 4) == checksum::crc32c_of(b.subrange(4, n - 4))
            &&& b.skip(4) == mmap_segment_writer::record_tail(r)
            &&& mmap_segment_writer::entry_bytes(Entry::Record(r)) == b
            &&& mmap_segment_writer::entry_bytes(Entry::Skip).len() == 4
            &&& codec::le_value(mmap_segment_writer::entry_bytes(Entry::Skip)) == 0xFFFF_FFFF
        }),
{
    let b = mmap_segment_writer::padded_record(r);
    let n = mmap_segment_writer::padded_len(r);
    let end = 24 + r.payload.len() as int;
    mmap_segment_writer::lemma_padded_record_len(r);
    record::lemma_record_body_len(r);
    let body = mmap_segment_writer::padded_body(r);
    let crc = checksum::crc32c_of(body);
    codec::law_numbers_read_back(n as u32, 0);
    codec::law_numbers_read_back(crc, 0);
    codec::law_numbers_read_back(0xFFFF_FFFF, 0);
    assert(b.subrange(0, 4) =~= codec::le_bytes(n as nat, 4));
    assert(b.subrange(4, end) =~= record::record_body(r));
    assert(b.subrange(4, n - 4) =~= body);
    assert(b.subrange(n - 4, n) =~= codec::le_bytes(crc as nat, 4));
    assert(b.skip(4) =~= mmap_segment_writer::record_tail(r));
}

/// A segment in memory is its header with version 2 and the end of what was written, its
/// entries one behind the other, and zeros.
pub proof fn law_segment_is_its_entries(
    size: int,
    first_cursor: u64,
    log: Seq<Entry>,
    e: Entry,
    i: int,
)
    requires
        32 + mmap_segment_writer::entries_bytes(log).len() <= size <= u64::MAX,
    ensures
        ({
            let image = mmap_segment_writer::image_of(size, first_cursor, log);
            let end = 32 + mmap_segment_writer::entries_bytes(log).len() as int;
            &&& image.len() == size
            &&& image.take(32) == record::header_bytes(2, first_cursor, end as u64)
            &&& image.subrange(32, end) == mmap_segment_writer::entries_bytes(log)
            &&& end <= i < size ==> image[i] == 0
            &&& mmap_segment_writer::entries_bytes(Seq::empty()) == Seq::<u8>::empty()
            &&& mmap_segment_writer::entries_bytes(log.push(e))
                == mmap_segment_writer::entries_bytes(log) + mmap_segment_writer::entry_bytes(e)
        }),
{
    let image = mmap_segment_writer::image_of(size, first_cursor, log);
    let end = 32 + mmap_segment_writer::entries_bytes(log).len() as int;
    record::lemma_header_bytes(2, first_cursor, end as u64);
    mmap_segment_writer::lemma_entries_push(log, e);
    assert(image.take(32) =~= record::header_bytes(2, first_cursor, end as u64));
    assert(image.subrange(32, end) =~= mmap_segment_writer::entries_bytes(log));
}

/// A segment needs room for its header and the framing of one record: 60 bytes.
pub proof fn law_segment_needs_sixty_bytes(size: usize)
    ensures
        mmap_segment_writer::size_verdict(size) is Ok <==> size >= 60,
        size < 60 ==> mmap_segment_writer::size_verdict(size) == Err::<(), WriterError>(
            WriterError::SegmentTooSmall { segment_size: size, min: 60 },
        ),
{
}

/// A mapped segment is taken exactly when its header is whole and has the magic and version 2;
/// its first cursor is then the one at its place. Version 1 is told apart from those that are
/// not known.
pub proof fn law_header_is_read_by_its_bytes(mem: Seq<u8>)
    ensures
        ({
            let r = mmap_segment_reader::opened(mem);
            let magic = codec::le_at(mem, 0, 8);
            let version = codec::le_at(mem, 8, 4);
            let known = mem.len() >= 32 && magic == 0x6D6D_6275_7357_414C;
            &&& r is Ok <==> known && version == 2
            &&& r is Ok ==> r->Ok_0 == codec::le_at(mem, 16, 8) as u64
            &&& mem.len() < 32 ==> r == Err::<u64, ReaderError>(
                ReaderError::Header(SegmentHeaderError::Truncated(mem.len() as usize)),
            )
            &&& mem.len() >= 32 && !known ==> r == Err::<u64, ReaderError>(
                ReaderError::Header(SegmentHeaderError::BadMagic { got: magic as u64 }),
            )
            &&& known && version == 1 ==> r == Err::<u64, ReaderError>(
                ReaderError::LegacyV1Segment,
            )
            &&& known && version != 1 && version != 2 ==> r == Err::<u64, ReaderError>(
                ReaderError::Header(
                    SegmentHeaderError::UnsupportedVersion { got: version as u32 },
                ),
            )
        }),
{
}

/// What a reader finds at its place before it looks at a record: the end of the segment where
/// no length fits, nothing yet where nothing was written, where the length is still zero or
/// carries the writing bit, and the end behind a marker. The place moves only to the end.
pub proof fn law_reader_waits_or_ends(mem: Seq<u8>, pos: int)
    requires
        32 <= pos <= mem.len(),
    ensures
        ({
            let s = mmap_segment_reader::step(mem, pos);
            let tail = codec::le_at(mem, 24, 8) as u64;
            let raw = codec::le_at(mem, pos, 4) as u32;
            let size = mem.len() as int;
            &&& size - pos < 4 ==> s == (OutcomeView::EndOfSegment, pos)
            &&& size - pos >= 4 && pos >= tail ==> s == (OutcomeView::AwaitMore, pos)
            &&& size - pos >= 4 && pos < tail && (raw == 0 || 0x8000_0000 <= raw < 0xFFFF_FFFF)
                ==> s == (OutcomeView::AwaitMore, pos)
            &&& size - pos >= 4 && pos < tail && raw == 0xFFFF_FFFF ==> s == (
                OutcomeView::EndOfSegment,
                size,
            )
        }),
{
}

/// What a reader makes of a length that was committed: a length that no record has ends the
/// segment with an error. A payload that is longer than its record, or a checksum that does
/// not match, is an error that reading goes on behind. Otherwise the record is read from the
/// bytes at its place.
pub proof fn law_reader_goes_by_the_bytes(mem: Seq<u8>, pos: int)
    requires
        32 <= pos <= mem.len(),
        mem.len() - pos >= 4,
        pos < codec::le_at(mem, 24, 8) as u64,
        0 < codec::le_at(mem, pos, 4) < 0x8000_0000,
    ensures
        ({
            let s = mmap_segment_reader::step(mem, pos);
            let n = codec::le_at(mem, pos, 4) as int;
            let size = mem.len() as int;
            let offset = pos as usize;
            let record_len = n as usize;
            let payload_len = codec::le_at(mem, pos + 20, 4) as int;
            let stored = codec::le_at(mem, pos + n - 4, 4) as u32;
            let computed = checksum::crc32c_of(mem.subrange(pos + 4, pos + n - 4));
            let behind = pos + mmap_segment_writer::aligned(n);
            if n > 16_777_216 {
                s == (
                    OutcomeView::Failed(ReaderError::OversizeRecord { record_len, offset }),
                    size,
                )
            } else if n < 28 {
                s == (
                    OutcomeView::Failed(ReaderError::UndersizeRecord { record_len, offset }),
                    size,
                )
            } else if pos + n > size {
                s == (
                    OutcomeView::Failed(ReaderError::OversizeRecord { record_len, offset }),
                    size,
                )
            } else if 28 + payload_len > n {
                &&& s.0 == OutcomeView::Failed(ReaderError::OversizeRecord { record_len, offset })
                &&& s.1 == if behind > size {
                    size
                } else {
                    behind
                }
            } else if stored != computed {
                s == (
                    OutcomeView::Failed(ReaderError::CrcMismatch { offset, stored, computed }),
                    pos + n,
                )
            } else {
                s == (
                    OutcomeView::Record(
                        record::RecordView {
                            cursor: codec::le_at(mem, pos + 4, 8) as u64,
                            ts_unix_nanos: codec::le_at(mem, pos + 12, 8) as u64,
                            payload: mem.subrange(pos + 24, pos + 24 + payload_len),
                        },
                    ),
                    pos + n,
                )
            }
        }),
{
    lemma_fits_u32(mem, pos);
}

/// Four bytes are a `u32`.
proof fn lemma_fits_u32(mem: Seq<u8>, pos: int)
    requires
        0 <= pos,
        pos + 4 <= mem.len(),
    ensures
        codec::le_at(mem, pos, 4) <= u32::MAX,
{
    codec::lemma_pow256();
    codec::lemma_le_bytes_of_value(mem.subrange(pos, pos + 4));
}

/// A walk gives the records one after the other and ends with the first thing that is none.
pub proof fn law_walk_goes_record_by_record(mem: Seq<u8>, pos: int)
    requires
        32 <= pos <= mem.len(),
    ensures
        ({
            let w = mmap_segment_reader::walk(mem, pos);
            match mmap_segment_reader::step(mem, pos) {
                (OutcomeView::Record(r), next) => {
                    let rest = mmap_segment_reader::walk(mem, next);
                    w.0 == seq![r] + rest.0 && w.1 == rest.1
                },
                (o, _) => w.0.len() == 0 && w.1 == o,
            }
        }),
{
    reveal_with_fuel(mmap_segment_reader::walk, 2);
    mmap_segment_reader::lemma_step_advances(mem, pos);
}

/// The coordination file is the first cursor of the active segment and its count, in eight
/// bytes each; a shorter file says nothing, and bytes behind them are not looked at.
pub proof fn law_coordination_file_holds_two_numbers(first: u64, count: u64, bytes: Seq<u8>)
    ensures
        ({
            let b = active::coord_bytes(first, count);
            &&& b.len() == 16
            &&& codec::le_at(b, 0, 8) == first
            &&& codec::le_at(b, 8, 8) == count
            &&& active::coord_at(bytes) is Some <==> bytes.len() >= 16
            &&& bytes.len() >= 16 ==> active::coord_at(bytes) == Some(
                (codec::le_at(bytes, 0, 8) as u64, codec::le_at(bytes, 8, 8) as u64),
            )
        }),
{
    let b = active::coord_bytes(first, count);
    codec::law_numbers_read_back(0, first);
    codec::law_numbers_read_back(0, count);
    assert(b.subrange(0, 8) =~= codec::le_bytes(first as nat, 8));
    assert(b.subrange(8, 16) =~= codec::le_bytes(count as nat, 8));
}

/// A reader looks at its place only where a length fits and something was written.
pub proof fn law_reader_polls_the_tail(size: int, pos: int, tail: u64)
    ensures
        mmap_segment_reader::polled(size, pos, tail) is None <==> size - pos >= 4 && pos < tail,
        size - pos < 4 ==> mmap_segment_reader::polled(size, pos, tail) == Some(
            OutcomeView::EndOfSegment,
        ),
        size - pos >= 4 && pos >= tail ==> mmap_segment_reader::polled(size, pos, tail) == Some(
            OutcomeView::AwaitMore,
        ),
{
}

/// A record is refused when its payload is longer than it, or when the checksum that it carries
/// is not the one it is held to, and read from its bytes otherwise.
pub proof fn law_record_is_held_to_its_checksum(mem: Seq<u8>, pos: int, n: int, computed: u32)
    requires
        0 <= pos,
        28 <= n,
        pos + n <= mem.len(),
    ensures
        ({
            let r = mmap_segment_reader::body_verdict(mem, pos, n, computed);
            let payload_len = codec::le_at(mem, pos + 20, 4) as int;
            let stored = codec::le_at(mem, pos + n - 4, 4) as u32;
            let behind = pos + mmap_segment_writer::aligned(n);
            if 28 + payload_len > n {
                &&& r.0 == OutcomeView::Failed(
                    ReaderError::OversizeRecord { record_len: n as usize, offset: pos as usize },
                )
                &&& r.1 == if behind > mem.len() {
                    mem.len() as int
                } else {
                    behind
                }
            } else if stored != computed {
                r == (
                    OutcomeView::Failed(
                        ReaderError::CrcMismatch { offset: pos as usize, stored, computed },
                    ),
                    pos + n,
                )
            } else {
                r == (
                    OutcomeView::Record(
                        record::RecordView {
                            cursor: codec::le_at(mem, pos + 4, 8) as u64,
                            ts_unix_nanos: codec::le_at(mem, pos + 12, 8) as u64,
                            payload: mem.subrange(pos + 24, pos + 24 + payload_len),
                        },
                    ),
                    pos + n,
                )
            }
        }),
{
}

/// The numbers of the format over mapped memory.
pub proof fn law_numbers_of_mapped_segments()
    ensures
        mmap_segment_writer::SEGMENT_VERSION_V2 == 2,
        mmap_segment_writer::WRITING_BIT_U32 == 0x8000_0000,
        mmap_segment_writer::TAIL_OFFSET == 24,
        mmap_segment_reader::SKIP_TO_END_SENTINEL == 0xFFFF_FFFF,
        active::ACTIVE_COORD_LEN == 16,
        active::ACTIVE_COORD_FILENAME@ == "active.dat"@,
        crate::wal::v2::rotation::NAME_DIGITS == 20,
{
}

} // verus!
