use mmbus::error::IoKind;
use mmbus::wal::record::{
    Record, SegmentHeader, SegmentHeaderError, MAX_PAYLOAD_LEN, MAX_RECORD_LEN, RECORD_FRAMING,
    SEGMENT_HEADER_LEN, SEGMENT_MAGIC,
};
use mmbus::wal::v2::active::{peek, ActiveCoord, ACTIVE_COORD_LEN};
use mmbus::wal::v2::mmap_segment_reader::{
    check_body, MmapSegmentReader, ReadOutcome, ReaderError, SKIP_TO_END_SENTINEL,
};
use mmbus::wal::v2::mmap_segment_writer::{
    align_record_len, AppendOutcome, MmapSegmentWriter, WriterError, SEGMENT_VERSION_V2,
    TAIL_OFFSET, WRITING_BIT_U32,
};
use mmbus::wal::v2::rotation::{
    newest_segment, parse_segment_name, rotate, segment_file_name, segment_path, RotateError,
    RotateIo,
};
use std::collections::BTreeMap;

const DONE: RotateIo = RotateIo { created: Ok(()), published: Ok(()) };

/// A segment in memory, and its writer.
struct Segment {
    mem: Vec<u8>,
    writer: MmapSegmentWriter,
}

impl Segment {
    fn create(size: usize, first_cursor: u64) -> Segment {
        let writer = MmapSegmentWriter::create(size, first_cursor, Ok(())).unwrap();
        Segment::around(writer)
    }

    fn around(writer: MmapSegmentWriter) -> Segment {
        let mut mem = vec![0u8; writer.segment_size()];
        mem[..SEGMENT_HEADER_LEN].copy_from_slice(&writer.header());
        Segment { mem, writer }
    }

    fn append(&mut self, cursor: u64, ts: u64, payload: &[u8]) -> Result<AppendOutcome, WriterError> {
        let outcome = self.writer.append(cursor, ts, payload)?;
        if let AppendOutcome::Appended { write, .. } = &outcome {
            write.apply(&mut self.mem);
        }
        Ok(outcome)
    }

    fn write_skip_to_end(&mut self) -> bool {
        match self.writer.write_skip_to_end().unwrap() {
            Some(marker) => {
                marker.apply(&mut self.mem);
                true
            }
            None => false,
        }
    }

    /// Closes the segment and starts the next one.
    fn rotate(&mut self, active: &mut ActiveCoord, first: u64, size: usize) -> Segment {
        if let Some(marker) = self.writer.skip_marker() {
            marker.apply(&mut self.mem);
        }
        Segment::around(rotate(&mut self.writer, active, first, size, DONE).unwrap())
    }
}

fn write_records(records: &[(u64, &[u8])]) -> Vec<u8> {
    let mut s = Segment::create(4096, records.first().map(|(c, _)| *c).unwrap_or(0));
    for (c, p) in records {
        match s.append(*c, 0, p).unwrap() {
            AppendOutcome::Appended { .. } => (),
            other => panic!("write_records: unexpected outcome {other:?}"),
        }
    }
    s.mem
}

fn appended(outcome: AppendOutcome) -> (u64, u64) {
    match outcome {
        AppendOutcome::Appended { byte_offset, next_cursor, .. } => (byte_offset, next_cursor),
        AppendOutcome::SegmentFull => panic!("expected room for the record"),
    }
}

#[test]
fn open_validates_v2_header() {
    let s = Segment::create(4096, 42);
    let r = MmapSegmentReader::open(Ok(&s.mem)).unwrap();
    assert_eq!(r.first_cursor(), 42);
    assert_eq!(r.segment_size(), 4096);
    assert_eq!(r.tail(&s.mem), SEGMENT_HEADER_LEN as u64);
}

#[test]
fn open_rejects_legacy_v1_segment() {
    // A minimal segment of the file-backed format, by hand.
    let mut bytes = vec![0u8; SEGMENT_HEADER_LEN];
    bytes[0..8].copy_from_slice(&SEGMENT_MAGIC.to_le_bytes());
    bytes[8..12].copy_from_slice(&1u32.to_le_bytes()); // version 1
    match MmapSegmentReader::open(Ok(&bytes)) {
        Err(ReaderError::LegacyV1Segment) => (),
        Err(e) => panic!("expected LegacyV1Segment, got Err({e:?})"),
        Ok(_) => panic!("expected LegacyV1Segment, got Ok(reader)"),
    }
}

#[test]
fn mmap_segment_reader_open_rejects_bad_magic() {
    let mut bytes = vec![0u8; SEGMENT_HEADER_LEN];
    bytes[0..8].copy_from_slice(&0xDEAD_BEEF_DEAD_BEEFu64.to_le_bytes());
    match MmapSegmentReader::open(Ok(&bytes)) {
        Err(ReaderError::Header(SegmentHeaderError::BadMagic { .. })) => (),
        Err(e) => panic!("expected BadMagic, got Err({e:?})"),
        Ok(_) => panic!("expected BadMagic, got Ok(reader)"),
    }
}

#[test]
fn open_rejects_short_file() {
    match MmapSegmentReader::open(Ok(&[0u8; 16])) {
        Err(ReaderError::Header(SegmentHeaderError::Truncated(16))) => (),
        Err(e) => panic!("expected Truncated(16), got Err({e:?})"),
        Ok(_) => panic!("expected Truncated(16), got Ok(reader)"),
    }
}

#[test]
fn open_reports_failures_and_later_versions() {
    assert_eq!(
        MmapSegmentReader::open(Err(IoKind::NotFound)).err(),
        Some(ReaderError::Io(IoKind::NotFound))
    );
    let mut bytes = Segment::create(64, 0).mem;
    bytes[8] = 3;
    assert_eq!(
        MmapSegmentReader::open(Ok(&bytes)).err(),
        Some(ReaderError::Header(SegmentHeaderError::UnsupportedVersion { got: 3 }))
    );
}

#[test]
fn next_record_reads_committed_records_in_order() {
    let mem = write_records(&[(0, b"alpha"), (1, b"beta"), (2, b"gamma")]);
    let mut r = MmapSegmentReader::open(Ok(&mem)).unwrap();
    for (i, expected) in
        [b"alpha".to_vec(), b"beta".to_vec(), b"gamma".to_vec()].iter().enumerate()
    {
        match r.next_record(&mem) {
            ReadOutcome::Record(rec) => {
                assert_eq!(rec.cursor, i as u64);
                assert_eq!(rec.payload, *expected);
            }
            other => panic!("expected Record, got {other:?}"),
        }
    }
    // Past the live tail: AwaitMore (writer's tail advanced past
    // last record, our pos == tail).
    assert!(matches!(r.next_record(&mem), ReadOutcome::AwaitMore));
}

#[test]
fn next_record_await_more_at_live_tail() {
    let s = Segment::create(4096, 0);
    let mut r = MmapSegmentReader::open(Ok(&s.mem)).unwrap();
    // No records written → first call is AwaitMore.
    assert!(matches!(r.next_record(&s.mem), ReadOutcome::AwaitMore));
}

#[test]
fn next_record_skip_to_end_sentinel_yields_end_of_segment() {
    let mut bytes = Segment::create(4096, 7).mem;
    // Overwrite bytes [24..32] (tail) past SEGMENT_HEADER_LEN
    // and bytes [32..36] (record_len) with the sentinel.
    bytes[24..32].copy_from_slice(&((SEGMENT_HEADER_LEN as u64) + 4).to_le_bytes());
    bytes[SEGMENT_HEADER_LEN..SEGMENT_HEADER_LEN + 4]
        .copy_from_slice(&SKIP_TO_END_SENTINEL.to_le_bytes());
    let mut r = MmapSegmentReader::open(Ok(&bytes)).unwrap();
    assert!(matches!(r.next_record(&bytes), ReadOutcome::EndOfSegment));
}

#[test]
fn next_record_detects_crc_mismatch() {
    let mut bytes = write_records(&[(0, b"clean")]);
    // Flip one byte inside the payload region (the crc check
    // covers cursor + ts + payload_len + payload + padding).
    // Payload starts at SEGMENT_HEADER_LEN + 24 = 56.
    let payload_byte = SEGMENT_HEADER_LEN + 24;
    bytes[payload_byte] ^= 0xFF;
    let mut r = MmapSegmentReader::open(Ok(&bytes)).unwrap();
    match r.next_record(&bytes) {
        ReadOutcome::Failed(ReaderError::CrcMismatch { .. }) => (),
        other => panic!("expected CrcMismatch, got {other:?}"),
    }
}

#[test]
fn reading_goes_on_behind_a_damaged_record() {
    let good = write_records(&[(0, b"clean"), (1, b"next")]);
    // The first record takes 40 bytes: flip any one behind its length.
    for at in SEGMENT_HEADER_LEN + 4..SEGMENT_HEADER_LEN + 40 {
        let mut mem = good.clone();
        mem[at] ^= 0x01;
        let mut r = MmapSegmentReader::open(Ok(&mem)).unwrap();
        match r.next_record(&mem) {
            ReadOutcome::Failed(ReaderError::CrcMismatch { offset: 32, stored, computed }) => {
                assert!(stored != computed);
            }
            // The payload length has become too large for the record.
            ReadOutcome::Failed(ReaderError::OversizeRecord { record_len: 40, offset: 32 }) => {
                assert!((SEGMENT_HEADER_LEN + 21..SEGMENT_HEADER_LEN + 24).contains(&at));
            }
            other => panic!("byte {at}: got {other:?}"),
        }
        match r.next_record(&mem) {
            ReadOutcome::Record(rec) => assert_eq!((rec.cursor, &rec.payload[..]), (1, &b"next"[..])),
            other => panic!("byte {at}: got {other:?}"),
        }
    }
}

#[test]
fn rewind_replays_from_first_record() {
    let mem = write_records(&[(0, b"one"), (1, b"two")]);
    let mut r = MmapSegmentReader::open(Ok(&mem)).unwrap();
    let _ = r.next_record(&mem);
    let _ = r.next_record(&mem);
    assert!(matches!(r.next_record(&mem), ReadOutcome::AwaitMore));
    r.rewind();
    match r.next_record(&mem) {
        ReadOutcome::Record(rec) => assert_eq!(rec.payload, b"one"),
        other => panic!("rewind: expected first record, got {other:?}"),
    }
}

#[test]
fn concurrent_writer_reader_no_loss_or_dup() {
    // 64 KiB segment, plenty of room for the burst. The reader looks after every single
    // store of the writer.
    let mut s = Segment::create(64 * 1024, 0);
    const N: u64 = 200;
    let mut r = MmapSegmentReader::open(Ok(&s.mem)).unwrap();
    let mut got: Vec<u64> = Vec::new();
    let mut look = |mem: &[u8], got: &mut Vec<u64>| match r.next_record(mem) {
        ReadOutcome::Record(rec) => {
            assert_eq!(rec.payload.len(), 8);
            got.push(u64::from_le_bytes(rec.payload.try_into().unwrap()));
        }
        ReadOutcome::AwaitMore => {}
        other => panic!("unexpected outcome: {other:?}"),
    };
    for i in 0..N {
        let write = match s.writer.append(i, 0, &i.to_le_bytes()).unwrap() {
            AppendOutcome::Appended { write, .. } => write,
            AppendOutcome::SegmentFull => panic!("segment unexpectedly filled at cursor {i}"),
        };
        let at = write.at as usize;
        s.mem[TAIL_OFFSET..TAIL_OFFSET + 8].copy_from_slice(&write.tail.to_le_bytes());
        // The tail is ahead, the length still zero: nothing to see yet.
        s.mem[at..at + 4].copy_from_slice(&write.claim.to_le_bytes());
        look(&s.mem, &mut got);
        assert_eq!(got.len() as u64, i);
        s.mem[at + 4..at + 4 + write.body.len()].copy_from_slice(&write.body);
        look(&s.mem, &mut got);
        assert_eq!(got.len() as u64, i);
        s.mem[at..at + 4].copy_from_slice(&write.commit.to_le_bytes());
        look(&s.mem, &mut got);
        look(&s.mem, &mut got);
    }
    assert_eq!(got.len(), N as usize);
    for (i, v) in got.iter().enumerate() {
        assert_eq!(*v, i as u64, "record at position {i} has value {v}");
    }
}

#[test]
fn align_record_len_rounds_up_to_eight() {
    assert_eq!(align_record_len(0), 0);
    assert_eq!(align_record_len(1), 8);
    assert_eq!(align_record_len(7), 8);
    assert_eq!(align_record_len(8), 8);
    assert_eq!(align_record_len(28), 32); // RECORD_FRAMING
    assert_eq!(align_record_len(29), 32);
    assert_eq!(align_record_len(33), 40);
}

#[test]
fn create_writes_v2_header_with_tail_at_record_start() {
    let s = Segment::create(4096, 42);
    let w = &s.writer;
    assert_eq!(w.first_cursor(), 42);
    assert_eq!(w.segment_size(), 4096);
    assert_eq!(w.current_tail(), SEGMENT_HEADER_LEN as u64);

    // Header bit-for-bit (except bytes 24..32 hold tail in v2):
    let bytes = &s.mem;
    let magic = u64::from_le_bytes(bytes[0..8].try_into().unwrap());
    let version = u32::from_le_bytes(bytes[8..12].try_into().unwrap());
    let first_cursor = u64::from_le_bytes(bytes[16..24].try_into().unwrap());
    let tail = u64::from_le_bytes(bytes[24..32].try_into().unwrap());
    assert_eq!(magic, SEGMENT_MAGIC);
    assert_eq!(version, SEGMENT_VERSION_V2);
    assert_eq!(first_cursor, 42);
    assert_eq!(tail, SEGMENT_HEADER_LEN as u64);
}

#[test]
fn create_rejects_existing_path() {
    let _w1 = MmapSegmentWriter::create(4096, 0, Ok(())).expect("first");
    match MmapSegmentWriter::create(4096, 0, Err(IoKind::AlreadyExists)) {
        Err(WriterError::Io(kind)) => {
            assert_eq!(kind, IoKind::AlreadyExists);
        }
        Err(e) => panic!("expected Io(AlreadyExists), got Err({e:?})"),
        Ok(_) => panic!("expected Io(AlreadyExists), got Ok(writer)"),
    }
}

#[test]
fn create_rejects_too_small_segment() {
    let too_small = SEGMENT_HEADER_LEN + RECORD_FRAMING - 1;
    match MmapSegmentWriter::create(too_small, 0, Ok(())) {
        Err(WriterError::SegmentTooSmall { .. }) => (),
        Err(e) => panic!("expected SegmentTooSmall, got Err({e:?})"),
        Ok(_) => panic!("expected SegmentTooSmall, got Ok(writer)"),
    }
    assert_eq!(
        MmapSegmentWriter::check_size(10),
        Err(WriterError::SegmentTooSmall { segment_size: 10, min: 60 })
    );
    assert_eq!(MmapSegmentWriter::check_size(60), Ok(()));
}

#[test]
fn append_advances_tail_by_aligned_size() {
    let mut s = Segment::create(4096, 0);
    // 1-byte payload: unpadded = 29, aligned = 32.
    match s.append(0, 0, b"x").unwrap() {
        AppendOutcome::Appended { byte_offset, next_cursor, .. } => {
            assert_eq!(byte_offset, SEGMENT_HEADER_LEN as u64);
            assert_eq!(next_cursor, 1);
        }
        other => panic!("expected Ok, got {other:?}"),
    }
    assert_eq!(s.writer.current_tail(), SEGMENT_HEADER_LEN as u64 + 32);
}

#[test]
fn append_segment_full_keeps_tail_unchanged() {
    // Just enough room for the header + one 32-byte record.
    let segment_size = SEGMENT_HEADER_LEN + 32;
    let mut s = Segment::create(segment_size, 0);
    // First append fits.
    assert!(matches!(s.append(0, 0, b"a").unwrap(), AppendOutcome::Appended { .. }));
    let after_first = s.writer.current_tail();
    // Second append would overrun → SegmentFull, tail unchanged.
    assert_eq!(s.append(1, 0, b"b").unwrap(), AppendOutcome::SegmentFull);
    assert_eq!(s.writer.current_tail(), after_first);
}

#[test]
fn append_oversize_payload_returns_error() {
    let mut w = MmapSegmentWriter::create(MAX_RECORD_LEN, 0, Ok(())).unwrap();
    let too_big = vec![0u8; MAX_PAYLOAD_LEN + 1];
    match w.append(0, 0, &too_big) {
        Err(WriterError::PayloadTooLarge { payload_len }) => {
            assert_eq!(payload_len, MAX_PAYLOAD_LEN + 1);
        }
        other => panic!("expected PayloadTooLarge, got {other:?}"),
    }
}

#[test]
fn appended_record_has_writing_bit_clear_after_commit() {
    let mut s = Segment::create(4096, 0);
    s.append(0, 0xDEAD_BEEF, b"hello").unwrap();
    let record_len = u32::from_le_bytes(
        s.mem[SEGMENT_HEADER_LEN..SEGMENT_HEADER_LEN + 4].try_into().unwrap(),
    );
    // unpadded = 28 + 5 = 33, aligned = 40.
    assert_eq!(record_len, 40, "record_len reflects aligned size");
    assert_eq!(record_len & WRITING_BIT_U32, 0, "WRITING_BIT must be clear on commit");
}

#[test]
fn appended_record_body_round_trips_with_crc_match() {
    let mut s = Segment::create(4096, 100);
    let ts: u64 = 0xCAFE_BABE_DEAD_BEEF;
    let payload = b"v2 round-trip";
    s.append(100, ts, payload).unwrap();

    let bytes = &s.mem;
    let off = SEGMENT_HEADER_LEN;
    let record_len = u32::from_le_bytes(bytes[off..off + 4].try_into().unwrap()) as usize;
    let cursor = u64::from_le_bytes(bytes[off + 4..off + 12].try_into().unwrap());
    let ts_read = u64::from_le_bytes(bytes[off + 12..off + 20].try_into().unwrap());
    let payload_len = u32::from_le_bytes(bytes[off + 20..off + 24].try_into().unwrap()) as usize;
    let payload_read = &bytes[off + 24..off + 24 + payload_len];
    let crc_stored =
        u32::from_le_bytes(bytes[off + record_len - 4..off + record_len].try_into().unwrap());

    assert_eq!(cursor, 100);
    assert_eq!(ts_read, ts);
    assert_eq!(payload_len, payload.len());
    assert_eq!(payload_read, payload);

    // CRC matches what the writer computed (over cursor..crc-start).
    let crc_input = &bytes[off + 4..off + record_len - 4];
    let crc_computed = crc32c::crc32c(crc_input);
    assert_eq!(crc_stored, crc_computed);
}

#[test]
fn multiple_appends_chain_at_aligned_offsets() {
    let mut s = Segment::create(4096, 0);
    // Three records of different payload sizes; check each starts
    // at an 8-byte-aligned offset.
    let payloads: &[&[u8]] = &[b"a", b"bcdefgh", b"foo bar baz"];
    let mut tail = SEGMENT_HEADER_LEN as u64;
    for (i, p) in payloads.iter().enumerate() {
        let outcome = s.append(i as u64, 0, p).unwrap();
        if let AppendOutcome::Appended { byte_offset, .. } = outcome {
            assert_eq!(byte_offset, tail);
            assert_eq!(byte_offset % 8, 0, "record offsets must be 8-aligned");
        } else {
            panic!("expected Ok, got {outcome:?}");
        }
        tail += align_record_len(RECORD_FRAMING + p.len()) as u64;
    }
    assert_eq!(s.writer.current_tail(), tail);
}

#[test]
fn v1_reader_rejects_v2_segment_with_unsupported_version() {
    let s = Segment::create(4096, 0);
    match SegmentHeader::parse(&s.mem[..SEGMENT_HEADER_LEN]) {
        Err(SegmentHeaderError::UnsupportedVersion { got }) => {
            assert_eq!(got, SEGMENT_VERSION_V2);
        }
        other => panic!("v1 reader should reject v2 segment with UnsupportedVersion, got {other:?}"),
    }
}

/// Helper that builds a tiny segment + writer pair sized so the
/// second append overflows.
fn tiny_setup(payload_len: usize) -> (ActiveCoord, Segment) {
    let mut active = ActiveCoord::open_or_create(None);
    active.store_active(0);
    // Header (32) + one aligned record only.  RECORD_FRAMING=28,
    // so aligned size = align_up_8(28 + payload_len).
    let aligned = ((28 + payload_len) + 7) & !7;
    let segment_size = 32 + aligned;
    (active, Segment::create(segment_size, 0))
}

fn file_name(path: &str) -> &str {
    path.rsplit('/').next().unwrap()
}

#[test]
fn segment_path_zero_pads_to_20_digits() {
    let dir = "/tmp/wal";
    assert_eq!(file_name(&segment_path(dir, 0)), "00000000000000000000.seg");
    assert_eq!(file_name(&segment_path(dir, 12345)), "00000000000000012345.seg");
    assert_eq!(file_name(&segment_path(dir, u64::MAX)), "18446744073709551615.seg");
    assert_eq!(segment_path(dir, 7), "/tmp/wal/00000000000000000007.seg");
}

#[test]
fn write_skip_to_end_makes_reader_see_end_of_segment() {
    let mut s = Segment::create(4096, 0);
    // No records — write the marker at tail = SEGMENT_HEADER_LEN.
    let wrote = s.write_skip_to_end();
    assert!(wrote, "should have written the marker");

    let mut r = MmapSegmentReader::open(Ok(&s.mem)).unwrap();
    match r.next_record(&s.mem) {
        ReadOutcome::EndOfSegment => (),
        other => panic!("expected EndOfSegment, got {other:?}"),
    }
}

#[test]
fn write_skip_to_end_no_room_returns_false() {
    // Exactly the header + one 32-byte record.  After one append
    // the tail is at segment_size, so no room for the marker.
    let segment_size = 32 + 32;
    let mut s = Segment::create(segment_size, 0);
    assert!(matches!(s.append(0, 0, b"a").unwrap(), AppendOutcome::Appended { .. }));
    let wrote = s.write_skip_to_end();
    assert!(!wrote, "no room for marker — should return false");
    // Reader still sees EndOfSegment after the one record.
    let mut r = MmapSegmentReader::open(Ok(&s.mem)).unwrap();
    assert!(matches!(r.next_record(&s.mem), ReadOutcome::Record(_)));
    assert!(matches!(r.next_record(&s.mem), ReadOutcome::EndOfSegment));
}

#[test]
fn rotate_creates_new_segment_and_updates_active_dat() {
    let (mut active, mut w) = tiny_setup(8);
    // Fill the first segment with one record so the next would
    // overflow.
    match w.append(0, 0, b"01234567").unwrap() {
        AppendOutcome::Appended { next_cursor, .. } => {
            assert_eq!(next_cursor, 1);
        }
        other => panic!("first append should fit, got {other:?}"),
    }
    // Confirm the segment is now full.
    assert_eq!(w.append(1, 0, b"01234567").unwrap(), AppendOutcome::SegmentFull);

    // Rotate to new first_cursor = 1.
    let size = w.writer.segment_size();
    let mut new_w = w.rotate(&mut active, 1, size);
    assert_eq!(new_w.writer.first_cursor(), 1);
    assert_eq!(active.load_first_cursor(), 1);
    assert_eq!(active.load_generation(), 2);

    // The new writer accepts an append.
    assert_eq!(appended(new_w.append(1, 0, b"hi").unwrap()).1, 2);
}

#[test]
fn reader_follows_rotation_via_active_dat() {
    // E2E test: writer publishes 3 records, rotates after the
    // first, publishes 2 more in the new segment.  Reader pump
    // walks both segments using active.dat as the discovery
    // mechanism.
    let mut active = ActiveCoord::open_or_create(None);
    // Segment must hold 2 records (~40B aligned each) in segment 1
    // since we cram "second" + "third" there after the rotation.
    let segment_size = 32 + 40 + 40;
    let mut w0 = Segment::create(segment_size, 0);
    active.store_active(0);

    // First record goes to segment 0.
    appended(w0.append(0, 0, b"first").unwrap());
    // Force a rotation even though segment 0 isn't full — exercises
    // the path where the aggregator decides to rotate by size policy
    // mid-segment.
    let mut w1 = w0.rotate(&mut active, 1, segment_size);
    appended(w1.append(1, 0, b"second").unwrap());
    appended(w1.append(2, 0, b"third").unwrap());
    let mut files = BTreeMap::new();
    files.insert(0u64, w0.mem);
    files.insert(1u64, w1.mem);

    // Reader pump.  Holds an ActiveCoord and follows rotations
    // by re-reading first_cursor on EndOfSegment.
    let coord_file = active.to_bytes();
    let reader_active = ActiveCoord::open_or_create(Some(&coord_file));
    let mut current_first = 0u64;
    let mut reader = MmapSegmentReader::open(Ok(&files[&current_first])).unwrap();
    let mut payloads: Vec<Vec<u8>> = Vec::new();
    loop {
        match reader.next_record(&files[&current_first]) {
            ReadOutcome::Record(rec) => payloads.push(rec.payload),
            ReadOutcome::EndOfSegment => {
                let next_first = reader_active.load_first_cursor();
                if next_first == current_first {
                    // No new segment to chase.
                    break;
                }
                current_first = next_first;
                reader = MmapSegmentReader::open(Ok(&files[&current_first])).unwrap();
            }
            ReadOutcome::AwaitMore => break,
            ReadOutcome::Failed(e) => panic!("reader error: {e:?}"),
        }
    }
    let payloads: Vec<&[u8]> = payloads.iter().map(|v| v.as_slice()).collect();
    assert_eq!(payloads, vec![&b"first"[..], &b"second"[..], &b"third"[..]]);
}

#[test]
fn two_consecutive_rotations_chain_segments() {
    let (mut active, mut w0) = tiny_setup(8);
    let segment_size = w0.writer.segment_size();

    // Fill segment 0 with 1 record, rotate to segment 1.
    assert!(matches!(w0.append(0, 0, b"01234567").unwrap(), AppendOutcome::Appended { .. }));
    let mut w1 = w0.rotate(&mut active, 1, segment_size);
    assert_eq!(active.load_first_cursor(), 1);
    assert_eq!(active.load_generation(), 2);

    // Fill segment 1 with 1 record, rotate to segment 2.
    assert!(matches!(w1.append(1, 0, b"01234567").unwrap(), AppendOutcome::Appended { .. }));
    let w2 = w1.rotate(&mut active, 2, segment_size);
    assert_eq!(active.load_first_cursor(), 2);
    assert_eq!(active.load_generation(), 3);
    assert_eq!(w2.writer.first_cursor(), 2);
}

#[test]
fn rotation_under_concurrent_reader_no_loss() {
    // The reader looks after every append, across rotations; it must collect all 100
    // records in order.
    // Segment sized to hold ~40 records of 8-byte payloads (40B aligned).
    let segment_size = 32 + 40 * 40;
    let mut active = ActiveCoord::open_or_create(None);
    let mut files: BTreeMap<u64, Segment> = BTreeMap::new();
    files.insert(0, Segment::create(segment_size, 0));
    active.store_active(0);
    let mut current_first = active.load_first_cursor();
    let mut reader = MmapSegmentReader::open(Ok(&files[&0].mem)).unwrap();
    let mut got: Vec<u64> = Vec::new();
    for i in 0u64..100 {
        let first = active.load_first_cursor();
        let mut w = files.remove(&first).unwrap();
        if w.append(i, 0, &i.to_le_bytes()).unwrap() == AppendOutcome::SegmentFull {
            // Rotate and retry on the new writer.
            let mut next = w.rotate(&mut active, i, segment_size);
            appended(next.append(i, 0, &i.to_le_bytes()).unwrap());
            files.insert(i, next);
        }
        files.insert(first, w);
        loop {
            match reader.next_record(&files[&current_first].mem) {
                ReadOutcome::Record(rec) => {
                    got.push(u64::from_le_bytes(rec.payload.try_into().unwrap()));
                }
                ReadOutcome::AwaitMore => break,
                ReadOutcome::EndOfSegment => {
                    let latest = active.load_first_cursor();
                    if latest == current_first {
                        break;
                    }
                    current_first = latest;
                    reader = MmapSegmentReader::open(Ok(&files[&latest].mem)).unwrap();
                }
                ReadOutcome::Failed(e) => panic!("reader error at {} records: {e:?}", got.len()),
            }
        }
    }
    assert_eq!(files.len(), 3);
    assert_eq!(got.len(), 100);
    for (i, v) in got.iter().enumerate() {
        assert_eq!(*v, i as u64, "record {i} mismatch: got {v}");
    }
}

#[test]
fn crash_after_new_segment_before_active_update_recovers_via_max_first_cursor() {
    // Simulate a crash: create segment 0, write a record, create
    // segment 1, but DON'T update active.dat (active still points
    // at 0 with generation 1).  Recovery picks the highest
    // first_cursor on disk and republishes it.
    let mut active = ActiveCoord::open_or_create(None);
    let segment_size = 4096;
    let mut w0 = Segment::create(segment_size, 0);
    active.store_active(0);
    w0.append(0, 0, b"in-segment-0").unwrap();
    w0.write_skip_to_end();
    let _w1 = Segment::create(segment_size, 1);
    assert_eq!((active.load_first_cursor(), active.load_generation()), (0, 1));

    let names =
        vec!["active.dat".to_string(), segment_file_name(1), segment_file_name(0)];
    let highest = newest_segment(&names).expect("at least one segment");
    assert_eq!(highest, 1);

    // Republish.
    active.store_active(highest);
    assert_eq!(active.load_first_cursor(), 1);
}

#[test]
fn failed_rotation_is_reported() {
    let (mut active, mut w) = tiny_setup(8);
    let size = w.writer.segment_size();
    let io = RotateIo { created: Err(IoKind::AlreadyExists), published: Ok(()) };
    assert_eq!(
        rotate(&mut w.writer, &mut active, 1, size, io).err(),
        Some(RotateError::Writer(WriterError::Io(IoKind::AlreadyExists)))
    );
    assert_eq!(active.load_first_cursor(), 0);
    let (mut active, mut w) = tiny_setup(8);
    let io = RotateIo { created: Ok(()), published: Err(IoKind::Other) };
    assert_eq!(
        rotate(&mut w.writer, &mut active, 1, size, io).err(),
        Some(RotateError::Io(IoKind::Other))
    );
}

#[test]
fn names_carry_cursors() {
    for c in [0u64, 9, 10, 12345, u64::MAX] {
        assert_eq!(parse_segment_name(&segment_file_name(c)), Some(c));
    }
    assert_eq!(parse_segment_name("7.seg"), Some(7));
    assert_eq!(parse_segment_name("+7.seg"), Some(7));
    assert_eq!(parse_segment_name(".seg"), None);
    assert_eq!(parse_segment_name("-7.seg"), None);
    assert_eq!(parse_segment_name("7.seg.bak"), None);
    // One more than the largest cursor.
    assert_eq!(parse_segment_name("18446744073709551616.seg"), None);
    // Names sort as cursors do.
    assert!(segment_file_name(9) < segment_file_name(10));
    assert_eq!(newest_segment(&vec!["active.dat".to_string()]), None);
}

#[test]
fn coordination_file_round_trips() {
    let mut a = ActiveCoord::open_or_create(None);
    assert_eq!((a.load_first_cursor(), a.load_generation()), (0, 0));
    a.store_active(0x0102);
    let bytes = a.to_bytes();
    assert_eq!(bytes.len(), ACTIVE_COORD_LEN);
    assert_eq!(bytes, vec![2, 1, 0, 0, 0, 0, 0, 0, 1, 0, 0, 0, 0, 0, 0, 0]);
    assert_eq!(peek(&bytes), Some((0x0102, 1)));
    assert_eq!(peek(&bytes[..15]), None);
    let b = ActiveCoord::open_or_create(Some(&bytes));
    assert_eq!((b.load_first_cursor(), b.load_generation()), (0x0102, 1));
    // A file that is too short counts as none.
    let c = ActiveCoord::open_or_create(Some(&bytes[..3]));
    assert_eq!((c.load_first_cursor(), c.load_generation()), (0, 0));
}

#[test]
fn bad_lengths_are_reported() {
    let mem = write_records(&[(0, b"clean")]);
    let mut r = MmapSegmentReader::open(Ok(&mem)).unwrap();
    // A length that is too small for a record, and one that runs past the segment.
    assert_eq!(
        r.decode(&mem, 24),
        ReadOutcome::Failed(ReaderError::UndersizeRecord { record_len: 24, offset: 32 })
    );
    let mut r = MmapSegmentReader::open(Ok(&mem)).unwrap();
    assert_eq!(
        r.decode(&mem, 8192),
        ReadOutcome::Failed(ReaderError::OversizeRecord { record_len: 8192, offset: 32 })
    );
    // A record that is being written.
    let mut r = MmapSegmentReader::open(Ok(&mem)).unwrap();
    assert_eq!(r.decode(&mem, 40 | WRITING_BIT_U32), ReadOutcome::AwaitMore);
    assert_eq!(r.pos(), SEGMENT_HEADER_LEN);
    assert_eq!(r.poll(32), Some(ReadOutcome::AwaitMore));
    assert_eq!(r.poll(72), None);
}

#[test]
fn body_verdict_goes_by_the_computed_checksum() {
    let mem = write_records(&[(5, b"clean")]);
    let stored = u32::from_le_bytes(mem[68..72].try_into().unwrap());
    let want = Record { cursor: 5, ts_unix_nanos: 0, payload: b"clean".to_vec() };
    assert_eq!(check_body(&mem, 32, 40, stored), (ReadOutcome::Record(want), 72));
    let (outcome, next) = check_body(&mem, 32, 40, !stored);
    assert_eq!(
        outcome,
        ReadOutcome::Failed(ReaderError::CrcMismatch { offset: 32, stored, computed: !stored })
    );
    assert_eq!(next, 72);
}
