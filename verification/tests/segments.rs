use mmbus::error::IoKind;
use mmbus::wal::record::{
    Record, SegmentHeader, SegmentHeaderError, MAX_PAYLOAD_LEN, RECORD_FRAMING, SEGMENT_HEADER_LEN,
};
use mmbus::wal::segment_reader::{
    check_record, read_frame, read_one_record, recover_truncate, ReaderError, SegmentReader,
};
use mmbus::wal::segment_writer::{SegmentWriter, WriterError};

/// The file of a segment with these records.
fn write_segment(first_cursor: u64, records: &[(u64, &[u8])]) -> Vec<u8> {
    let mut w = SegmentWriter::create(first_cursor, Ok(())).unwrap();
    for (c, p) in records {
        w.append(*c, 0, p).unwrap();
    }
    let file = w.take_buffered();
    w.close(Ok(())).unwrap();
    file
}

/// All records of a segment, or the first failure.
fn collect(r: &SegmentReader) -> Result<Vec<Record>, ReaderError> {
    let mut all = Vec::new();
    let mut it = r.iter();
    while let Some(item) = it.next() {
        all.push(item?);
    }
    Ok(all)
}

#[test]
fn opens_and_iterates_clean_segment() {
    let file = write_segment(0, &[(0, b"alpha"), (1, b"beta"), (2, b"gamma")]);
    let r = SegmentReader::open(Ok(file)).unwrap();
    assert_eq!(r.first_cursor(), 0);
    let records = collect(&r).unwrap();
    assert_eq!(records.len(), 3);
    assert_eq!(records[0].cursor, 0);
    assert_eq!(records[0].payload, b"alpha");
    assert_eq!(records[1].payload, b"beta");
    assert_eq!(records[2].payload, b"gamma");
}

#[test]
fn segment_reader_open_rejects_bad_magic() {
    let mut file = write_segment(0, &[]);
    // Corrupt the first byte of the magic.
    file[0] = 0xFF;
    match SegmentReader::open(Ok(file)) {
        Err(ReaderError::Header(SegmentHeaderError::BadMagic { .. })) => (),
        Err(e) => panic!("expected BadMagic, got Err({e:?})"),
        Ok(_) => panic!("expected BadMagic, got Ok(reader)"),
    }
}

#[test]
fn iter_detects_crc_mismatch() {
    let mut file = write_segment(0, &[(0, b"clean")]);
    // Corrupt one byte of the payload — CRC stays the same so the
    // computed CRC will differ.  Payload starts at
    // SEGMENT_HEADER_LEN + 4 (record_len) + 8 (cursor) + 8 (ts) +
    // 4 (payload_len) = 32 + 24 = 56.
    let payload_start = SEGMENT_HEADER_LEN + 4 + 8 + 8 + 4;
    file[payload_start] = 0xFF;
    let r = SegmentReader::open(Ok(file)).unwrap();
    let first = r.iter().next().unwrap();
    match first {
        Err(ReaderError::CrcMismatch { .. }) => (),
        other => panic!("expected CrcMismatch, got {other:?}"),
    }
}

#[test]
fn damage_anywhere_in_a_record_is_noticed() {
    let good = write_segment(0, &[(0, b"first"), (1, b"clean")]);
    // Both records take 33 bytes: replace any byte of the second behind its length.
    let second = SEGMENT_HEADER_LEN + 33;
    for at in second + 4..second + 33 {
        let mut file = good.clone();
        file[at] ^= 0x80;
        let mut r = SegmentReader::open(Ok(file)).unwrap();
        assert_eq!(r.next_record().unwrap().unwrap().cursor, 0);
        match r.next_record() {
            Some(Err(ReaderError::CrcMismatch { offset, stored, computed })) => {
                assert!(offset == second as u64 && stored != computed);
            }
            other => panic!("byte {at}: got {other:?}"),
        }
        assert!(r.next_record().is_none());
    }
}

#[test]
fn iter_detects_short_final_record() {
    let mut file = write_segment(0, &[(0, b"a"), (1, b"b")]);
    // Truncate to just past the first record.
    let truncate_at = {
        let r = SegmentReader::open(Ok(file.clone())).unwrap();
        // Header + one full record = 32 + (28 + 1) = 61.
        r.file_len() - 5 // chop bytes off the second record's tail
    };
    file.truncate(truncate_at as usize);

    let r = SegmentReader::open(Ok(file)).unwrap();
    let mut iter = r.iter();
    let first = iter.next().unwrap().unwrap();
    assert_eq!(first.payload, b"a");
    let second = iter.next().unwrap();
    assert!(matches!(second, Err(ReaderError::ShortRead { .. })));
    // A bad record ends the iteration.
    assert_eq!(iter.next(), None);
}

#[test]
fn recover_truncate_on_clean_segment_is_noop() {
    let file = write_segment(0, &[(0, b"x"), (1, b"y"), (2, b"z")]);
    let original_len = file.len() as u64;
    let report = recover_truncate(Ok(file)).unwrap();
    assert_eq!(report.bytes_dropped, 0);
    assert_eq!(report.final_len, original_len);
    assert_eq!(report.last_cursor, Some(2));
}

#[test]
fn recovery_without_a_record_ends_before_the_segment() {
    for file in [write_segment(5, &[]), {
        // The only record is torn.
        let mut torn = write_segment(5, &[(5, b"lost")]);
        torn.pop();
        torn
    }] {
        let report = recover_truncate(Ok(file)).unwrap();
        assert_eq!((report.last_cursor, report.final_len), (Some(4), 32));
    }
    // There is no cursor before the first one of all.
    let report = recover_truncate(Ok(write_segment(0, &[]))).unwrap();
    assert_eq!((report.last_cursor, report.final_len), (None, 32));
}

#[test]
fn recover_truncate_removes_torn_tail() {
    let mut file = write_segment(0, &[(0, b"first"), (1, b"second")]);
    let original_len = file.len();
    // Chop the last 3 bytes (corrupts the second record's CRC).
    file.truncate(original_len - 3);

    let report = recover_truncate(Ok(file.clone())).unwrap();
    assert!(report.bytes_dropped > 0);
    // The first record was clean → last_cursor = 0; final_len is
    // header + first record = 32 + (28 + 5) = 65.
    assert_eq!(report.last_cursor, Some(0));
    assert_eq!(report.final_len, 65);
    file.truncate(report.final_len as usize);

    // After recovery, the segment must iterate cleanly with only
    // the first record.
    let r = SegmentReader::open(Ok(file)).unwrap();
    let surviving = collect(&r).unwrap();
    assert_eq!(surviving.len(), 1);
    assert_eq!(surviving[0].payload, b"first");
}

#[test]
fn recover_truncate_is_idempotent() {
    let mut file = write_segment(0, &[(0, b"a"), (1, b"b")]);
    // Corrupt the second record's payload.
    let payload_b_start = SEGMENT_HEADER_LEN + (RECORD_FRAMING + 1) + 4 + 8 + 8 + 4;
    file[payload_b_start] = 0xFF;
    let first = recover_truncate(Ok(file.clone())).unwrap();
    file.truncate(first.final_len as usize);
    let second = recover_truncate(Ok(file)).unwrap();
    assert_eq!(first.final_len, second.final_len);
    assert_eq!(second.bytes_dropped, 0, "second run must be a no-op");
}

#[test]
fn creates_header_on_open() {
    let mut w = SegmentWriter::create(42, Ok(())).expect("create");
    let bytes = w.take_buffered();
    assert_eq!(bytes.len(), SEGMENT_HEADER_LEN);
    let header = SegmentHeader::parse(&bytes).expect("parse header");
    assert_eq!(header.first_cursor, 42);
}

#[test]
fn append_writes_expected_bytes() {
    let mut w = SegmentWriter::create(0, Ok(())).unwrap();
    w.append(0, 1000, b"hello").unwrap();
    let bytes = w.take_buffered();
    w.fsync(Ok(())).unwrap();
    // Header + one record of payload len 5.
    assert_eq!(bytes.len(), SEGMENT_HEADER_LEN + RECORD_FRAMING + 5);
    // Spot-check the record's record_len prefix at byte 32.
    let record_len = u32::from_le_bytes(bytes[32..36].try_into().unwrap()) as usize;
    assert_eq!(record_len, RECORD_FRAMING + 5);
}

#[test]
fn fsync_advances_durable_cursor() {
    let mut w = SegmentWriter::create(0, Ok(())).unwrap();
    assert_eq!(w.durable_cursor(), 0);
    assert_eq!(w.pending_cursor(), 0);
    w.append(0, 0, b"a").unwrap();
    w.append(1, 0, b"b").unwrap();
    assert_eq!(w.pending_cursor(), 2);
    assert_eq!(w.durable_cursor(), 0, "no fsync yet");
    let durable = w.fsync(Ok(())).unwrap();
    assert_eq!(durable, 2);
    assert_eq!(w.durable_cursor(), 2);
}

#[test]
fn bytes_written_matches_file_size() {
    let mut w = SegmentWriter::create(0, Ok(())).unwrap();
    for i in 0..10u64 {
        w.append(i, 0, &i.to_le_bytes()).unwrap();
    }
    let claimed = w.bytes_written();
    let file = w.take_buffered();
    w.fsync(Ok(())).unwrap();
    let actual = file.len() as u64;
    assert_eq!(claimed, actual);
}

#[test]
fn rejects_oversize_payload() {
    let mut w = SegmentWriter::create(0, Ok(())).unwrap();
    let payload = vec![0u8; MAX_PAYLOAD_LEN + 1];
    match w.append(0, 0, &payload) {
        Err(WriterError::PayloadTooLarge { payload_len }) => {
            assert_eq!(payload_len, MAX_PAYLOAD_LEN + 1);
        }
        other => panic!("expected PayloadTooLarge, got {other:?}"),
    }
}

#[test]
fn rejects_out_of_order_cursor() {
    let mut w = SegmentWriter::create(10, Ok(())).unwrap();
    match w.append(11, 0, b"x") {
        Err(WriterError::CursorRegressed { got: 11, expected: 10 }) => (),
        other => panic!("expected CursorRegressed, got {other:?}"),
    }
}

#[test]
fn create_fails_if_path_exists() {
    let _w1 = SegmentWriter::create(0, Ok(())).expect("first create");
    match SegmentWriter::create(0, Err(IoKind::AlreadyExists)) {
        Err(WriterError::Io(kind)) => {
            assert_eq!(kind, IoKind::AlreadyExists);
        }
        Err(e) => panic!("expected Io(AlreadyExists), got Err({e:?})"),
        Ok(_) => panic!("expected Io(AlreadyExists), got Ok"),
    }
}

#[test]
fn close_fsyncs_implicitly() {
    let mut w = SegmentWriter::create(0, Ok(())).unwrap();
    w.append(0, 0, b"x").unwrap();
    // pending != durable until close/fsync.
    assert_ne!(w.pending_cursor(), w.durable_cursor());
    let bytes = w.take_buffered();
    w.close(Ok(())).unwrap();
    assert!(bytes.len() > SEGMENT_HEADER_LEN, "close must flush");
}

#[test]
fn failed_fsync_leaves_the_durable_cursor() {
    let mut w = SegmentWriter::create(5, Ok(())).unwrap();
    w.append(5, 0, b"x").unwrap();
    assert_eq!(w.fsync(Err(IoKind::Other)), Err(WriterError::Io(IoKind::Other)));
    assert_eq!(w.durable_cursor(), 5);
    assert_eq!(w.pending_cursor(), 6);
    assert_eq!(w.first_cursor(), 5);
    assert_eq!(w.close(Err(IoKind::Other)), Err(WriterError::Io(IoKind::Other)));
}

#[test]
fn written_bytes_are_handed_out_once() {
    let mut w = SegmentWriter::create(0, Ok(())).unwrap();
    w.append(0, 1, b"a").unwrap();
    let mut file = w.take_buffered();
    assert!(w.take_buffered().is_empty());
    w.append(1, 2, b"bc").unwrap();
    file.extend(w.take_buffered());
    let mut r = SegmentReader::open(Ok(file)).unwrap();
    let a = r.next_record().unwrap().unwrap();
    assert_eq!((a.cursor, a.ts_unix_nanos, a.payload), (0, 1, b"a".to_vec()));
    let b = r.next_record().unwrap().unwrap();
    assert_eq!((b.cursor, b.ts_unix_nanos, b.payload), (1, 2, b"bc".to_vec()));
    assert!(r.next_record().is_none());
}

#[test]
fn unreadable_segment_is_reported() {
    assert_eq!(
        SegmentReader::open(Err(IoKind::NotFound)).err(),
        Some(ReaderError::Io(IoKind::NotFound))
    );
    assert_eq!(
        recover_truncate(Err(IoKind::PermissionDenied)),
        Err(ReaderError::Io(IoKind::PermissionDenied))
    );
    assert_eq!(
        recover_truncate(Ok(vec![1, 2, 3])),
        Err(ReaderError::Header(SegmentHeaderError::Truncated(3)))
    );
}

#[test]
fn absurd_lengths_are_refused() {
    let mut file = write_segment(0, &[(0, b"a")]);
    file[32..36].copy_from_slice(&27u32.to_le_bytes());
    let r = SegmentReader::open(Ok(file.clone())).unwrap();
    assert_eq!(r.iter().next(), Some(Err(ReaderError::OversizeRecord { record_len: 27 })));
    let huge = 16 * 1024 * 1024 + 1;
    file[32..36].copy_from_slice(&(huge as u32).to_le_bytes());
    assert_eq!(
        read_one_record(&file, 32),
        Err(ReaderError::OversizeRecord { record_len: huge })
    );
    assert_eq!(read_frame(&file, 61), Ok(None));
    assert_eq!(read_frame(&file[..34], 32), Err(ReaderError::ShortRead { offset: 32, needed: 2 }));
}

#[test]
fn checksum_verdict_goes_by_the_computed_value() {
    let file = write_segment(3, &[(3, b"abc")]);
    let stored = u32::from_le_bytes(file[file.len() - 4..].try_into().unwrap());
    let ok = check_record(&file, 32, 31, stored).unwrap();
    assert_eq!((ok.cursor, ok.payload), (3, b"abc".to_vec()));
    assert_eq!(
        check_record(&file, 32, 31, stored ^ 1),
        Err(ReaderError::CrcMismatch { offset: 32, stored, computed: stored ^ 1 })
    );
}

#[test]
fn header_is_kept() {
    let file = write_segment(77, &[]);
    let parsed = SegmentHeader::parse(&file).unwrap();
    let r = SegmentReader::open(Ok(file)).unwrap();
    assert_eq!(*r.header(), parsed);
    assert_eq!(r.file_len(), SEGMENT_HEADER_LEN as u64);
    assert_eq!(r.iter().next(), None);
}
