use mmbus::wal::clock::{anchored_nanos, clamp_nanos, unix_nanos};
use mmbus::wal::config::{FsyncPolicy, WalConfig};
use mmbus::wal::record::{
    encode_segment_header, encode_segment_header_at, Record, SegmentHeader, SegmentHeaderError,
    MAX_PAYLOAD_LEN, RECORD_FRAMING, SEGMENT_HEADER_LEN,
};
use std::time::Duration;

#[test]
fn default_is_disabled() {
    let cfg = WalConfig::default();
    assert!(!cfg.enabled, "default WAL must be off — opt-in only");
    assert_eq!(cfg.fsync_policy, FsyncPolicy::Batched);
}

#[test]
fn disabled_alias_matches_default() {
    let a = WalConfig::default();
    let b = WalConfig::disabled();
    assert_eq!(a.enabled, b.enabled);
    assert_eq!(a.fsync_policy, b.fsync_policy);
    assert_eq!(a.fsync_interval, b.fsync_interval);
    assert_eq!(a.segment_size_max, b.segment_size_max);
    assert_eq!(a.retention_bytes, b.retention_bytes);
}

#[test]
fn batched_constructor_enables_with_defaults() {
    let cfg = WalConfig::batched();
    assert!(cfg.enabled);
    assert_eq!(cfg.fsync_policy, FsyncPolicy::Batched);
}

#[test]
fn default_constants_match_rfc_section_11() {
    let cfg = WalConfig::default();
    assert_eq!(Duration::from_nanos(cfg.fsync_interval), Duration::from_millis(5));
    assert_eq!(cfg.fsync_batch_bytes, 1024 * 1024);
    assert_eq!(cfg.segment_size_max, 64 * 1024 * 1024);
    assert_eq!(cfg.retention_bytes, 1024 * 1024 * 1024);
}

#[test]
fn encoded_len_matches_actual_bytes() {
    let r = Record { cursor: 42, ts_unix_nanos: 100, payload: vec![1, 2, 3, 4, 5] };
    let mut buf = Vec::new();
    r.encode_into(&mut buf);
    assert_eq!(buf.len(), r.encoded_len());
    assert_eq!(buf.len(), RECORD_FRAMING + 5);
}

#[test]
fn record_len_prefix_equals_total_record_bytes() {
    let r = Record { cursor: 7, ts_unix_nanos: 0, payload: vec![0xAB; 100] };
    let mut buf = Vec::new();
    r.encode_into(&mut buf);
    let record_len = u32::from_le_bytes(buf[0..4].try_into().unwrap()) as usize;
    assert_eq!(record_len, buf.len(), "record_len includes itself");
    assert_eq!(record_len, RECORD_FRAMING + 100);
}

#[test]
fn crc_is_computed_over_post_length_bytes() {
    let r = Record {
        cursor: 0x1122_3344_5566_7788,
        ts_unix_nanos: 1,
        payload: vec![0x11, 0x22, 0x33],
    };
    let mut buf = Vec::new();
    r.encode_into(&mut buf);
    // CRC bytes are the last 4 of the encoded record.
    let n = buf.len();
    let stored_crc = u32::from_le_bytes(buf[n - 4..n].try_into().unwrap());
    // CRC input is everything between record_len (first 4) and crc
    // (last 4) — i.e. cursor + ts + payload_len + payload.
    let expected_crc = crc32c::crc32c(&buf[4..n - 4]);
    assert_eq!(stored_crc, expected_crc);
}

#[test]
fn segment_header_round_trips() {
    let header_bytes = encode_segment_header(1234);
    let parsed = SegmentHeader::parse(&header_bytes).unwrap();
    assert_eq!(parsed.first_cursor, 1234);
    assert!(parsed.created_unix_nanos > 0);
}

#[test]
fn segment_header_rejects_bad_magic() {
    let mut b = encode_segment_header(0);
    b[0] = b[0].wrapping_add(1);
    match SegmentHeader::parse(&b) {
        Err(SegmentHeaderError::BadMagic { .. }) => (),
        other => panic!("expected BadMagic, got {other:?}"),
    }
}

#[test]
fn segment_header_rejects_truncated_input() {
    let short = [0u8; 16];
    match SegmentHeader::parse(&short) {
        Err(SegmentHeaderError::Truncated(16)) => (),
        other => panic!("expected Truncated(16), got {other:?}"),
    }
}

#[test]
fn segment_header_rejects_unsupported_version() {
    let mut b = encode_segment_header(0);
    b[8..12].copy_from_slice(&99u32.to_le_bytes());
    match SegmentHeader::parse(&b) {
        Err(SegmentHeaderError::UnsupportedVersion { got: 99 }) => (),
        other => panic!("expected UnsupportedVersion(99), got {other:?}"),
    }
}

#[test]
fn segment_header_layout_is_fixed() {
    let b = encode_segment_header_at(0x0102_0304_0506_0708, 9);
    assert_eq!(b.len(), SEGMENT_HEADER_LEN);
    assert_eq!(&b[0..8], b"LAWsubmm");
    assert_eq!(&b[8..16], &[1, 0, 0, 0, 0, 0, 0, 0]);
    assert_eq!(&b[16..24], &[8, 7, 6, 5, 4, 3, 2, 1]);
    assert_eq!(&b[24..32], &[9, 0, 0, 0, 0, 0, 0, 0]);
    // A header may be followed by more.
    let mut longer = b.to_vec();
    longer.push(0xFF);
    let want = SegmentHeader { first_cursor: 0x0102_0304_0506_0708, created_unix_nanos: 9 };
    assert_eq!(SegmentHeader::parse(&longer), Ok(want));
}

#[test]
fn empty_record_layout_is_fixed() {
    let r = Record { cursor: 1, ts_unix_nanos: 2, payload: vec![] };
    let mut buf = Vec::new();
    r.encode_into(&mut buf);
    assert_eq!(buf.len(), RECORD_FRAMING);
    assert_eq!(&buf[..24], &[28, 0, 0, 0, 1, 0, 0, 0, 0, 0, 0, 0, 2, 0, 0, 0, 0, 0, 0, 0, 0, 0, 0, 0]);
    assert_eq!(MAX_PAYLOAD_LEN, 16 * 1024 * 1024 - 28);
}

/// CRC-32C, bit by bit.
fn castagnoli(data: &[u8]) -> u32 {
    let mut crc: u32 = !0;
    for byte in data {
        crc ^= u32::from(*byte);
        for _ in 0..8 {
            crc = if crc & 1 == 1 { (crc >> 1) ^ 0x82F6_3B78 } else { crc >> 1 };
        }
    }
    !crc
}

#[test]
fn checksum_is_castagnoli() {
    // The check value of CRC-32C.
    assert_eq!(castagnoli(b"123456789"), 0xE306_9283);
    let r = Record { cursor: 99, ts_unix_nanos: 5, payload: b"123456789".to_vec() };
    let mut buf = Vec::new();
    r.encode_into(&mut buf);
    let n = buf.len();
    let stored = u32::from_le_bytes(buf[n - 4..n].try_into().unwrap());
    assert_eq!(stored, castagnoli(&buf[4..n - 4]));
}

#[test]
fn sealed_record_carries_the_given_checksum() {
    let r = Record { cursor: 3, ts_unix_nanos: 4, payload: vec![5, 6] };
    let mut sealed = Vec::new();
    r.seal_into(0xDDCC_BBAA, &mut sealed);
    let mut encoded = Vec::new();
    r.encode_into(&mut encoded);
    let n = encoded.len();
    assert_eq!(&sealed[..n - 4], &encoded[..n - 4]);
    assert_eq!(&sealed[n - 4..], &[0xAA, 0xBB, 0xCC, 0xDD]);
}

#[test]
fn clock_values_are_clamped() {
    assert_eq!(clamp_nanos(None), 0);
    assert_eq!(clamp_nanos(Some(17)), 17);
    assert_eq!(clamp_nanos(Some(0x1_0000_0000_0000_0005)), 5);
    assert_eq!(anchored_nanos(10, 7), 17);
    // 2020-01-01 lies behind us.
    assert!(unix_nanos() > 1_577_836_800_000_000_000);
}
