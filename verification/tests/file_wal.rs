use mmbus::error::IoKind;
use mmbus::wal::config::{FsyncPolicy, WalConfig};
use mmbus::wal::index::SegmentIndex;
use mmbus::wal::reader::WalReader;
use mmbus::wal::record::{encode_segment_header, Record, MAX_PAYLOAD_LEN};
use mmbus::wal::segment_reader::ReaderError;
use mmbus::wal::segment_writer::WriterError;
use mmbus::wal::v2::rotation::segment_file_name;
use mmbus::wal::wal::{
    enforce_retention, AppendIo, NewSegment, ReplayStep, Wal, WalError, WalRecovery, WalReplayer,
};
use std::collections::BTreeMap;

/// The files of a log directory.
type Dir = BTreeMap<String, Vec<u8>>;

fn cfg(segment_size_max: usize, retention_bytes: u64) -> WalConfig {
    WalConfig {
        enabled: true,
        fsync_policy: FsyncPolicy::Each, // synchronous = deterministic in tests
        fsync_interval: 5_000_000,
        fsync_batch_bytes: 1024,
        segment_size_max,
        retention_bytes,
    }
}

const DONE: AppendIo = AppendIo { created: Ok(()), closed: Ok(()), rotated: Ok(()), written: Ok(()) };

fn create_file(dir: &mut Dir, new: NewSegment) -> Result<(), IoKind> {
    let name = segment_file_name(new.first_cursor);
    if dir.contains_key(&name) && !new.reuse {
        return Err(IoKind::AlreadyExists);
    }
    dir.insert(name, Vec::new());
    Ok(())
}

/// A log whose files live in memory.
struct Log {
    dir: Dir,
    wal: Wal,
}

impl Log {
    fn open(mut dir: Dir, cfg: WalConfig) -> Result<Log, WalError> {
        let mut found = WalRecovery::new();
        let names: Vec<String> = dir.keys().cloned().collect();
        for name in names {
            if let Some(report) = found.add_file(&name, Ok(dir[&name].clone()))? {
                dir.get_mut(&name).unwrap().truncate(report.final_len as usize);
            }
        }
        let created = match found.needs_segment() {
            Some(new) => create_file(&mut dir, new),
            None => Ok(()),
        };
        let wal = Wal::open(cfg, found, created)?;
        let mut log = Log { dir, wal };
        log.write_out();
        Ok(log)
    }

    fn write_out(&mut self) {
        let active = self.wal.active_segment();
        let bytes = self.wal.take_buffered();
        if let Some(first) = active {
            self.dir.get_mut(&segment_file_name(first)).unwrap().extend(bytes);
        }
    }

    fn append(&mut self, cursor: u64, ts: u64, payload: &[u8]) -> Result<(), WalError> {
        let plan = self.wal.plan_append(cursor, payload.len());
        let mut io = DONE;
        self.write_out();
        if let Some(new) = plan.create {
            io.created = create_file(&mut self.dir, new);
        }
        if let Some(new) = plan.rotate {
            if let (Some(first), Ok(())) = (plan.create, io.created) {
                let header = encode_segment_header(first.first_cursor).to_vec();
                self.dir.insert(segment_file_name(first.first_cursor), header);
            }
            io.rotated = create_file(&mut self.dir, new);
        }
        self.wal.append(cursor, ts, payload, io)?;
        self.write_out();
        for victim in self.wal.finish_append(payload.len(), Ok(()))? {
            self.dir.remove(&segment_file_name(victim));
        }
        Ok(())
    }

    fn bump_generation(&mut self) -> Result<(), WalError> {
        let created = match self.wal.plan_bump() {
            Some(new) => create_file(&mut self.dir, new),
            None => Ok(()),
        };
        self.write_out();
        self.wal.bump_generation(Ok(()), created)?;
        self.write_out();
        Ok(())
    }

    fn replay(&self, mut r: WalReplayer) -> Result<Vec<Record>, WalError> {
        let mut all = Vec::new();
        loop {
            match r.next() {
                ReplayStep::Open(first) => {
                    let file = self.dir.get(&segment_file_name(first)).cloned();
                    if let Some(e) = r.opened(file.ok_or(IoKind::NotFound)) {
                        return Err(e);
                    }
                }
                ReplayStep::Yield(item) => all.push(item?),
                ReplayStep::End => return Ok(all),
            }
        }
    }

    fn read_from(&self, cursor: u64) -> Result<Vec<Record>, WalError> {
        self.replay(self.wal.read_from(cursor)?)
    }
}

#[test]
fn wal_open_empty_dir_creates_no_segment_yet() {
    let log = Log::open(Dir::new(), cfg(1024, 1_000_000)).unwrap();
    let s = log.wal.stats();
    assert_eq!(s.segments, 0);
    assert_eq!(s.pending_cursor, 0);
    assert!(log.dir.is_empty());
}

#[test]
fn wal_append_creates_first_segment_on_demand() {
    let mut log = Log::open(Dir::new(), cfg(1024, 1_000_000)).unwrap();
    log.append(0, 0, b"x").unwrap();
    let s = log.wal.stats();
    assert_eq!(s.segments, 1);
    assert_eq!(s.pending_cursor, 1);
    assert_eq!(s.oldest_cursor, 0);
    assert!(s.active_segment_bytes > 0);
    assert_eq!(s.active_segment_bytes, log.dir[&segment_file_name(0)].len() as u64);
}

#[test]
fn rotates_when_active_exceeds_size_cap() {
    // Very small cap so a few records force a rotation.
    let mut log = Log::open(Dir::new(), cfg(200, 1_000_000)).unwrap();
    // Each record: RECORD_FRAMING (28) + payload (16) = 44 bytes.
    // Header: 32 bytes. After ~3 records the active will be near cap.
    for i in 0..6u64 {
        log.append(i, 0, &[0xAB; 16]).unwrap();
    }
    let s = log.wal.stats();
    assert!(s.segments >= 2, "expected at least 2 segments, got {}", s.segments);
    assert_eq!(s.pending_cursor, 6);
}

#[test]
fn retention_deletes_oldest_when_total_exceeds_cap() {
    // Force frequent rotation (small segments) + tight retention.
    let mut log = Log::open(Dir::new(), cfg(150, 300)).unwrap();
    for i in 0..30u64 {
        log.append(i, 0, &[0xCD; 32]).unwrap();
    }
    let s = log.wal.stats();
    assert!(
        s.total_wal_bytes <= 300 + 150, /* loose: at most one over-cap segment */
        "retention failed: total={}, oldest={}",
        s.total_wal_bytes,
        s.oldest_cursor
    );
    assert!(s.oldest_cursor > 0, "oldest segment must have been deleted");
    assert_eq!(s.segments, log.dir.len());
}

#[test]
fn read_from_walks_records_in_order() {
    let mut log = Log::open(Dir::new(), cfg(1024, 1_000_000)).unwrap();
    for i in 0..5u64 {
        log.append(i, 0, &i.to_le_bytes()).unwrap();
    }
    let records = log.read_from(0).unwrap();
    assert_eq!(records.len(), 5);
    for (i, r) in records.iter().enumerate() {
        assert_eq!(r.cursor, i as u64);
        assert_eq!(r.payload, (i as u64).to_le_bytes().to_vec());
    }
}

#[test]
fn read_from_skips_records_before_requested_cursor() {
    let mut log = Log::open(Dir::new(), cfg(1024, 1_000_000)).unwrap();
    for i in 0..5u64 {
        log.append(i, 0, &i.to_le_bytes()).unwrap();
    }
    let records = log.read_from(2).unwrap();
    assert_eq!(records.len(), 3);
    assert_eq!(records[0].cursor, 2);
}

#[test]
fn wal_read_from_cursor_too_old_after_retention() {
    let mut log = Log::open(Dir::new(), cfg(150, 300)).unwrap();
    for i in 0..30u64 {
        log.append(i, 0, &[0xEF; 32]).unwrap();
    }
    let oldest = log.wal.oldest_cursor();
    assert!(oldest > 0);
    match log.read_from(0) {
        Err(WalError::CursorTooOld { requested: 0, oldest: got }) => {
            assert_eq!(got, oldest);
        }
        other => panic!("expected CursorTooOld, got {:?}", other.map(|_| "Ok")),
    }
}

#[test]
fn read_from_walks_across_segment_boundary() {
    let mut log = Log::open(Dir::new(), cfg(120, 100_000)).unwrap();
    for i in 0..10u64 {
        log.append(i, 0, &i.to_le_bytes()).unwrap();
    }
    let s = log.wal.stats();
    assert!(s.segments >= 2, "test setup needs multi-segment WAL");
    let records = log.read_from(0).unwrap();
    assert_eq!(records.len(), 10);
}

#[test]
fn reopen_resumes_after_existing_segments() {
    let dir = {
        let mut log = Log::open(Dir::new(), cfg(1024, 1_000_000)).unwrap();
        log.append(0, 0, b"a").unwrap();
        log.append(1, 0, b"b").unwrap();
        log.append(2, 0, b"c").unwrap();
        log.dir
    };
    let log = Log::open(dir, cfg(1024, 1_000_000)).unwrap();
    let s = log.wal.stats();
    assert!(s.pending_cursor >= 3, "reopen must resume past existing records");
    // Reading from 0 still yields the originals.
    let records = log.read_from(0).unwrap();
    assert_eq!(records.len(), 3);
    assert_eq!(records[0].cursor, 0);
    assert_eq!(records[2].payload, b"c");
}

#[test]
fn reopened_log_gives_back_the_run() {
    // Two records of one byte in a segment, and room for three segments.
    let cfg = cfg(32 + 2 * 29, 3 * (32 + 2 * 29));
    let mut log = Log::open(Dir::new(), cfg).unwrap();
    for i in 0..11u64 {
        log.append(i, i, &[i as u8]).unwrap();
    }
    let oldest = log.wal.oldest_cursor();
    assert_eq!(oldest, 6);
    let before = log.read_from(oldest).unwrap();
    assert_eq!(before.iter().map(|r| r.cursor).collect::<Vec<_>>(), vec![6, 7, 8, 9, 10]);
    let log = Log::open(log.dir, cfg).unwrap();
    let s = log.wal.stats();
    assert_eq!((s.pending_cursor, s.durable_cursor), (11, 11));
    assert_eq!(log.wal.oldest_cursor(), oldest);
    assert_eq!(log.read_from(oldest).unwrap(), before);
    // At the end, and beyond it.
    for cursor in [11, 12, 1000, u64::MAX] {
        assert!(log.read_from(cursor).unwrap().is_empty());
    }
}

#[test]
fn bump_generation_rotates_immediately() {
    let mut log = Log::open(Dir::new(), cfg(1024, 1_000_000)).unwrap();
    log.append(0, 0, b"x").unwrap();
    let before = log.wal.stats().segments;
    log.bump_generation().unwrap();
    let after = log.wal.stats().segments;
    assert_eq!(after, before + 1, "bump_generation must add one segment");
}

#[test]
fn stats_durable_cursor_matches_each_policy() {
    let mut log = Log::open(Dir::new(), cfg(1024, 1_000_000)).unwrap();
    for i in 0..3u64 {
        log.append(i, 0, b"x").unwrap();
    }
    let s = log.wal.stats();
    assert_eq!(s.durable_cursor, 3, "Each policy: durable == pending");
    assert_eq!(s.pending_cursor, 3);
}

#[test]
fn batched_flusher_advances_durable_cursor() {
    let mut c = cfg(1024, 1_000_000);
    c.fsync_policy = FsyncPolicy::Batched;
    c.fsync_interval = 20_000_000;
    let mut log = Log::open(Dir::new(), c).unwrap();
    for i in 0..3u64 {
        log.append(i, 0, b"x").unwrap();
    }
    // durable_cursor lags pending until the flusher ticks.
    let s = log.wal.stats();
    assert_eq!((s.pending_cursor, s.durable_cursor), (3, 0));
    assert!(log.wal.flush_tick(Ok(())));
    let s = log.wal.stats();
    assert_eq!(s.durable_cursor, s.pending_cursor);
    assert_eq!(s.flushes_total, 1);
}

#[test]
fn torn_tail_is_cut_off_on_reopen() {
    let mut dir = {
        let mut log = Log::open(Dir::new(), cfg(4096, 1_000_000)).unwrap();
        for i in 0..4u64 {
            log.append(i, i, &[i as u8; 10]).unwrap();
        }
        log.dir
    };
    let file = dir.get_mut(&segment_file_name(0)).unwrap();
    let n = file.len();
    file.truncate(n - 7);
    let mut log = Log::open(dir, cfg(4096, 1_000_000)).unwrap();
    assert_eq!(log.wal.pending_cursor(), 3);
    assert_eq!(log.wal.durable_cursor(), 3);
    log.append(3, 9, b"again").unwrap();
    let records = log.read_from(0).unwrap();
    assert_eq!(records.len(), 4);
    assert_eq!(records[3].payload, b"again");
    assert_eq!(records[2].payload, [2u8; 10]);
}

#[test]
fn failed_flush_poisons_the_log() {
    let mut c = cfg(1024, 1_000_000);
    c.fsync_policy = FsyncPolicy::Batched;
    let mut log = Log::open(Dir::new(), c).unwrap();
    log.append(0, 0, b"x").unwrap();
    assert!(!log.wal.flush_tick(Err(IoKind::Other)));
    assert_eq!(log.append(1, 0, b"y"), Err(WalError::Poisoned));
    assert_eq!(log.wal.pending_cursor(), 1);
    assert_eq!(log.wal.durable_cursor(), 0);
}

#[test]
fn failed_sync_fails_the_append() {
    let mut log = Log::open(Dir::new(), cfg(1024, 1_000_000)).unwrap();
    create_file(&mut log.dir, NewSegment { first_cursor: 0, reuse: false }).unwrap();
    log.wal.append(0, 0, b"x", DONE).unwrap();
    let got = log.wal.finish_append(1, Err(IoKind::Other));
    assert_eq!(got, Err(WalError::Writer(WriterError::Io(IoKind::Other))));
    assert_eq!(log.wal.durable_cursor(), 0);
    assert_eq!(log.wal.fsync(Ok(())), Ok(()));
    assert_eq!(log.wal.durable_cursor(), 1);
    let got = log.wal.fsync(Err(IoKind::Other));
    assert_eq!(got, Err(WalError::Writer(WriterError::Io(IoKind::Other))));
}

#[test]
fn refused_appends_change_nothing() {
    let mut log = Log::open(Dir::new(), cfg(1024, 1_000_000)).unwrap();
    log.append(0, 0, b"x").unwrap();
    let big = vec![0u8; MAX_PAYLOAD_LEN + 1];
    assert_eq!(
        log.append(1, 0, &big),
        Err(WalError::PayloadTooLarge { payload_len: MAX_PAYLOAD_LEN + 1 })
    );
    assert_eq!(
        log.append(7, 0, b"y"),
        Err(WalError::Writer(WriterError::CursorRegressed { got: 7, expected: 1 }))
    );
    let s = log.wal.stats();
    assert_eq!((s.pending_cursor, s.appends_total, s.append_bytes_total), (1, 1, 1));
    // A segment that cannot be created.
    let mut log = Log::open(Dir::new(), cfg(1024, 1_000_000)).unwrap();
    let io = AppendIo { created: Err(IoKind::PermissionDenied), ..DONE };
    assert_eq!(
        log.wal.append(0, 0, b"x", io),
        Err(WalError::Writer(WriterError::Io(IoKind::PermissionDenied)))
    );
    assert_eq!(log.wal.stats().segments, 0);
}

#[test]
fn disabled_file_log_takes_nothing() {
    let mut log = Log::open(Dir::new(), WalConfig::disabled()).unwrap();
    log.append(0, 0, b"x").unwrap();
    log.append(17, 0, b"y").unwrap();
    let s = log.wal.stats();
    assert_eq!((s.segments, s.pending_cursor, s.appends_total), (0, 0, 0));
    assert!(log.dir.is_empty());
}

#[test]
fn empty_newest_segment_is_taken_up_again() {
    // A crash right after a rotation leaves a segment without records.
    let dir = {
        let mut log = Log::open(Dir::new(), cfg(1024, 1_000_000)).unwrap();
        log.append(0, 0, b"x").unwrap();
        log.bump_generation().unwrap();
        log.dir
    };
    assert_eq!(dir.len(), 2);
    let mut log = Log::open(dir, cfg(1024, 1_000_000)).unwrap();
    assert_eq!(log.wal.pending_cursor(), 1);
    log.append(1, 0, b"y").unwrap();
    let records = log.read_from(0).unwrap();
    assert_eq!(records.len(), 2);
    assert_eq!(records[1].payload, b"y");
    assert_eq!(log.wal.stats().segments, log.dir.len());
}

#[test]
fn segments_with_records_are_not_replaced() {
    // Two records of one byte in a segment.
    let cfg = cfg(32 + 2 * 29, 1_000_000);
    let exists = Err(WalError::Writer(WriterError::Io(IoKind::AlreadyExists)));
    let mut log = Log::open(Dir::new(), cfg).unwrap();
    for i in 0..4u64 {
        log.append(i, 0, &[i as u8]).unwrap();
    }
    // A rotation to an older segment.
    assert_eq!(log.append(0, 0, b"x"), exists);
    // Then there is no active segment; the older ones stay all the same.
    assert_eq!(log.append(2, 0, b"x"), exists);
    assert_eq!(log.append(0, 0, b"x"), exists);
    log.append(4, 0, &[4]).unwrap();
    let cursors: Vec<u64> = log.read_from(0).unwrap().iter().map(|r| r.cursor).collect();
    assert_eq!(cursors, vec![0, 1, 2, 3, 4]);
    // A record that is too large for an empty segment does not replace it, and the segment
    // is started again for the next one.
    let mut log = Log::open(Dir::new(), cfg).unwrap();
    assert_eq!(log.append(0, 0, &[0; 100]), exists);
    assert_eq!(log.wal.pending_cursor(), 0);
    let mut log = Log::open(log.dir, cfg).unwrap();
    log.append(0, 0, b"x").unwrap();
    assert_eq!(log.read_from(0).unwrap().len(), 1);
    // Neither does a generation bump.
    log.bump_generation().unwrap();
    assert_eq!(log.bump_generation(), exists);
}

#[test]
fn foreign_files_are_left_alone() {
    let mut dir = Dir::new();
    dir.insert("notes.txt".to_string(), vec![1, 2, 3]);
    dir.insert("0.seg.tmp".to_string(), vec![]);
    let log = Log::open(dir, cfg(1024, 1_000_000)).unwrap();
    assert_eq!(log.wal.stats().segments, 0);
    let mut found = WalRecovery::new();
    assert_eq!(found.add_file("notes.txt", Err(IoKind::NotFound)), Ok(None));
    assert_eq!(
        found.add_file(&segment_file_name(0), Err(IoKind::NotFound)),
        Err(WalError::Reader(ReaderError::Io(IoKind::NotFound)))
    );
}

#[test]
fn log_reader_indexes_a_listing() {
    let mut log = Log::open(Dir::new(), cfg(120, 100_000)).unwrap();
    for i in 0..10u64 {
        log.append(i, 0, &i.to_le_bytes()).unwrap();
    }
    let mut names: Vec<String> = log.dir.keys().cloned().collect();
    names.reverse();
    names.push("README".to_string());
    let reader = WalReader::open(Ok(names)).unwrap();
    assert_eq!(reader.segments(), log.dir.len());
    assert_eq!(reader.oldest_cursor(), Some(0));
    let records = log.replay(reader.read_from(4).unwrap()).unwrap();
    let cursors: Vec<u64> = records.iter().map(|r| r.cursor).collect();
    assert_eq!(cursors, vec![4, 5, 6, 7, 8, 9]);
    assert_eq!(WalReader::open(Err(IoKind::Other)).err(), Some(IoKind::Other));
    // A directory that does not exist holds no segments.
    let nothing = WalReader::open(Err(IoKind::NotFound)).unwrap();
    assert_eq!((nothing.segments(), nothing.oldest_cursor()), (0, None));
    assert_eq!(log.replay(nothing.read_from(3).unwrap()), Ok(vec![]));
    // A reader of segments that start later refuses older cursors.
    let late = WalReader::open(Ok(vec![segment_file_name(8), segment_file_name(5)])).unwrap();
    assert_eq!(
        late.read_from(4).err(),
        Some(WalError::CursorTooOld { requested: 4, oldest: 5 })
    );
}

#[test]
fn missing_segment_fails_the_replay() {
    let mut log = Log::open(Dir::new(), cfg(1024, 1_000_000)).unwrap();
    log.append(0, 0, b"x").unwrap();
    let r = log.wal.read_from(0).unwrap();
    log.dir.clear();
    assert_eq!(log.replay(r), Err(WalError::Reader(ReaderError::Io(IoKind::NotFound))));
}

#[test]
fn retention_keeps_the_active_segment_and_the_cap() {
    let mut idx = SegmentIndex::new();
    for (first, size) in [(0u64, 100u64), (10, 100), (20, 100), (30, 100)] {
        idx.insert(first, size);
    }
    // Two of the old ones go, oldest first, and no more than needed.
    assert_eq!(enforce_retention(&mut idx, Some(30), 250), vec![0, 10]);
    assert_eq!(idx.len(), 2);
    // The active segment stays even if it alone exceeds the cap.
    assert_eq!(enforce_retention(&mut idx, Some(30), 50), vec![20]);
    assert_eq!(idx.first(), Some(30));
    assert_eq!(enforce_retention(&mut idx, Some(30), 0), Vec::<u64>::new());
}

#[test]
fn index_keeps_segments_in_order() {
    let mut idx = SegmentIndex::new();
    assert_eq!((idx.len(), idx.first(), idx.last()), (0, None, None));
    idx.insert(20, 3);
    idx.insert(5, 1);
    idx.insert(10, 2);
    idx.insert(10, 7);
    assert_eq!((idx.len(), idx.first(), idx.last()), (3, Some(5), Some(20)));
    assert_eq!(idx.entry(1), (10, 7));
    assert!(idx.contains(10) && !idx.contains(11));
    assert_eq!(idx.total(), 11);
    // The segment that may hold cursor 12, and those after it.
    assert_eq!(idx.from_cursor(12), vec![10, 20]);
    assert_eq!(idx.from_cursor(5), vec![5, 10, 20]);
}
