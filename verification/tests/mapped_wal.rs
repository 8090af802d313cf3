use mmbus::error::IoKind;
use mmbus::wal::config::{FsyncPolicy, WalConfig};
use mmbus::wal::record::{Record, MAX_PAYLOAD_LEN, SEGMENT_HEADER_LEN};
use mmbus::wal::v2::active::ActiveCoord;
use mmbus::wal::v2::mmap_segment_reader::ReaderError;
use mmbus::wal::v2::mmap_segment_writer::{MmapSegmentWriter, WriterError};
use mmbus::wal::v2::rotation::{segment_file_name, RotateError, RotateIo};
use mmbus::wal::v2::wal::{
    AppendIo, ReplayStep, RotatePlan, Wal, WalError, WalRecovery, WalReplayer,
};
use mmbus::wal::wal::NewSegment;
use std::collections::BTreeMap;

/// The segments of a log directory, and its coordination file.
#[derive(Clone, Default)]
struct Dir {
    files: BTreeMap<String, Vec<u8>>,
    coord: Option<Vec<u8>>,
}

const DONE: RotateIo = RotateIo { created: Ok(()), published: Ok(()) };

fn cfg(segment_size_max: usize, retention_bytes: u64) -> WalConfig {
    WalConfig {
        enabled: true,
        fsync_policy: FsyncPolicy::Never,
        segment_size_max,
        retention_bytes,
        ..WalConfig::default()
    }
}

fn create_segment(dir: &mut Dir, new: NewSegment, size: usize) -> Result<(), IoKind> {
    let name = segment_file_name(new.first_cursor);
    if dir.files.contains_key(&name) && !new.reuse {
        return Err(IoKind::AlreadyExists);
    }
    if let Ok(w) = MmapSegmentWriter::create(size, new.first_cursor, Ok(())) {
        let mut mem = vec![0u8; size];
        mem[..SEGMENT_HEADER_LEN].copy_from_slice(&w.header());
        dir.files.insert(name, mem);
    }
    Ok(())
}

/// A log whose segments live in memory.
struct Log {
    dir: Dir,
    wal: Wal,
    size: usize,
}

impl Log {
    fn open(mut dir: Dir, cfg: WalConfig) -> Result<Log, WalError> {
        let mut found = WalRecovery::new();
        if cfg.enabled {
            for (name, mem) in &dir.files {
                found.add_file(name, Ok(mem.len() as u64))?;
            }
            if let Some(newest) = found.newest() {
                found.scan_newest(Ok(&dir.files[&segment_file_name(newest)]));
            }
        }
        let mut io = DONE;
        if let Some(new) = found.needs_segment() {
            io.created = create_segment(&mut dir, new, cfg.segment_size_max);
        }
        let coord = ActiveCoord::open_or_create(dir.coord.as_deref());
        let wal = Wal::open(cfg, found, coord, io)?;
        let mut log = Log { dir, wal, size: cfg.segment_size_max };
        log.dir.coord = Some(log.wal.coord().to_bytes());
        Ok(log)
    }

    fn carry_out(&mut self, plan: RotatePlan) -> RotateIo {
        if let Some(marker) = plan.marker {
            marker.apply(self.dir.files.get_mut(&segment_file_name(plan.old)).unwrap());
        }
        RotateIo { created: create_segment(&mut self.dir, plan.new, self.size), published: Ok(()) }
    }

    fn append(&mut self, cursor: u64, ts: u64, payload: &[u8]) -> Result<(), WalError> {
        let plan = self.wal.plan_append(cursor, payload.len());
        let mut io = AppendIo { create: DONE, rotate: DONE, retry: DONE };
        if let Some(new) = plan.create {
            io.create.created = create_segment(&mut self.dir, new, self.size);
        }
        let started =
            io.create.created.is_ok() && MmapSegmentWriter::check_size(self.size).is_ok();
        if let (true, Some(rotation)) = (started, plan.rotate) {
            io.rotate = self.carry_out(rotation);
        }
        if let (true, Some(rotation)) = (started, plan.retry) {
            io.retry = self.carry_out(rotation);
        }
        let write = self.wal.append(cursor, ts, payload, io)?;
        if let Some(write) = write {
            let active = self.wal.active_segment().unwrap();
            write.apply(self.dir.files.get_mut(&segment_file_name(active)).unwrap());
        }
        self.dir.coord = Some(self.wal.coord().to_bytes());
        for victim in self.wal.finish_append(payload.len(), Ok(()))? {
            self.dir.files.remove(&segment_file_name(victim));
        }
        Ok(())
    }

    fn bump_generation(&mut self) -> Result<(), WalError> {
        let io = match self.wal.plan_bump() {
            Some(plan) => self.carry_out(plan),
            None => DONE,
        };
        self.wal.bump_generation(io)
    }

    fn replay(&self, mut r: WalReplayer) -> Result<Vec<Record>, WalError> {
        let mut all = Vec::new();
        let mut mem: &[u8] = &[];
        loop {
            match r.next(mem) {
                ReplayStep::Open(first) => {
                    let mapped = match self.dir.files.get(&segment_file_name(first)) {
                        Some(m) => {
                            mem = m;
                            Ok(mem)
                        }
                        None => Err(IoKind::NotFound),
                    };
                    if let Some(e) = r.opened(mapped) {
                        return Err(e);
                    }
                }
                ReplayStep::Yield(item) => all.push(item?),
                ReplayStep::End => return Ok(all),
            }
        }
    }

    fn read_from(&self, cursor: u64) -> Result<Vec<Record>, WalError> {
        self.replay(self.wal.read_from(cursor)?)
    }
}

fn cursors(records: &[Record]) -> Vec<u64> {
    records.iter().map(|r| r.cursor).collect()
}

#[test]
fn disabled_wal_is_noop() {
    let c = WalConfig { enabled: false, ..WalConfig::default() };
    let mut w = Log::open(Dir::default(), c).unwrap();
    w.append(0, 0, b"ignored").unwrap();
    assert_eq!(w.wal.pending_cursor(), 0);
    assert_eq!(w.wal.stats().segments, 0);
}

#[test]
fn mapped_wal_open_empty_dir_creates_no_segment_yet() {
    let w = Log::open(Dir::default(), cfg(4096, 1 << 20)).unwrap();
    assert_eq!(w.wal.stats().segments, 0);
    assert_eq!(w.wal.pending_cursor(), 0);
    assert_eq!(w.wal.oldest_cursor(), 0);
    assert!(w.dir.files.is_empty());
}

#[test]
fn mapped_wal_append_creates_first_segment_on_demand() {
    let mut w = Log::open(Dir::default(), cfg(4096, 1 << 20)).unwrap();
    w.append(0, 0xDEAD, b"hello").unwrap();
    let stats = w.wal.stats();
    assert_eq!(stats.segments, 1);
    assert_eq!(stats.pending_cursor, 1);
    assert!(stats.active_segment_bytes > 0);
}

#[test]
fn read_from_returns_appended_records() {
    let mut w = Log::open(Dir::default(), cfg(4096, 1 << 20)).unwrap();
    for i in 0..5u64 {
        w.append(i, i * 1000, format!("rec-{i}").as_bytes()).unwrap();
    }
    let records = w.read_from(0).unwrap();
    assert_eq!(records.len(), 5);
    for (i, r) in records.iter().enumerate() {
        assert_eq!(r.cursor, i as u64);
        assert_eq!(r.ts_unix_nanos, (i as u64) * 1000);
        assert_eq!(r.payload, format!("rec-{i}").as_bytes());
    }
}

#[test]
fn read_from_skips_below_floor() {
    let mut w = Log::open(Dir::default(), cfg(4096, 1 << 20)).unwrap();
    for i in 0..5u64 {
        w.append(i, 0, b"x").unwrap();
    }
    let records = w.read_from(3).unwrap();
    assert_eq!(cursors(&records), vec![3, 4]);
}

#[test]
fn rotation_triggers_when_segment_size_max_exceeded() {
    // Tiny segments so we can rotate with a handful of small
    // appends.  RECORD_FRAMING=28 + payload 8 → aligned 40.
    // header(32) + 2 records (40 each) = 112; cap segment at 112
    // so the 3rd append rotates.
    let mut w = Log::open(Dir::default(), cfg(112, 1 << 20)).unwrap();
    for i in 0..4u64 {
        w.append(i, 0, &i.to_le_bytes()).unwrap();
    }
    let stats = w.wal.stats();
    assert!(stats.segments >= 2, "expected rotation, got {} segments", stats.segments);
    // All 4 records readable.
    let records = w.read_from(0).unwrap();
    assert_eq!(records.len(), 4);
    assert_eq!(cursors(&records), vec![0, 1, 2, 3]);
}

#[test]
fn mapped_wal_read_from_cursor_too_old_after_retention() {
    // Small segments + tiny retention so the first segment gets
    // pruned after a couple of rotations.
    let mut w = Log::open(Dir::default(), cfg(112, 200)).unwrap();
    for i in 0..6u64 {
        w.append(i, 0, &i.to_le_bytes()).unwrap();
    }
    let oldest = w.wal.oldest_cursor();
    assert!(oldest > 0, "expected retention to prune segment 0, oldest = {oldest}");
    match w.read_from(0) {
        Err(WalError::CursorTooOld { requested: 0, .. }) => (),
        Err(e) => panic!("expected CursorTooOld, got Err({e:?})"),
        Ok(_) => panic!("expected CursorTooOld, got Ok(replayer)"),
    }
}

#[test]
fn fsync_each_advances_durable_cursor_inline() {
    let mut c = cfg(4096, 1 << 20);
    c.fsync_policy = FsyncPolicy::Each;
    let mut w = Log::open(Dir::default(), c).unwrap();
    assert_eq!(w.wal.durable_cursor(), 0);
    w.append(0, 0, b"a").unwrap();
    assert_eq!(w.wal.durable_cursor(), 1, "Each should advance durable inline");
    w.append(1, 0, b"b").unwrap();
    assert_eq!(w.wal.durable_cursor(), 2);
}

#[test]
fn batched_flusher_eventually_advances_durable_cursor() {
    let c = WalConfig {
        enabled: true,
        fsync_policy: FsyncPolicy::Batched,
        fsync_interval: 2_000_000,
        segment_size_max: 4096,
        retention_bytes: 1 << 20,
        ..WalConfig::default()
    };
    let mut w = Log::open(Dir::default(), c).unwrap();
    for i in 0..10u64 {
        w.append(i, 0, b"x").unwrap();
    }
    assert_eq!(w.wal.durable_cursor(), 0);
    // The flusher takes the pending cursor down before it flushes; what lands in between
    // is not durable yet.
    let snapshot = w.wal.pending_cursor();
    w.append(10, 0, b"x").unwrap();
    assert!(w.wal.flush_tick(snapshot, Ok(())));
    assert_eq!(w.wal.durable_cursor(), 10);
    assert_eq!(w.wal.pending_cursor(), 11);
}

#[test]
fn bump_generation_rotates_active_segment() {
    let mut w = Log::open(Dir::default(), cfg(4096, 1 << 20)).unwrap();
    w.append(0, 0, b"a").unwrap();
    let segments_before = w.wal.stats().segments;
    w.bump_generation().unwrap();
    let segments_after = w.wal.stats().segments;
    assert_eq!(segments_after, segments_before + 1, "bump should rotate");
    // Subsequent append lands in the new segment.
    w.append(1, 0, b"b").unwrap();
    let records = w.read_from(0).unwrap();
    assert_eq!(cursors(&records), vec![0, 1]);
}

#[test]
fn reopen_picks_up_where_we_left_off() {
    let dir = {
        let mut w = Log::open(Dir::default(), cfg(4096, 1 << 20)).unwrap();
        for i in 0..3u64 {
            w.append(i, 0, b"x").unwrap();
        }
        assert_eq!(w.wal.pending_cursor(), 3);
        w.dir
    };
    // Reopen.
    let mut w = Log::open(dir, cfg(4096, 1 << 20)).unwrap();
    assert_eq!(w.wal.pending_cursor(), 3, "pending_cursor must survive reopen");
    w.append(3, 0, b"after").unwrap();
    assert_eq!(w.wal.pending_cursor(), 4);
    // All four records readable across both segments.
    let records = w.read_from(0).unwrap();
    assert_eq!(records.len(), 4);
    assert_eq!(cursors(&records), vec![0, 1, 2, 3]);
}

#[test]
fn reopened_mapped_log_gives_back_the_run() {
    // Two records in a segment.
    let cfg = cfg(112, 3 * 112);
    let mut w = Log::open(Dir::default(), cfg).unwrap();
    for i in 0..11u64 {
        w.append(i, i, &i.to_le_bytes()).unwrap();
    }
    let oldest = w.wal.oldest_cursor();
    assert!(oldest > 0);
    let before = w.read_from(oldest).unwrap();
    assert_eq!(cursors(&before), (oldest..11).collect::<Vec<_>>());
    let w = Log::open(w.dir, cfg).unwrap();
    let s = w.wal.stats();
    assert_eq!((s.pending_cursor, s.durable_cursor), (11, 11));
    assert_eq!(w.wal.oldest_cursor(), oldest);
    assert_eq!(w.read_from(oldest).unwrap(), before);
    for cursor in [11, 12, 1000, u64::MAX] {
        assert!(w.read_from(cursor).unwrap().is_empty());
    }
}

#[test]
fn stats_reflect_segment_count_and_bytes() {
    let mut w = Log::open(Dir::default(), cfg(112, 1 << 20)).unwrap();
    for i in 0..5u64 {
        w.append(i, 0, &i.to_le_bytes()).unwrap();
    }
    let s = w.wal.stats();
    assert_eq!(s.pending_cursor, 5);
    assert!(s.segments >= 2);
    assert!(s.total_wal_bytes >= s.active_segment_bytes);
    assert_eq!((s.appends_total, s.append_bytes_total), (5, 40));
}

#[test]
fn mapped_segments_with_records_are_not_replaced() {
    let exists = IoKind::AlreadyExists;
    // Two records in a segment: they start at 0 and 2.
    let mut w = Log::open(Dir::default(), cfg(112, 1 << 20)).unwrap();
    for i in 0..4u64 {
        w.append(i, 0, &i.to_le_bytes()).unwrap();
    }
    // A rotation to an older segment.
    assert_eq!(
        w.append(0, 0, &[0; 8]),
        Err(WalError::Rotation(RotateError::Writer(WriterError::Io(exists))))
    );
    // Then there is no active segment; the older ones stay all the same.
    for cursor in [0, 2] {
        assert!(matches!(w.wal.plan_append(cursor, 8).create, Some(new) if !new.reuse));
        assert_eq!(
            w.append(cursor, 0, &[0; 8]),
            Err(WalError::Writer(WriterError::Io(exists)))
        );
    }
    w.append(4, 0, &4u64.to_le_bytes()).unwrap();
    assert_eq!(cursors(&w.read_from(0).unwrap()), vec![0, 1, 2, 3, 4]);
    // A segment without records is started again.
    w.bump_generation().unwrap();
    let mut w = Log::open(w.dir, cfg(112, 1 << 20)).unwrap();
    assert!(matches!(w.wal.plan_append(5, 8).create, Some(new) if new.reuse));
    w.append(5, 0, &5u64.to_le_bytes()).unwrap();
    assert_eq!(cursors(&w.read_from(0).unwrap()), vec![0, 1, 2, 3, 4, 5]);
}

#[test]
fn coordination_file_names_the_active_segment() {
    let mut w = Log::open(Dir::default(), cfg(112, 1 << 20)).unwrap();
    assert_eq!((w.wal.coord().load_first_cursor(), w.wal.coord().load_generation()), (0, 0));
    for i in 0..5u64 {
        w.append(i, 0, &i.to_le_bytes()).unwrap();
    }
    assert_eq!(w.wal.active_segment(), Some(4));
    assert_eq!((w.wal.coord().load_first_cursor(), w.wal.coord().load_generation()), (4, 3));
}

#[test]
fn record_that_fits_no_segment_is_refused() {
    let mut w = Log::open(Dir::default(), cfg(112, 1 << 20)).unwrap();
    assert_eq!(
        w.append(0, 0, &[0u8; 100]),
        Err(WalError::PayloadTooLarge { payload_len: 100 })
    );
    // The log goes on.
    w.append(0, 0, b"small").unwrap();
    assert_eq!(cursors(&w.read_from(0).unwrap()), vec![0]);
    let big = vec![0u8; MAX_PAYLOAD_LEN + 1];
    assert_eq!(
        w.append(1, 0, &big),
        Err(WalError::PayloadTooLarge { payload_len: MAX_PAYLOAD_LEN + 1 })
    );
}

#[test]
fn mapped_log_is_poisoned_by_a_failed_flush() {
    let mut c = cfg(4096, 1 << 20);
    c.fsync_policy = FsyncPolicy::Batched;
    let mut w = Log::open(Dir::default(), c).unwrap();
    w.append(0, 0, b"x").unwrap();
    assert!(!w.wal.flush_tick(1, Err(IoKind::Other)));
    assert_eq!(w.append(1, 0, b"y"), Err(WalError::Poisoned));
    assert_eq!(w.wal.durable_cursor(), 0);
}

#[test]
fn failed_operations_are_reported() {
    let never = AppendIo { create: DONE, rotate: DONE, retry: DONE };
    // The first segment cannot be created.
    let mut w = Log::open(Dir::default(), cfg(4096, 1 << 20)).unwrap();
    let io = AppendIo {
        create: RotateIo { created: Err(IoKind::PermissionDenied), published: Ok(()) },
        ..never
    };
    assert_eq!(
        w.wal.append(0, 0, b"x", io).err(),
        Some(WalError::Writer(WriterError::Io(IoKind::PermissionDenied)))
    );
    // The segment to rotate to cannot be created.
    let mut w = Log::open(Dir::default(), cfg(112, 1 << 20)).unwrap();
    w.append(0, 0, &[0; 8]).unwrap();
    w.append(1, 0, &[0; 8]).unwrap();
    let io = AppendIo {
        rotate: RotateIo { created: Err(IoKind::Other), published: Ok(()) },
        ..never
    };
    assert_eq!(
        w.wal.append(2, 0, &[0; 8], io).err(),
        Some(WalError::Rotation(RotateError::Writer(WriterError::Io(IoKind::Other))))
    );
    // A flush fails under the policy that flushes every record.
    let mut c = cfg(4096, 1 << 20);
    c.fsync_policy = FsyncPolicy::Each;
    let mut w = Log::open(Dir::default(), c).unwrap();
    w.wal.append(0, 0, b"x", never).unwrap();
    assert_eq!(w.wal.finish_append(1, Err(IoKind::Other)), Err(WalError::Io(IoKind::Other)));
    assert_eq!(w.wal.fsync(Err(IoKind::Other)), Err(WalError::Io(IoKind::Other)));
    assert_eq!(w.wal.fsync(Ok(())), Ok(()));
    assert_eq!(w.wal.durable_cursor(), 1);
    // A segment that is too small.
    let mut w = Log::open(Dir::default(), cfg(40, 1 << 20)).unwrap();
    assert_eq!(
        w.append(0, 0, b""),
        Err(WalError::Writer(WriterError::SegmentTooSmall { segment_size: 40, min: 60 }))
    );
}

#[test]
fn recovery_stops_at_a_bad_record() {
    let mut dir = {
        let mut w = Log::open(Dir::default(), cfg(4096, 1 << 20)).unwrap();
        for i in 0..3u64 {
            w.append(i, 0, &i.to_le_bytes()).unwrap();
        }
        w.dir
    };
    // The payload of the last record.
    dir.files.get_mut(&segment_file_name(0)).unwrap()[32 + 2 * 40 + 24] ^= 0xFF;
    let w = Log::open(dir, cfg(4096, 1 << 20)).unwrap();
    assert_eq!(w.wal.pending_cursor(), 2);
    // A replay comes across it too.
    assert!(matches!(
        w.read_from(0),
        Err(WalError::Reader(ReaderError::CrcMismatch { .. }))
    ));
}

#[test]
fn unreadable_directory_entries_are_reported() {
    let mut found = WalRecovery::new();
    assert_eq!(found.add_file("active.dat", Err(IoKind::Other)), Ok(false));
    assert_eq!(
        found.add_file(&segment_file_name(3), Err(IoKind::NotFound)),
        Err(WalError::Io(IoKind::NotFound))
    );
    assert_eq!(found.add_file(&segment_file_name(3), Ok(4096)), Ok(true));
    assert_eq!(found.newest(), Some(3));
    // A segment without records is taken up again.
    assert_eq!(found.next_cursor(), 3);
    assert_eq!(found.needs_segment(), None);
}

#[test]
fn mapped_replay_reports_a_missing_segment() {
    let mut w = Log::open(Dir::default(), cfg(4096, 1 << 20)).unwrap();
    w.append(0, 0, b"x").unwrap();
    let r = w.wal.read_from(0).unwrap();
    w.dir.files.clear();
    assert_eq!(w.replay(r), Err(WalError::Reader(ReaderError::Io(IoKind::NotFound))));
}
