//! A publisher with a log behind its ring: records reach the log before the ring, the ring
//! goes on where the log does, and recovery copes with a torn tail.

use mmbus::config::BusConfig;
use mmbus::error::{Error, IoKind};
use mmbus::logged_publisher::{LogIo, LoggedBatchIo, LoggedIo};
use mmbus::publisher::{CreateIo, PublishIo, Publisher};
use mmbus::ring::RingBuffer;
use mmbus::stats::TopicStats;
use mmbus::wal::config::{FsyncPolicy, WalConfig};
use mmbus::wal::flusher::{Flusher, FlusherStep, MAX_NAP};
use mmbus::wal::segment_reader::SegmentReader;
use mmbus::wal::v2::rotation::segment_file_name;
use mmbus::subscriber::{ConnectIo, StartPos, Subscriber};
use mmbus::wal::segment_writer::WriterError;
use mmbus::wal::wal::{AppendIo, NewSegment, ReplayStep, Wal, WalError, WalRecovery};
use std::collections::BTreeMap;

fn base_cfg(policy: FsyncPolicy) -> BusConfig {
    BusConfig {
        capacity: 16,
        slot_size: 64,
        wal: WalConfig {
            enabled: true,
            fsync_policy: policy,
            fsync_interval: 10_000_000,
            ..Default::default()
        },
        ..Default::default()
    }
}

/// What is on disk of a topic.
#[derive(Clone, Default)]
struct Disk {
    ring: Option<Vec<u8>>,
    wal: BTreeMap<String, Vec<u8>>,
}

struct Topic {
    disk: Disk,
    publisher: Publisher,
    ring: RingBuffer,
    log: Option<Wal>,
}

fn create_file(disk: &mut Disk, new: NewSegment) -> Result<(), IoKind> {
    let name = segment_file_name(new.first_cursor);
    if disk.wal.contains_key(&name) && !new.reuse {
        return Err(IoKind::AlreadyExists);
    }
    disk.wal.insert(name, Vec::new());
    Ok(())
}

fn write_out(disk: &mut Disk, log: &mut Wal) {
    let active = log.active_segment();
    let bytes = log.take_buffered();
    if let Some(first) = active {
        disk.wal.get_mut(&segment_file_name(first)).unwrap().extend(bytes);
    }
}

impl Topic {
    fn create(cfg: &BusConfig, mut disk: Disk) -> Topic {
        let mut log = None;
        if cfg.wal.enabled {
            let mut found = WalRecovery::new();
            for (name, file) in disk.wal.iter_mut() {
                if let Some(report) = found.add_file(name, Ok(file.clone())).unwrap() {
                    file.truncate(report.final_len as usize);
                }
            }
            let created = match found.needs_segment() {
                Some(new) => create_file(&mut disk, new),
                None => Ok(()),
            };
            let mut wal = Wal::open(cfg.wal, found, created).unwrap();
            write_out(&mut disk, &mut wal);
            log = Some(wal);
        }
        let io = CreateIo {
            dir: Ok(()),
            lock: Ok(()),
            ring: Ok(disk.ring.take()),
            log: Ok(log.as_ref().map_or(0, |w| w.pending_cursor())),
            socket: Ok(()),
        };
        let (publisher, ring) = Publisher::create(cfg, io).unwrap();
        Topic { disk, publisher, ring, log }
    }

    /// Does what the log needs of its files for an append at the tail of the ring.
    fn prepare_files(&mut self, len: usize) -> AppendIo {
        let mut io = AppendIo { created: Ok(()), closed: Ok(()), rotated: Ok(()), written: Ok(()) };
        let wal = self.log.as_mut().unwrap();
        let plan = wal.plan_append(self.ring.current_tail(), len);
        write_out(&mut self.disk, wal);
        if let Some(new) = plan.create {
            io.created = create_file(&mut self.disk, new);
        }
        if let Some(new) = plan.rotate {
            io.rotated = create_file(&mut self.disk, new);
        }
        io
    }

    fn publish_synced(&mut self, data: &[u8], synced: Result<(), IoKind>) -> Result<(), Error> {
        if self.log.is_none() {
            let io =
                PublishIo { accepted: vec![], accept_error: None, logged: Ok(()), dead: vec![] };
            return self.publisher.publish(&mut self.ring, data, io);
        }
        let too_large = data.len() > self.ring.slot_payload_size as usize;
        let append = if too_large || self.ring.is_full() {
            AppendIo { created: Ok(()), closed: Ok(()), rotated: Ok(()), written: Ok(()) }
        } else {
            self.prepare_files(data.len())
        };
        let io = LoggedIo {
            accepted: vec![],
            accept_error: None,
            log: LogIo { append, synced },
            dead: vec![],
        };
        let wal = self.log.as_mut().unwrap();
        let result = self.publisher.publish_logged(&mut self.ring, wal, 77, data, io);
        write_out(&mut self.disk, wal);
        for first in result? {
            self.disk.wal.remove(&segment_file_name(first));
        }
        Ok(())
    }

    fn publish(&mut self, data: &[u8]) -> Result<(), Error> {
        self.publish_synced(data, Ok(()))
    }

    fn stats(&self) -> TopicStats {
        self.publisher.stats(self.ring.stats(), self.log.as_ref().map(|w| w.stats()))
    }

    /// The publisher is gone; its files stay.
    fn close(self) -> Disk {
        Disk { ring: Some(self.ring.mem), wal: self.disk.wal }
    }
}

fn read_wal_records(disk: &Disk) -> Vec<(u64, Vec<u8>)> {
    let mut out = Vec::new();
    for file in disk.wal.values() {
        let mut r = SegmentReader::open(Ok(file.clone())).expect("open segment");
        while let Some(record) = r.next_record() {
            let record = record.expect("decode record");
            out.push((record.cursor, record.payload));
        }
    }
    out
}

#[test]
fn each_policy_appends_and_fsyncs_before_ring_publish() {
    let cfg = base_cfg(FsyncPolicy::Each);
    let mut p = Topic::create(&cfg, Disk::default());
    for i in 0..5u64 {
        p.publish(&i.to_le_bytes()).unwrap();
    }
    let stats = p.stats();
    let wal = stats.wal.expect("WAL stats present when WAL enabled");
    assert_eq!(wal.pending_cursor, 5);
    assert_eq!(wal.durable_cursor, 5, "Each policy must advance durable_cursor inline");
    // After drop, the on-disk records survive and decode.
    let records = read_wal_records(&p.close());
    assert_eq!(records.len(), 5);
    for (i, (cursor, payload)) in records.iter().enumerate() {
        assert_eq!(*cursor, i as u64);
        assert_eq!(payload, &(i as u64).to_le_bytes());
    }
}

#[test]
fn batched_policy_durable_cursor_advances_via_flusher() {
    let cfg = base_cfg(FsyncPolicy::Batched);
    let mut p = Topic::create(&cfg, Disk::default());
    let mut flusher = Flusher::new(cfg.wal.fsync_interval, cfg.wal.fsync_batch_bytes, 0, 0);
    for i in 0..3u64 {
        p.publish(&i.to_le_bytes()).unwrap();
    }
    // pending_cursor is immediate; durable_cursor catches up after the
    // flusher tick.
    let s = p.stats().wal.expect("wal stats");
    assert_eq!((s.pending_cursor, s.durable_cursor), (3, 0));
    assert_eq!(flusher.step(false, 4_000_000, s.append_bytes_total), FlusherStep::Sleep(6_000_000));
    assert_eq!(flusher.step(false, 10_000_000, s.append_bytes_total), FlusherStep::Flush);
    assert!(p.log.as_mut().unwrap().flush_tick(Ok(())));
    let s = p.stats().wal.expect("wal stats");
    assert!(s.durable_cursor == s.pending_cursor && s.pending_cursor == 3);
}

#[test]
fn flusher_keeps_interval_and_batch() {
    let mut f = Flusher::new(200_000_000, 100, 1_000, 7);
    assert_eq!(f.step(false, 1_000, 7), FlusherStep::Sleep(MAX_NAP));
    // 100 bytes are a batch, 101 are too many.
    assert_eq!(f.step(false, 1_000, 107), FlusherStep::Sleep(MAX_NAP));
    assert_eq!(f.step(false, 2_000, 108), FlusherStep::Flush);
    assert_eq!(f.step(false, 200_001_999, 108), FlusherStep::Sleep(1));
    assert_eq!(f.step(false, 200_002_000, 108), FlusherStep::Flush);
    assert_eq!(f.step(true, 900_000_000, 500), FlusherStep::Stop);
    // The count of bytes wraps around.
    let mut f = Flusher::new(1_000, 100, 0, u64::MAX - 1);
    assert_eq!(f.step(false, 0, 98), FlusherStep::Sleep(1_000));
    assert_eq!(f.step(false, 0, 99), FlusherStep::Flush);
}

#[test]
fn none_policy_appends_without_inline_fsync() {
    let cfg = base_cfg(FsyncPolicy::Never);
    let mut p = Topic::create(&cfg, Disk::default());
    for i in 0..4u64 {
        p.publish(&[i as u8; 8]).unwrap();
    }
    let s = p.stats().wal.expect("wal stats");
    assert_eq!(s.pending_cursor, 4);
    assert_eq!((s.durable_cursor, s.flushes_total), (0, 0));
}

#[test]
fn ring_tail_aligns_with_wal_pending_cursor_on_restart() {
    let cfg = base_cfg(FsyncPolicy::Each);
    let disk = {
        let mut p = Topic::create(&cfg, Disk::default());
        for i in 0..7u64 {
            p.publish(&i.to_le_bytes()).unwrap();
        }
        assert_eq!(p.stats().ring.tail, 7);
        p.close()
    };
    // Reopen.  Without WAL alignment the ring would start at 0; with
    // WAL alignment it resumes at 7.
    let p2 = Topic::create(&cfg, disk);
    let s = p2.stats();
    assert_eq!(s.ring.tail, 7, "ring tail must align with WAL pending cursor");
    let w = s.wal.expect("wal stats");
    assert_eq!(w.pending_cursor, 7);
}

#[test]
fn restart_after_torn_tail_drops_corrupt_records_and_resumes() {
    let cfg = base_cfg(FsyncPolicy::Each);
    let mut disk = {
        let mut p = Topic::create(&cfg, Disk::default());
        for i in 0..6u64 {
            p.publish(&i.to_le_bytes()).unwrap();
        }
        p.close()
    };
    // Corrupt the active segment: chop the final 3 bytes.
    let active = disk.wal.values_mut().last().expect("at least one segment");
    let orig_len = active.len();
    active.truncate(orig_len - 3);

    let mut p2 = Topic::create(&cfg, disk);
    let s = p2.stats();
    let wal = s.wal.expect("wal");
    assert!(
        wal.pending_cursor < 6,
        "torn tail must have been dropped (got pending_cursor={})",
        wal.pending_cursor
    );
    assert_eq!(s.ring.tail, wal.pending_cursor);
    // A subsequent publish appends at the new cursor.
    p2.publish(b"again").unwrap();
    let records = read_wal_records(&p2.close());
    assert_eq!(records.len(), 6);
    assert_eq!(records[5], (5, b"again".to_vec()));
}

#[test]
fn disabled_wal_leaves_publisher_and_stats_unchanged() {
    let cfg = BusConfig {
        capacity: 16,
        slot_size: 32,
        wal: WalConfig::disabled(),
        ..Default::default()
    };
    let mut p = Topic::create(&cfg, Disk::default());
    p.publish(b"x").unwrap();
    let s = p.stats();
    assert!(s.wal.is_none(), "WAL disabled — stats.wal must be None");
    // No wal directory should appear.
    assert!(p.close().wal.is_empty(), "nothing should be logged with WAL disabled");
}

#[test]
fn wal_appends_total_ticks_per_published_record() {
    let cfg = BusConfig {
        capacity: 16,
        slot_size: 32,
        wal: WalConfig::batched(),
        ..Default::default()
    };
    let mut p = Topic::create(&cfg, Disk::default());
    for _ in 0..3 {
        p.publish(b"x").unwrap();
    }
    let s = p.stats().wal.expect("wal enabled");
    assert_eq!(s.appends_total, 3);
    assert_eq!(s.append_bytes_total, 3);
}

#[test]
fn wal_flushes_total_ticks_under_each_policy() {
    let mut cfg = BusConfig {
        capacity: 16,
        slot_size: 32,
        wal: WalConfig::batched(),
        ..Default::default()
    };
    cfg.wal.fsync_policy = FsyncPolicy::Each;
    let mut p = Topic::create(&cfg, Disk::default());
    for _ in 0..4 {
        p.publish(b"x").unwrap();
    }
    let s = p.stats().wal.expect("wal enabled");
    // Each policy fsyncs inline per publish.
    assert_eq!(s.flushes_total, 4);
}

/// Everything that a replay from `cursor` on yields.
fn replay(p: &Topic, cursor: u64) -> Vec<(u64, u64, Vec<u8>)> {
    let mut replayer = p.log.as_ref().unwrap().read_from(cursor).unwrap();
    let mut out = Vec::new();
    loop {
        match replayer.next() {
            ReplayStep::End => return out,
            ReplayStep::Yield(item) => {
                let r = item.unwrap();
                out.push((r.cursor, r.ts_unix_nanos, r.payload));
            }
            ReplayStep::Open(first) => {
                let file = p.disk.wal[&segment_file_name(first)].clone();
                assert!(replayer.opened(Ok(file)).is_none());
            }
        }
    }
}

#[test]
fn log_gives_back_what_was_published_across_rotations_and_restarts() {
    let mut cfg = base_cfg(FsyncPolicy::Each);
    // Room for two records of eight bytes in a segment.
    cfg.wal.segment_size_max = 32 + 2 * (28 + 8);
    let mut p = Topic::create(&cfg, Disk::default());
    for i in 0..5u64 {
        p.publish(&i.to_le_bytes()).unwrap();
    }
    assert_eq!(p.disk.wal.len(), 3);
    let mut p = Topic::create(&cfg, p.close());
    for i in 5..9u64 {
        p.publish(&i.to_le_bytes()).unwrap();
    }
    assert_eq!(p.stats().ring.tail, 9);
    for from in 0..=9u64 {
        let want: Vec<_> = (from..9).map(|i| (i, 77, i.to_le_bytes().to_vec())).collect();
        assert_eq!(replay(&p, from), want);
    }
}

#[test]
fn publishers_resume_at_the_number_of_messages() {
    let mut cfg = base_cfg(FsyncPolicy::Each);
    cfg.wal.segment_size_max = 32 + 2 * (28 + 8);
    let mut disk = Disk::default();
    let mut total: u64 = 0;
    for n in [0, 3, 0, 4, 1u64] {
        let mut p = Topic::create(&cfg, disk);
        assert_eq!(p.ring.current_tail(), total);
        for i in 0..n {
            p.publish(&i.to_le_bytes()).unwrap();
            // One that is refused does not count.
            assert!(matches!(p.publish(&[0; 65]), Err(Error::TooLarge { .. })));
        }
        total += n;
        assert_eq!(p.stats().ring.tail, total);
        disk = p.close();
    }
    assert_eq!(Topic::create(&cfg, disk.clone()).ring.current_tail(), 8);
    // Without its log a topic starts anew.
    cfg.wal.enabled = false;
    assert_eq!(Topic::create(&cfg, disk).ring.current_tail(), 0);
}

#[test]
fn full_ring_leaves_no_record_in_the_log() {
    let mut cfg = base_cfg(FsyncPolicy::Each);
    cfg.capacity = 2;
    let mut p = Topic::create(&cfg, Disk::default());
    p.ring.claim_cursor(0).unwrap();
    p.publish(b"a").unwrap();
    p.publish(b"b").unwrap();
    assert_eq!(p.publish(b"c"), Err(Error::Full));
    let s = p.stats();
    assert_eq!((s.full_rejected_total, s.published_total, s.ring.tail), (1, 2, 2));
    assert_eq!(s.wal.unwrap().pending_cursor, 2);
    assert_eq!(replay(&p, 0).len(), 2);
}

#[test]
fn message_that_the_log_does_not_take_stays_out_of_the_ring() {
    let cfg = base_cfg(FsyncPolicy::Each);
    let mut p = Topic::create(&cfg, Disk::default());
    p.publish(b"a").unwrap();
    let failed = Err(Error::Wal(WalError::Writer(WriterError::Io(IoKind::Other))));
    assert_eq!(p.publish_synced(b"b", Err(IoKind::Other)), failed);
    assert_eq!(p.stats().ring.tail, 1);
    assert_eq!(p.stats().published_total, 1);
    // The record was appended before its sync failed, so the cursors no longer run on.
    assert_eq!(
        p.publish(b"c"),
        Err(Error::Wal(WalError::Writer(WriterError::CursorRegressed { got: 1, expected: 2 })))
    );
    assert!(matches!(p.publish(&[0; 65]), Err(Error::TooLarge { size: 65, max: 64 })));
}

#[test]
fn logged_batch_counts_what_it_published() {
    let mut cfg = base_cfg(FsyncPolicy::Never);
    cfg.capacity = 4;
    let mut p = Topic::create(&cfg, Disk::default());
    p.ring.claim_cursor(0).unwrap();
    let fine = LogIo {
        append: AppendIo { created: Ok(()), closed: Ok(()), rotated: Ok(()), written: Ok(()) },
        synced: Ok(()),
    };
    let first = p.prepare_files(1);
    let io = |n: usize, broken: Option<usize>| LoggedBatchIo {
        accepted: vec![],
        accept_error: None,
        log: (0..n)
            .map(|i| {
                let mut log = fine;
                log.append.created = first.created;
                if broken == Some(i) {
                    log.append.written = Err(IoKind::Other);
                }
                (100 + i as u64, log)
            })
            .collect(),
        dead: vec![],
    };
    let items = |ms: &[&[u8]]| ms.iter().map(|m| m.to_vec()).collect::<Vec<_>>();
    let wal = p.log.as_mut().unwrap();
    // The log takes one record, then fails.
    let r = p.publisher.publish_many_logged(
        &mut p.ring,
        wal,
        &items(&[b"a", b"b", b"c"]),
        io(3, Some(1)),
    );
    assert_eq!(r.result, Err(Error::Wal(WalError::Writer(WriterError::Io(IoKind::Other)))));
    assert_eq!((p.ring.current_tail(), wal.pending_cursor()), (1, 1));
    // The ring has room for three more.
    let r = p.publisher.publish_many_logged(
        &mut p.ring,
        wal,
        &items(&[b"b", b"c", b"d", b"e"]),
        io(4, None),
    );
    assert_eq!(r.result, Ok(3));
    assert!(r.deleted.is_empty());
    assert_eq!((p.ring.current_tail(), wal.pending_cursor()), (4, 4));
    // An item that is too large ends the batch.
    let r = p.publisher.publish_many_logged(&mut p.ring, wal, &vec![vec![0; 65]], io(1, None));
    assert_eq!(r.result, Err(Error::TooLarge { size: 65, max: 64 }));
    write_out(&mut p.disk, wal);
    let payloads: Vec<_> = replay(&p, 0).into_iter().map(|r| r.2).collect();
    assert_eq!(payloads, items(&[b"a", b"b", b"c", b"d"]));
    assert_eq!(p.stats().published_total, 4);
}

#[test]
fn subscriber_keeps_behind_the_durable_cursor() {
    let cfg = base_cfg(FsyncPolicy::Batched);
    let mut p = Topic::create(&cfg, Disk::default());
    let hands = ConnectIo { eventfd: Ok(()), connected: true, passed: Ok(()) };
    let mut sub =
        Subscriber::connect_with(&mut p.ring, "topic", StartPos::Now, hands).unwrap();
    p.publish(b"a").unwrap();
    p.publish(b"b").unwrap();
    let durable = p.log.as_ref().unwrap().durable_cursor();
    assert_eq!(durable, 0);
    assert_eq!(sub.try_receive_durable(&mut p.ring, durable), None);
    assert!(p.log.as_mut().unwrap().flush_tick(Ok(())));
    let durable = p.log.as_ref().unwrap().durable_cursor();
    assert_eq!(durable, 2);
    p.publish(b"c").unwrap();
    assert_eq!(sub.try_receive_durable(&mut p.ring, durable), Some(b"a".to_vec()));
    assert_eq!(sub.try_receive_durable(&mut p.ring, durable), Some(b"b".to_vec()));
    assert_eq!(sub.try_receive_durable(&mut p.ring, durable), None);
    assert_eq!(sub.try_receive(&mut p.ring), Some(b"c".to_vec()));
}
