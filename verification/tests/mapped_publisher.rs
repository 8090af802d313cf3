//! A publisher with a log over memory-mapped segments behind its ring.

use mmbus::config::BusConfig;
use mmbus::error::{Error, IoKind};
use mmbus::mapped_publisher::{LogIo, Logged, LoggedBatchIo, LoggedIo, Stores};
use mmbus::publisher::{CreateIo, Publisher};
use mmbus::ring::RingBuffer;
use mmbus::stats::TopicStats;
use mmbus::wal::config::{FsyncPolicy, WalConfig};
use mmbus::wal::record::SEGMENT_HEADER_LEN;
use mmbus::wal::v2::active::ActiveCoord;
use mmbus::wal::v2::mmap_segment_reader::{MmapSegmentReader, ReadOutcome};
use mmbus::wal::v2::mmap_segment_writer::{MmapSegmentWriter, WriterError};
use mmbus::wal::v2::rotation::{segment_file_name, RotateIo};
use mmbus::wal::v2::wal::{AppendIo, ReplayStep, Wal, WalError, WalRecovery};
use mmbus::wal::wal::NewSegment;
use std::collections::BTreeMap;

const DONE: RotateIo = RotateIo { created: Ok(()), published: Ok(()) };
const ALL_DONE: AppendIo = AppendIo { create: DONE, rotate: DONE, retry: DONE };

fn base_cfg(policy: FsyncPolicy) -> BusConfig {
    BusConfig {
        capacity: 16,
        slot_size: 64,
        wal: WalConfig {
            enabled: true,
            fsync_policy: policy,
            fsync_interval: 10_000_000,
            segment_size_max: 4096,
            ..Default::default()
        },
        ..Default::default()
    }
}

/// What is on disk of a topic.
#[derive(Clone, Default)]
struct Disk {
    ring: Option<Vec<u8>>,
    segments: BTreeMap<String, Vec<u8>>,
    coord: Option<Vec<u8>>,
}

struct Topic {
    disk: Disk,
    publisher: Publisher,
    ring: RingBuffer,
    log: Wal,
    size: usize,
}

fn create_segment(disk: &mut Disk, new: NewSegment, size: usize) -> Result<(), IoKind> {
    let name = segment_file_name(new.first_cursor);
    if disk.segments.contains_key(&name) && !new.reuse {
        return Err(IoKind::AlreadyExists);
    }
    let w = MmapSegmentWriter::create(size, new.first_cursor, Ok(())).unwrap();
    let mut mem = vec![0u8; size];
    mem[..SEGMENT_HEADER_LEN].copy_from_slice(&w.header());
    disk.segments.insert(name, mem);
    Ok(())
}

impl Topic {
    fn create(cfg: &BusConfig, mut disk: Disk) -> Topic {
        let size = cfg.wal.segment_size_max;
        let mut found = WalRecovery::new();
        for (name, mem) in &disk.segments {
            found.add_file(name, Ok(mem.len() as u64)).unwrap();
        }
        if let Some(newest) = found.newest() {
            found.scan_newest(Ok(&disk.segments[&segment_file_name(newest)]));
        }
        let mut io = DONE;
        if let Some(new) = found.needs_segment() {
            io.created = create_segment(&mut disk, new, size);
        }
        let coord = ActiveCoord::open_or_create(disk.coord.as_deref());
        let log = Wal::open(cfg.wal, found, coord, io).unwrap();
        let io = CreateIo {
            dir: Ok(()),
            lock: Ok(()),
            ring: Ok(disk.ring.take()),
            log: Ok(log.pending_cursor()),
            socket: Ok(()),
        };
        let (publisher, ring) = Publisher::create(cfg, io).unwrap();
        Topic { disk, publisher, ring, log, size }
    }

    /// Does what the log needs of its files for an append at the tail of the ring.
    fn prepare_files(&mut self, len: usize) -> AppendIo {
        let plan = self.log.plan_append(self.ring.current_tail(), len);
        let mut io = ALL_DONE;
        if let Some(new) = plan.create {
            io.create.created = create_segment(&mut self.disk, new, self.size);
        }
        for (rotation, io) in [(plan.rotate, &mut io.rotate), (plan.retry, &mut io.retry)] {
            if let Some(rotation) = rotation {
                if let Some(marker) = rotation.marker {
                    let old = segment_file_name(rotation.old);
                    marker.apply(self.disk.segments.get_mut(&old).unwrap());
                }
                io.created = create_segment(&mut self.disk, rotation.new, self.size);
            }
        }
        io
    }

    fn store(&mut self, stores: impl IntoIterator<Item = Stores>) {
        for s in stores {
            s.write.apply(self.disk.segments.get_mut(&segment_file_name(s.segment)).unwrap());
        }
    }

    fn publish_flushed(&mut self, data: &[u8], flushed: Result<(), IoKind>) -> Result<(), Error> {
        let refused =
            data.len() > self.ring.slot_payload_size as usize || self.ring.is_full();
        let append = if refused { ALL_DONE } else { self.prepare_files(data.len()) };
        let io = LoggedIo {
            accepted: vec![],
            accept_error: None,
            log: LogIo { append, flushed },
            dead: vec![],
        };
        let Logged { result, stores } =
            self.publisher.publish_mapped(&mut self.ring, &mut self.log, 77, data, io);
        self.store(stores);
        for first in result? {
            self.disk.segments.remove(&segment_file_name(first));
        }
        Ok(())
    }

    fn publish(&mut self, data: &[u8]) -> Result<(), Error> {
        self.publish_flushed(data, Ok(()))
    }

    fn stats(&self) -> TopicStats {
        self.publisher.stats(self.ring.stats(), Some(self.log.stats()))
    }

    /// The publisher is gone; its files stay.
    fn close(self) -> Disk {
        let coord = Some(self.log.coord().to_bytes());
        Disk { ring: Some(self.ring.mem), segments: self.disk.segments, coord }
    }

    /// Everything that a replay from `cursor` on yields.
    fn replay(&self, cursor: u64) -> Vec<(u64, u64, Vec<u8>)> {
        let mut r = self.log.read_from(cursor).unwrap();
        let mut mem: &[u8] = &[];
        let mut out = Vec::new();
        loop {
            match r.next(mem) {
                ReplayStep::End => return out,
                ReplayStep::Yield(item) => {
                    let r = item.unwrap();
                    out.push((r.cursor, r.ts_unix_nanos, r.payload));
                }
                ReplayStep::Open(first) => {
                    mem = &self.disk.segments[&segment_file_name(first)];
                    assert!(r.opened(Ok(mem)).is_none());
                }
            }
        }
    }
}

fn read_wal_records(disk: &Disk) -> Vec<(u64, Vec<u8>)> {
    let mut out = Vec::new();
    for mem in disk.segments.values() {
        let mut r = MmapSegmentReader::open(Ok(mem)).expect("open segment");
        while let ReadOutcome::Record(record) = r.next_record(mem) {
            out.push((record.cursor, record.payload));
        }
    }
    out
}

#[test]
fn mapped_each_policy_appends_and_flushes_before_ring_publish() {
    let mut p = Topic::create(&base_cfg(FsyncPolicy::Each), Disk::default());
    for i in 0..5u64 {
        p.publish(&i.to_le_bytes()).unwrap();
    }
    let wal = p.stats().wal.expect("WAL stats present when WAL enabled");
    assert_eq!(wal.pending_cursor, 5);
    assert_eq!(wal.durable_cursor, 5, "Each policy must advance durable_cursor inline");
    let records = read_wal_records(&p.close());
    assert_eq!(records.len(), 5);
    for (i, (cursor, payload)) in records.iter().enumerate() {
        assert_eq!(*cursor, i as u64);
        assert_eq!(payload, &(i as u64).to_le_bytes());
    }
}

#[test]
fn mapped_batched_policy_durable_cursor_advances_via_flusher() {
    let mut p = Topic::create(&base_cfg(FsyncPolicy::Batched), Disk::default());
    for i in 0..3u64 {
        p.publish(&i.to_le_bytes()).unwrap();
    }
    let s = p.stats().wal.expect("wal stats");
    assert_eq!((s.pending_cursor, s.durable_cursor), (3, 0));
    assert!(p.log.flush_tick(s.pending_cursor, Ok(())));
    let s = p.stats().wal.expect("wal stats");
    assert!(s.durable_cursor == s.pending_cursor && s.pending_cursor == 3);
}

#[test]
fn mapped_none_policy_appends_without_inline_flush() {
    let mut p = Topic::create(&base_cfg(FsyncPolicy::Never), Disk::default());
    for i in 0..4u64 {
        p.publish(&[i as u8; 8]).unwrap();
    }
    let s = p.stats().wal.expect("wal stats");
    assert_eq!((s.pending_cursor, s.durable_cursor, s.flushes_total), (4, 0, 0));
}

#[test]
fn mapped_ring_tail_aligns_with_wal_pending_cursor_on_restart() {
    let cfg = base_cfg(FsyncPolicy::Each);
    let disk = {
        let mut p = Topic::create(&cfg, Disk::default());
        for i in 0..7u64 {
            p.publish(&i.to_le_bytes()).unwrap();
        }
        assert_eq!(p.stats().ring.tail, 7);
        p.close()
    };
    let s = Topic::create(&cfg, disk).stats();
    assert_eq!(s.ring.tail, 7, "ring tail must align with WAL pending cursor");
    assert_eq!(s.wal.expect("wal stats").pending_cursor, 7);
}

#[test]
fn mapped_publishers_resume_at_the_number_of_messages() {
    let mut cfg = base_cfg(FsyncPolicy::Each);
    // Room for two records of eight bytes in a segment.
    cfg.wal.segment_size_max = 32 + 2 * 40;
    let mut disk = Disk::default();
    let mut total: u64 = 0;
    for n in [0, 3, 0, 4, 1u64] {
        let mut p = Topic::create(&cfg, disk);
        assert_eq!(p.ring.current_tail(), total);
        for i in total..total + n {
            p.publish(&i.to_le_bytes()).unwrap();
            // One that is refused does not count.
            assert!(matches!(p.publish(&[0; 65]), Err(Error::TooLarge { .. })));
        }
        total += n;
        assert_eq!(p.stats().ring.tail, total);
        for from in 0..=total + 1 {
            let want: Vec<_> = (from..total).map(|i| (i, 77, i.to_le_bytes().to_vec())).collect();
            assert_eq!(p.replay(from), want);
        }
        disk = p.close();
    }
    assert_eq!(Topic::create(&cfg, disk).ring.current_tail(), 8);
}

#[test]
fn mapped_log_that_fails_spares_the_ring() {
    let mut p = Topic::create(&base_cfg(FsyncPolicy::Each), Disk::default());
    p.publish(b"a").unwrap();
    // The segment cannot be flushed: the record stays in the log, the message does not
    // reach the ring.
    assert_eq!(
        p.publish_flushed(b"b", Err(IoKind::Other)),
        Err(Error::MappedWal(WalError::Io(IoKind::Other)))
    );
    assert_eq!((p.ring.current_tail(), p.log.pending_cursor()), (1, 2));
    assert_eq!(p.replay(0), vec![(0, 77, b"a".to_vec()), (1, 77, b"b".to_vec())]);
    // The first segment cannot be created: nothing is stored.
    let mut p = Topic::create(&base_cfg(FsyncPolicy::Each), Disk::default());
    let create = RotateIo { created: Err(IoKind::PermissionDenied), ..DONE };
    let io = LoggedIo {
        accepted: vec![],
        accept_error: None,
        log: LogIo { append: AppendIo { create, ..ALL_DONE }, flushed: Ok(()) },
        dead: vec![],
    };
    let r = p.publisher.publish_mapped(&mut p.ring, &mut p.log, 0, b"a", io);
    let e = WalError::Writer(WriterError::Io(IoKind::PermissionDenied));
    assert_eq!((r.result, r.stores), (Err(Error::MappedWal(e)), None));
    assert_eq!((p.ring.current_tail(), p.log.pending_cursor()), (0, 0));
}

#[test]
fn mapped_full_ring_leaves_no_record_in_the_log() {
    let mut p = Topic::create(&base_cfg(FsyncPolicy::Each), Disk::default());
    p.ring.claim_cursor(0).unwrap();
    for i in 0..16u64 {
        p.publish(&i.to_le_bytes()).unwrap();
    }
    assert_eq!(p.publish(b"x"), Err(Error::Full));
    assert_eq!((p.ring.current_tail(), p.log.pending_cursor()), (16, 16));
    assert_eq!(read_wal_records(&p.close()).len(), 16);
}

#[test]
fn mapped_batch_counts_what_it_published() {
    let mut p = Topic::create(&base_cfg(FsyncPolicy::Each), Disk::default());
    let create = p.prepare_files(1);
    let items: Vec<Vec<u8>> = vec![b"a".to_vec(), b"bb".to_vec(), vec![0; 65], b"d".to_vec()];
    let log = vec![
        (1, LogIo { append: create, flushed: Ok(()) }),
        (2, LogIo { append: ALL_DONE, flushed: Ok(()) }),
        (3, LogIo { append: ALL_DONE, flushed: Ok(()) }),
        (4, LogIo { append: ALL_DONE, flushed: Ok(()) }),
    ];
    let io = LoggedBatchIo { accepted: vec![], accept_error: None, log, dead: vec![] };
    let r = p.publisher.publish_many_mapped(&mut p.ring, &mut p.log, &items, io);
    assert_eq!(r.result, Err(Error::TooLarge { size: 65, max: 64 }));
    assert_eq!((r.deleted, r.stores.len()), (vec![], 2));
    p.store(r.stores);
    assert_eq!(p.ring.current_tail(), 2);
    assert_eq!(p.replay(0), vec![(0, 1, b"a".to_vec()), (1, 2, b"bb".to_vec())]);
    // A flush that fails ends the batch: its record is stored all the same.
    let io = LoggedBatchIo {
        accepted: vec![],
        accept_error: None,
        log: vec![
            (5, LogIo { append: ALL_DONE, flushed: Ok(()) }),
            (6, LogIo { append: ALL_DONE, flushed: Err(IoKind::Other) }),
        ],
        dead: vec![],
    };
    let items: Vec<Vec<u8>> = vec![b"c".to_vec(), b"d".to_vec()];
    let r = p.publisher.publish_many_mapped(&mut p.ring, &mut p.log, &items, io);
    assert_eq!(r.result, Err(Error::MappedWal(WalError::Io(IoKind::Other))));
    assert_eq!(r.stores.len(), 2);
    p.store(r.stores);
    assert_eq!((p.ring.current_tail(), p.replay(2).len()), (3, 2));
}
