use mmbus::config::{BackpressurePolicy, BusConfig};
use mmbus::error::{Error, IoKind};
use mmbus::producer_lock::{acquire_producer_lock, LockTable};
use mmbus::publisher::{
    aligned_tail, lagging, BatchIo, BatchStep, CreateIo, PublishIo, Publisher, WaitStep,
};
use mmbus::ring::RingBuffer;
use mmbus::rows::RowError;
use mmbus::stats::TopicStats;
use mmbus::subscriber::{
    connect_step, remaining_ms, start_cursor, ConnectIo, ConnectStep, ReceiveIntoStep,
    ReceiveStep, StartPos, Subscriber,
};
use mmbus::wal::config::WalConfig;
use mmbus::waker::{drain_outcome, poll_outcome, PollStep};

fn cfg(capacity: u32, slot_size: u32) -> BusConfig {
    BusConfig { capacity, slot_size, ..Default::default() }
}

fn set_up(existing: Option<Vec<u8>>) -> CreateIo {
    CreateIo { dir: Ok(()), lock: Ok(()), ring: Ok(existing), log: Ok(0), socket: Ok(()) }
}

fn quiet() -> PublishIo {
    PublishIo { accepted: vec![], accept_error: None, logged: Ok(()), dead: vec![] }
}

fn shaken_hands() -> ConnectIo {
    ConnectIo { eventfd: Ok(()), connected: true, passed: Ok(()) }
}

/// A publisher, its ring, and the numbers that it gives its clients.
struct Topic {
    publisher: Publisher,
    ring: RingBuffer,
    connected: u64,
}

impl Topic {
    fn create(cfg: &BusConfig) -> Topic {
        Topic::restart(cfg, None)
    }

    /// A publisher that finds this memory.
    fn restart(cfg: &BusConfig, existing: Option<Vec<u8>>) -> Topic {
        let (publisher, ring) = Publisher::create(cfg, set_up(existing)).unwrap();
        Topic { publisher, ring, connected: 0 }
    }

    fn connect(&mut self, start: StartPos) -> Result<Subscriber, Error> {
        let sub = Subscriber::connect_with(&mut self.ring, "bus", start, shaken_hands())?;
        self.connected += 1;
        self.publisher.add_client(self.connected);
        Ok(sub)
    }

    fn publish(&mut self, data: &[u8]) -> Result<(), Error> {
        self.publisher.publish(&mut self.ring, data, quiet())
    }

    fn publish_many(&mut self, items: &[Vec<u8>]) -> Result<usize, Error> {
        let io = BatchIo { accepted: vec![], accept_error: None, log_error: None, dead: vec![] };
        self.publisher.publish_many(&mut self.ring, &items.to_vec(), io)
    }

    fn receive(&mut self, sub: &mut Subscriber) -> Vec<u8> {
        match sub.receive(&mut self.ring) {
            ReceiveStep::Message(msg) => msg,
            other => panic!("expected a message, got {other:?}"),
        }
    }

    fn stats(&self) -> TopicStats {
        self.publisher.stats(self.ring.stats(), None)
    }
}

fn number(bytes: Vec<u8>) -> u64 {
    u64::from_le_bytes(bytes.try_into().expect("wrong msg length"))
}

// ── One subscriber ───────────────────────────────────────────────────────────

#[test]
fn single_message_roundtrip() {
    let mut t = Topic::create(&cfg(32, 128));
    let mut sub = t.connect(StartPos::Now).unwrap();
    t.publish(b"hello world").unwrap();
    assert_eq!(t.receive(&mut sub), b"hello world");
}

#[test]
fn multi_message_ordered() {
    let n = 200usize;
    let mut t = Topic::create(&cfg(32, 128));
    let mut sub = t.connect(StartPos::Now).unwrap();
    let mut received = Vec::new();
    for i in 0..n {
        loop {
            match t.publish(format!("msg-{i:04}").as_bytes()) {
                Ok(()) => break,
                Err(Error::Full) => received.push(t.receive(&mut sub)),
                Err(e) => panic!("{e:?}"),
            }
        }
    }
    while let Some(msg) = sub.try_receive(&mut t.ring) {
        received.push(msg);
    }
    assert_eq!(received.len(), n);
    for (i, msg) in received.iter().enumerate() {
        assert_eq!(msg.as_slice(), format!("msg-{i:04}").as_bytes(), "message {i}");
    }
}

#[test]
fn empty_message() {
    let mut t = Topic::create(&cfg(32, 128));
    let mut sub = t.connect(StartPos::Now).unwrap();
    t.publish(b"").unwrap();
    assert_eq!(t.receive(&mut sub), b"");
}

#[test]
fn message_at_max_slot_size() {
    let cfg = cfg(32, 128);
    let max = cfg.slot_size as usize;
    let payload: Vec<u8> = (0..max).map(|i| (i % 251) as u8).collect();
    let expected = payload.clone();
    let mut t = Topic::create(&cfg);
    let mut sub = t.connect(StartPos::Now).unwrap();
    t.publish(&payload).unwrap();
    assert_eq!(t.receive(&mut sub), expected);
}

#[test]
fn ring_full_returns_error() {
    // A subscriber that connects but never reads holds the ring at capacity.
    // Without an active cursor the producer has no backpressure — we need
    // at least one subscriber for Full to be returned.
    let mut t = Topic::create(&cfg(4, 8));
    let _sub = t.connect(StartPos::Now).unwrap();
    let mut fulls = 0;
    for _ in 0..16 {
        match t.publish(b"data") {
            Ok(()) => {}
            Err(Error::Full) => fulls += 1,
            Err(e) => panic!("unexpected: {e:?}"),
        }
    }
    assert!(fulls > 0, "expected Full errors");
    assert_eq!(fulls, 12);
}

#[test]
fn wrap_around_correctness() {
    // Publish more messages than the ring capacity to exercise wrap-around.
    let n = 100usize; // > capacity (32)
    // Whenever the ring is full the subscriber drains a message.
    let received = fan_out(&cfg(32, 128), 1, n, |i| format!("{i:03}").into_bytes()).remove(0);
    assert_eq!(received.len(), n);
    for (i, msg) in received.iter().enumerate() {
        assert_eq!(msg.as_slice(), format!("{i:03}").as_bytes(), "slot {i}");
    }
}

#[test]
fn too_large_returns_error() {
    let cfg = cfg(32, 128);
    let mut t = Topic::create(&cfg);
    let oversized = vec![0u8; cfg.slot_size as usize + 1];
    match t.publish(&oversized) {
        Err(Error::TooLarge { size, max }) => {
            assert_eq!(size, cfg.slot_size as usize + 1);
            assert_eq!(max, cfg.slot_size as usize);
        }
        other => panic!("expected TooLarge, got {other:?}"),
    }
}

#[test]
fn late_subscriber_starts_at_current_tail() {
    // Publish N messages before any subscriber connects; subscriber should
    // see cursor = N and not receive any of those old messages.
    let n = 5usize;
    let mut t = Topic::create(&cfg(32, 128));
    for i in 0..n {
        t.publish(format!("old-{i}").as_bytes()).unwrap();
    }
    let mut sub = t.connect(StartPos::Now).unwrap();
    let starting_cursor = sub.cursor();
    assert_eq!(sub.try_receive(&mut t.ring), None);
    t.publish(b"new").unwrap();
    assert_eq!(starting_cursor, n as u64, "cursor should skip old messages");
    assert_eq!(t.receive(&mut sub), b"new");
}

#[test]
fn try_receive_nonblocking() {
    let mut t = Topic::create(&cfg(32, 128));
    let mut sub = t.connect(StartPos::Now).unwrap();
    assert_eq!(sub.try_receive(&mut t.ring), None);
    t.publish(b"nonblocking").unwrap();
    assert_eq!(sub.try_receive(&mut t.ring), Some(b"nonblocking".to_vec()));
}

#[test]
fn stress_content_integrity() {
    let n = 10_000usize;
    let mut t = Topic::create(&cfg(64, 16));
    let mut sub = t.connect(StartPos::Now).unwrap();
    let mut received: Vec<u64> = Vec::new();
    for i in 0..n as u64 {
        loop {
            match t.publish(&i.to_le_bytes()) {
                Ok(()) => break,
                Err(Error::Full) => received.push(number(t.receive(&mut sub))),
                Err(e) => panic!("{e:?}"),
            }
        }
    }
    while let Some(bytes) = sub.try_receive(&mut t.ring) {
        assert_eq!(bytes.len(), 8, "unexpected message length");
        received.push(number(bytes));
    }
    assert_eq!(received.len(), n);
    for (i, &val) in received.iter().enumerate() {
        assert_eq!(val, i as u64, "content mismatch at position {i}: got {val}");
    }
}

#[test]
fn subscriber_connect_times_out_when_no_publisher() {
    // The ring never appears: another attempt, until the time is up.
    assert_eq!(connect_step("bus", false, false), ConnectStep::Again);
    match connect_step("bus", false, true) {
        ConnectStep::Fail(Error::Timeout(topic)) => assert_eq!(topic, "bus"),
        other => panic!("expected Error::Timeout, got {other:?}"),
    }
    assert_eq!(connect_step("bus", true, true), ConnectStep::Connected);
    // The ring is there, but nobody answers on the socket.
    let mut t = Topic::create(&cfg(4, 8));
    let io = ConnectIo { connected: false, ..shaken_hands() };
    match Subscriber::connect(&mut t.ring, "bus", io) {
        Err(Error::Timeout(topic)) => assert_eq!(topic, "bus"),
        Err(e) => panic!("expected Error::Timeout, got {e:?}"),
        Ok(_) => panic!("expected Error::Timeout, got Ok(Subscriber)"),
    }
    assert_eq!(t.stats().ring.active_subscribers, 0);
}

// ── Several subscribers ──────────────────────────────────────────────────────

/// Publishes `n` messages to subscribers that read at different paces while the ring is
/// full, and gives what each of them received.
fn fan_out(
    cfg: &BusConfig,
    subscribers: usize,
    n: usize,
    message: impl Fn(usize) -> Vec<u8>,
) -> Vec<Vec<Vec<u8>>> {
    let mut t = Topic::create(cfg);
    let mut subs: Vec<Subscriber> =
        (0..subscribers).map(|_| t.connect(StartPos::Now).unwrap()).collect();
    let mut received: Vec<Vec<Vec<u8>>> = vec![Vec::new(); subscribers];
    for i in 0..n {
        loop {
            match t.publish(&message(i)) {
                Ok(()) => break,
                Err(Error::Full) => {
                    for (k, sub) in subs.iter_mut().enumerate() {
                        for _ in 0..=k {
                            received[k].extend(sub.try_receive(&mut t.ring));
                        }
                    }
                }
                Err(e) => panic!("{e:?}"),
            }
        }
    }
    for (k, sub) in subs.iter_mut().enumerate() {
        while let Some(msg) = sub.try_receive(&mut t.ring) {
            received[k].push(msg);
        }
    }
    received
}

#[test]
fn fan_out_two_subscribers() {
    let n = 200usize;
    let received = fan_out(&cfg(64, 32), 2, n, |i| format!("{i:04}").into_bytes());
    for (sub_id, received) in received.iter().enumerate() {
        assert_eq!(received.len(), n, "subscriber {sub_id} missing messages");
        for (i, msg) in received.iter().enumerate() {
            assert_eq!(
                msg.as_slice(),
                format!("{i:04}").as_bytes(),
                "subscriber {sub_id} message {i} corrupted"
            );
        }
    }
}

#[test]
fn fan_out_three_subscribers_stress() {
    let n = 500usize;
    let received = fan_out(&cfg(256, 16), 3, n, |i| (i as u64).to_le_bytes().to_vec());
    for (idx, received) in received.into_iter().enumerate() {
        assert_eq!(received.len(), n, "subscriber {idx} got wrong count");
        for (i, bytes) in received.into_iter().enumerate() {
            let val = u64::from_le_bytes(bytes.try_into().expect("wrong msg length"));
            assert_eq!(val, i as u64, "subscriber {idx}: position {i} got {val}");
        }
    }
}

#[test]
fn drop_oldest_never_returns_full() {
    let cfg = BusConfig { backpressure: BackpressurePolicy::DropOldest, ..cfg(4, 16) };
    let mut t = Topic::create(&cfg);
    // Subscriber is present but never reads — would block producer with Error policy.
    let _sub = t.connect(StartPos::Now).unwrap();
    for i in 0..200u64 {
        match t.publish(&i.to_le_bytes()) {
            Ok(()) => {}
            Err(Error::Full) => panic!("DropOldest must never return Full"),
            Err(e) => panic!("unexpected: {e:?}"),
        }
    }
}

#[test]
fn drop_oldest_subscriber_reads_valid_data_after_skip() {
    let cfg = BusConfig { backpressure: BackpressurePolicy::DropOldest, ..cfg(4, 16) };
    let mut t = Topic::create(&cfg);
    let mut sub = t.connect(StartPos::Now).unwrap();
    // Publish enough to overwrite slot 0 several times.
    for i in 0..20u64 {
        t.publish(&i.to_le_bytes()).unwrap(); // DropOldest, never fails
    }
    let msg = t.receive(&mut sub);
    assert_eq!(msg.len(), 8, "message length must be 8 bytes");
    let val = number(msg);
    assert!(val < 20, "received value {val} out of published range");
    // The message that stands in the slot of position 0.
    assert_eq!(val, 16);
    assert_eq!(sub.cursor(), 17);
}

#[test]
fn subscriber_drop_releases_cursor_slot() {
    let cfg = BusConfig { max_subscribers: 1, ..cfg(16, 8) };
    let mut t = Topic::create(&cfg);
    // First subscriber connects and then drops.
    let sub = t.connect(StartPos::Now).unwrap();
    assert_eq!(sub.cursor_idx(), 0);
    sub.release(&mut t.ring); // releases cursor slot 0
    // A second subscriber should be able to claim the freed slot.
    let _sub2 = t
        .connect(StartPos::Now)
        .expect("cursor slot should be free after first subscriber dropped");
}

#[test]
fn too_many_subscribers_returns_error() {
    let cfg = BusConfig { max_subscribers: 2, ..cfg(16, 8) };
    let mut t = Topic::create(&cfg);
    let _a = t.connect(StartPos::Now).unwrap();
    let _b = t.connect(StartPos::Now).unwrap();
    // Third subscriber must fail immediately (no retry for TooManySubscribers).
    match t.connect(StartPos::Now) {
        Err(Error::TooManySubscribers(n)) => assert_eq!(n, 2),
        Err(e) => panic!("expected TooManySubscribers(2), got Err({e:?})"),
        Ok(_) => panic!("expected TooManySubscribers(2), got Ok"),
    }
}

#[test]
fn subscriber_lag_tracking() {
    let n = 10usize;
    let mut t = Topic::create(&cfg(64, 32));
    let mut sub = t.connect(StartPos::Now).unwrap();
    for i in 0..n {
        t.publish(format!("{i}").as_bytes()).unwrap();
    }
    let lag_before = sub.lag(t.ring.current_tail());
    // Drain all messages.
    for _ in 0..n {
        t.receive(&mut sub);
    }
    let lag_after = sub.lag(t.ring.current_tail());
    assert_eq!(lag_before, n as u64, "lag before drain should be {n}");
    assert_eq!(lag_after, 0, "lag after drain should be 0");
}

#[test]
fn duplicate_publisher_returns_error() {
    let cfg = cfg(64, 32);
    let path = "/tmp/mmbus/bus/producer.lock".to_string();
    let mut locks = LockTable::new();
    let mut create = |locks: &mut LockTable| {
        let lock = acquire_producer_lock(locks, "bus", &path, Ok(()), true);
        Publisher::create(&cfg, CreateIo { lock, ..set_up(None) })
    };
    let _pub1 = create(&mut locks).unwrap();
    match create(&mut locks) {
        Err(Error::AlreadyPublishing(_)) => {}
        Err(e) => panic!("expected AlreadyPublishing, got Err({e:?})"),
        Ok(_) => panic!("expected AlreadyPublishing, got Ok"),
    }
    // After the first publisher is dropped the slot is free.
    locks.release(&path);
    assert!(create(&mut locks).is_ok(), "should succeed after first publisher dropped");
}

#[test]
fn publisher_stats() {
    let mut t = Topic::create(&cfg(64, 32));
    let _sub = t.connect(StartPos::Now).unwrap();
    // Publish a few messages and check stats.
    for _ in 0..5 {
        t.publish(b"x").unwrap();
    }
    let stats = t.stats();
    assert_eq!(stats.ring.tail, 5, "tail should be 5 after 5 publishes");
    assert_eq!(stats.ring.active_subscribers, 1);
    assert_eq!(stats.ring.lags.len(), 1);
    // Lag: subscriber hasn't consumed anything.
    assert_eq!(stats.ring.lags[0], 5);
    assert_eq!(stats.connected_sockets, 1);
    assert_eq!(stats.wakeups_sent_total, 5);
}

// ── Batches ──────────────────────────────────────────────────────────────────

fn numbers(n: u64) -> Vec<Vec<u8>> {
    (0..n).map(|i| i.to_le_bytes().to_vec()).collect()
}

#[test]
fn publish_many_delivers_all_records_in_order() {
    let mut t = Topic::create(&cfg(16, 32));
    let mut sub = t.connect(StartPos::Now).unwrap();
    let n = t.publish_many(&numbers(10)).unwrap();
    assert_eq!(n, 10, "all 10 must be published when ring has room");
    for i in 0..10u64 {
        assert_eq!(t.receive(&mut sub), i.to_le_bytes().to_vec());
    }
}

#[test]
fn publish_many_returns_partial_count_on_ring_full_under_error_backpressure() {
    // capacity 16 + a slow consumer claiming cursor 0 → publisher can
    // write 16 then is_full.
    let mut t = Topic::create(&cfg(16, 32));
    let _sub = t.connect(StartPos::Now).unwrap();
    let n = t.publish_many(&numbers(30)).unwrap();
    assert!(n > 0 && n < 30, "expected partial publish (0 < n < 30), got n={n}");
    assert!(n <= 16, "capacity bounds the published count; got n={n}");
    assert_eq!(t.publish_many(&numbers(1)), Ok(0));
}

#[test]
fn publish_many_drop_oldest_always_publishes_all() {
    let cfg = BusConfig { backpressure: BackpressurePolicy::DropOldest, ..cfg(8, 32) };
    let mut t = Topic::create(&cfg);
    let _sub = t.connect(StartPos::Now).unwrap();
    // No subscriber drains; DropOldest must still write every record
    // (older ones get overwritten in the ring).
    let n = t.publish_many(&numbers(50)).unwrap();
    assert_eq!(n, 50, "DropOldest must publish every record");
}

#[test]
fn publish_many_rejects_oversize_payload() {
    let mut t = Topic::create(&cfg(16, 32));
    let payloads: Vec<Vec<u8>> = vec![
        b"ok".to_vec(),
        vec![0u8; 64], // > slot_size (32)
        b"never-reached".to_vec(),
    ];
    let result = t.publish_many(&payloads);
    match result {
        Err(Error::TooLarge { size: 64, max: 32 }) => (),
        other => panic!("expected TooLarge {{64, 32}}, got {other:?}"),
    }
    // What came before it is published.
    assert_eq!(t.stats().ring.tail, 1);
}

#[test]
fn publish_many_wakeup_fires_once_per_subscriber_after_batch() {
    let mut t = Topic::create(&cfg(16, 32));
    let mut sub = t.connect(StartPos::Now).unwrap();
    let n = t.publish_many(&numbers(8)).unwrap();
    assert_eq!(n, 8);
    assert_eq!(t.stats().wakeups_sent_total, 1);
    let mut got = Vec::new();
    while let Some(msg) = sub.try_receive(&mut t.ring) {
        got.push(msg);
    }
    assert_eq!(got.len(), 8);
    for (i, msg) in got.iter().enumerate() {
        assert_eq!(msg, &(i as u64).to_le_bytes().to_vec());
    }
    // An empty batch wakes nobody.
    assert_eq!(t.publish_many(&[]), Ok(0));
    assert_eq!(t.stats().wakeups_sent_total, 1);
}

// ── Counters ─────────────────────────────────────────────────────────────────

#[test]
fn published_total_ticks_per_publish() {
    let mut t = Topic::create(&cfg(16, 32));
    let s0 = t.stats();
    assert_eq!(s0.published_total, 0);
    for _ in 0..5 {
        t.publish(b"x").unwrap();
    }
    let s = t.stats();
    assert_eq!(s.published_total, 5);
}

#[test]
fn published_total_counts_publish_many_records() {
    let mut t = Topic::create(&cfg(16, 32));
    let payloads: Vec<Vec<u8>> =
        vec![b"a".to_vec(), b"b".to_vec(), b"c".to_vec(), b"d".to_vec()];
    let n = t.publish_many(&payloads).unwrap();
    assert_eq!(n, 4);
    assert_eq!(t.stats().published_total, 4);
}

#[test]
fn full_rejected_total_ticks_when_error_backpressure_full() {
    let cfg = BusConfig { backpressure: BackpressurePolicy::Error, ..cfg(4, 32) };
    let mut t = Topic::create(&cfg);
    // Attach a non-draining subscriber so the ring actually fills.
    // Without one, is_full returns false (no cursors claim the tail).
    let _sub = t.connect(StartPos::Now).unwrap();
    // Fill the ring (4 slots).
    for _ in 0..4 {
        t.publish(b"x").unwrap();
    }
    // 5th publish should fail with Full and bump full_rejected_total.
    assert!(t.publish(b"x").is_err());
    let s = t.stats();
    assert_eq!(s.full_rejected_total, 1);
    assert_eq!(s.published_total, 4);
}

#[test]
fn subscribers_dropped_total_ticks_when_peer_disconnects() {
    let mut t = Topic::create(&cfg(16, 32));
    let sub = t.connect(StartPos::Now).unwrap();
    sub.release(&mut t.ring);
    // Subscriber dropped — the next broadcast discovers it.
    let io = PublishIo { dead: vec![1], ..quiet() };
    t.publisher.publish(&mut t.ring, b"x", io).unwrap();
    let s = t.stats();
    assert_eq!(s.subscribers_dropped_total, 1, "should have dropped 1 peer");
    assert_eq!((s.connected_sockets, s.wakeups_sent_total), (0, 0));
}

// ── Buffers ──────────────────────────────────────────────────────────────────

#[test]
fn receive_into_reuses_buffer_capacity() {
    let mut t = Topic::create(&cfg(16, 64));
    let mut sub = t.connect(StartPos::Now).unwrap();
    t.publish(b"hello-world-foobar").unwrap();
    t.publish(b"hi").unwrap();
    t.publish(b"ok").unwrap();
    let mut buf = Vec::with_capacity(4);
    let starting_cap = buf.capacity();

    // First recv: payload longer than capacity → buf grows.
    assert_eq!(sub.receive_into(&mut t.ring, &mut buf), ReceiveIntoStep::Filled);
    assert_eq!(&buf[..], b"hello-world-foobar");
    let grown_cap = buf.capacity();
    assert!(grown_cap > starting_cap, "buffer must have grown for the first payload");

    // Subsequent recvs: shorter payloads → buf capacity does NOT shrink.
    assert_eq!(sub.receive_into(&mut t.ring, &mut buf), ReceiveIntoStep::Filled);
    assert_eq!(&buf[..], b"hi");
    assert_eq!(buf.capacity(), grown_cap, "capacity must not shrink between recvs");

    // A third recv with the same length: still the same allocation.
    assert_eq!(sub.receive_into(&mut t.ring, &mut buf), ReceiveIntoStep::Filled);
    assert_eq!(&buf[..], b"ok");
    assert_eq!(buf.capacity(), grown_cap, "second short recv must reuse the buffer");
}

#[test]
fn receive_into_clears_buf_on_entry() {
    let mut t = Topic::create(&cfg(16, 64));
    let mut sub = t.connect(StartPos::Now).unwrap();
    t.publish(b"fresh").unwrap();
    let mut buf = b"stale".to_vec();
    assert_eq!(sub.receive_into(&mut t.ring, &mut buf), ReceiveIntoStep::Filled);
    assert_eq!(&buf[..], b"fresh", "previous content must not survive the next receive");
}

#[test]
fn try_receive_into_returns_false_when_empty() {
    let mut t = Topic::create(&cfg(16, 64));
    let mut sub = t.connect(StartPos::Now).unwrap();
    let mut buf = b"old".to_vec();
    // Nothing published yet — try_receive_into returns false and
    // clears the buffer.
    assert!(!sub.try_receive_into(&mut t.ring, &mut buf));
    assert!(buf.is_empty(), "buffer must be cleared even on empty try_receive_into");
}

#[test]
fn receive_timeout_into_signals_timeout_with_false() {
    let mut t = Topic::create(&cfg(16, 64));
    let mut sub = t.connect(StartPos::Now).unwrap();
    let mut buf = Vec::new();
    // No publish yet → a wait of 20 ms, and then the end.
    assert_eq!(
        sub.receive_timeout_into(&mut t.ring, 20_000_000, &mut buf),
        ReceiveIntoStep::Wait(20)
    );
    let waited = Err(IoKind::WouldBlock);
    assert_eq!(sub.wait_readable(waited, t.ring.generation()), Ok(false));
    assert_eq!(sub.receive_timeout_into(&mut t.ring, 0, &mut buf), ReceiveIntoStep::GaveUp);
    assert!(buf.is_empty());
}

#[test]
fn buffer_reuse_matches_recv_semantics() {
    // Equivalence test: a loop calling receive_into with a reusable
    // buffer must produce the same payload sequence as a loop
    // calling receive() returning fresh Vecs.
    let mut t = Topic::create(&cfg(16, 64));
    let mut sub_a = t.connect(StartPos::Now).unwrap();
    let mut sub_b = t.connect(StartPos::Now).unwrap();
    for i in 0..5u64 {
        t.publish(&i.to_le_bytes()).unwrap();
    }
    let mut buf_b = Vec::new();
    let mut out_a = Vec::new();
    let mut out_b = Vec::new();
    for _ in 0..5u64 {
        let a = t.receive(&mut sub_a);
        assert_eq!(sub_b.receive_into(&mut t.ring, &mut buf_b), ReceiveIntoStep::Filled);
        out_a.push(a);
        out_b.push(buf_b.clone());
    }
    assert_eq!(out_a, out_b);
}

#[test]
fn messages_go_to_slices() {
    let mut t = Topic::create(&cfg(16, 64));
    let mut sub = t.connect(StartPos::Now).unwrap();
    for msg in [&b"ab"[..], b"abcdef", b"xyz", b"too long", b"end"] {
        t.publish(msg).unwrap();
    }
    let mut out = [b'.'; 4];
    assert_eq!(sub.try_receive_into_slice(&mut t.ring, &mut out), Some(2));
    assert_eq!(&out, b"ab..");
    // A message that does not fit is passed over.
    assert_eq!(sub.try_receive_into_slice(&mut t.ring, &mut out), Some(usize::MAX));
    assert_eq!(&out, b"ab..");
    assert_eq!(sub.try_receive_one_into_slice(&mut t.ring, &mut out), Ok(Some(3)));
    assert_eq!(&out, b"xyz.");
    assert_eq!(
        sub.try_receive_one_into_slice(&mut t.ring, &mut out),
        Err(Error::TooLarge { size: 8, max: 4 })
    );
    assert_eq!(sub.cursor(), 4);
    assert_eq!(sub.try_receive_one_into_slice(&mut t.ring, &mut out), Ok(Some(3)));
    assert_eq!(sub.try_receive_one_into_slice(&mut t.ring, &mut out), Ok(None));
    assert_eq!(sub.try_receive_into_slice(&mut t.ring, &mut out), None);
    assert_eq!(&out, b"end.");
}

#[test]
fn batches_are_drained_in_order() {
    let mut t = Topic::create(&cfg(16, 64));
    let mut sub = t.connect(StartPos::Now).unwrap();
    assert!(sub.recv_batch(&mut t.ring, 3, None).is_empty());
    for i in 0..5u8 {
        t.publish(&[i]).unwrap();
    }
    assert!(sub.recv_batch(&mut t.ring, 0, None).is_empty());
    let first = sub.try_receive(&mut t.ring);
    assert_eq!(
        sub.recv_batch(&mut t.ring, 3, first),
        vec![vec![0u8], vec![1], vec![2]]
    );
    let first = sub.try_receive(&mut t.ring);
    assert_eq!(sub.recv_batch(&mut t.ring, 9, first), vec![vec![3u8], vec![4]]);
}

#[test]
fn rows_are_filled_in_order() {
    let mut t = Topic::create(&cfg(16, 64));
    let mut sub = t.connect(StartPos::Now).unwrap();
    for i in 0..4u8 {
        t.publish(&[i, i]).unwrap();
    }
    let mut buf = [9u8; 7];
    let first = sub.try_receive(&mut t.ring);
    assert_eq!(sub.recv_into_buffer(&mut t.ring, &mut buf, 2, first), Ok(3));
    assert_eq!(buf, [0, 0, 1, 1, 2, 2, 9]);
    let first = sub.try_receive(&mut t.ring);
    let mut small = [9u8; 1];
    assert_eq!(sub.recv_into_buffer(&mut t.ring, &mut small, 2, first.clone()), Ok(0));
    assert_eq!(
        sub.recv_into_buffer(&mut t.ring, &mut buf, 0, first.clone()),
        Err(RowError::ZeroSize)
    );
    assert_eq!(sub.recv_into_buffer(&mut t.ring, &mut buf, 2, None), Ok(0));
    assert_eq!(
        sub.recv_into_buffer(&mut t.ring, &mut buf, 3, first),
        Err(RowError::Mismatch { index: 0, len: 2, payload_size: 3 })
    );
    // A later message of another size.
    for msg in [&b"ab"[..], b"c", b"de", b"fgh"] {
        t.publish(msg).unwrap();
    }
    let first = sub.try_receive(&mut t.ring);
    assert_eq!(
        sub.recv_into_buffer(&mut t.ring, &mut buf, 2, first),
        Err(RowError::Mismatch { index: 1, len: 1, payload_size: 2 })
    );
    let first = sub.try_receive(&mut t.ring);
    assert_eq!(
        sub.recv_into_buffer(&mut t.ring, &mut buf, 2, first),
        Err(RowError::TooLarge { index: 1, payload_size: 2 })
    );
}

// ── Restarts ─────────────────────────────────────────────────────────────────

#[test]
fn restart_invalidates_existing_subscriber() {
    let cfg = cfg(16, 32);
    let mut t = Topic::create(&cfg);
    let mut sub = t.connect(StartPos::Now).unwrap();
    t.publish(b"from-pub1").unwrap();
    assert_eq!(t.receive(&mut sub), b"from-pub1");
    assert_eq!(sub.receive(&mut t.ring), ReceiveStep::Wait(-1));

    // A new publisher on the same memory bumps the generation.
    let mut t2 = Topic::restart(&cfg, Some(t.ring.mem));
    t2.publish(b"from-pub2").ok();
    assert_eq!(
        sub.after_wait(Ok(()), t2.ring.generation()),
        Err(IoKind::UnexpectedEof)
    );
    assert_eq!(
        sub.poll_recv(&mut t2.ring, Ok(true)),
        Err(Error::Io(IoKind::UnexpectedEof))
    );
}

#[test]
fn fresh_subscriber_after_restart_works() {
    let cfg = cfg(16, 32);
    // First publisher writes a message, then exits.
    let mut t1 = Topic::create(&cfg);
    t1.publish(b"pre-restart-noise").unwrap();
    // Second publisher reuses the ring file (generation now == 2).
    let mut t2 = Topic::restart(&cfg, Some(t1.ring.mem));
    assert_eq!(t2.ring.generation(), 2);
    let mut sub = t2.connect(StartPos::Now).unwrap();
    t2.publish(b"post-restart").unwrap();
    assert_eq!(t2.receive(&mut sub), b"post-restart");
}

#[test]
fn generation_increments_on_reuse() {
    let cfg = cfg(16, 32);
    let pub1 = Topic::create(&cfg);
    let stats1 = pub1.stats();
    let pub2 = Topic::restart(&cfg, Some(pub1.ring.mem));
    let stats2 = pub2.stats();
    let pub3 = Topic::restart(&cfg, Some(pub2.ring.mem));
    let stats3 = pub3.stats();
    assert_eq!(stats1.ring.tail, 0);
    assert_eq!(stats2.ring.tail, 0);
    assert_eq!(stats3.ring.tail, 0);
    assert_eq!(pub3.ring.generation(), 3);
}

#[test]
fn memory_of_another_shape_is_not_reused() {
    let mut t = Topic::create(&cfg(16, 32));
    t.publish(b"x").unwrap();
    let other = Topic::restart(&cfg(8, 32), Some(t.ring.mem.clone()));
    assert_eq!((other.ring.generation(), other.ring.capacity), (1, 8));
    let garbage = Topic::restart(&cfg(8, 32), Some(vec![0xAA; 100]));
    assert_eq!(garbage.ring.generation(), 1);
    // A subscriber opens what is there.
    let opened = RingBuffer::open(t.ring.mem).unwrap();
    assert_eq!((opened.capacity, opened.slot_payload_size, opened.max_subscribers), (16, 32, 16));
    assert_eq!(opened.current_tail(), 1);
    assert!(RingBuffer::open(vec![0xAA; 4096]).is_err());
    assert!(RingBuffer::open(vec![]).is_err());
}

// ── Start positions ──────────────────────────────────────────────────────────

#[test]
fn start_positions_are_resolved() {
    assert_eq!(start_cursor(StartPos::Now, 50, 8), Ok(50));
    assert_eq!(start_cursor(StartPos::HistoryBack(5), 50, 8), Ok(45));
    assert_eq!(start_cursor(StartPos::HistoryBack(8), 50, 8), Ok(42));
    // No further back than the ring reaches.
    assert_eq!(start_cursor(StartPos::HistoryBack(9), 50, 8), Ok(42));
    assert_eq!(start_cursor(StartPos::HistoryBack(60), 50, 8), Ok(42));
    assert_eq!(start_cursor(StartPos::HistoryBack(20), 5, 8), Ok(0));
    assert_eq!(start_cursor(StartPos::Explicit(42), 50, 8), Ok(42));
    assert_eq!(
        start_cursor(StartPos::Explicit(41), 50, 8),
        Err(Error::CursorTooOld { requested: 41, oldest: 42 })
    );
    assert_eq!(start_cursor(StartPos::Explicit(0), 5, 8), Ok(0));
}

#[test]
fn failed_connection_gives_the_slot_back() {
    let mut t = Topic::create(&cfg(4, 8));
    for i in 0..9u64 {
        t.publish(&i.to_le_bytes()).unwrap();
    }
    for io in [
        ConnectIo { eventfd: Err(IoKind::Other), ..shaken_hands() },
        ConnectIo { passed: Err(IoKind::Other), ..shaken_hands() },
    ] {
        let got = Subscriber::connect_with(&mut t.ring, "bus", StartPos::Now, io);
        assert_eq!(got.err(), Some(Error::Io(IoKind::Other)));
    }
    let got = t.connect(StartPos::Explicit(4));
    assert_eq!(got.err(), Some(Error::CursorTooOld { requested: 4, oldest: 5 }));
    assert_eq!(t.ring.min_active_cursor(), None);
    assert_eq!(t.stats().ring.active_subscribers, 0);
}

// ── Decisions ────────────────────────────────────────────────────────────────

#[test]
fn failed_set_up_is_reported_in_order() {
    let cfg = cfg(4, 8);
    let io = CreateIo { dir: Err(IoKind::PermissionDenied), ..set_up(None) };
    assert_eq!(Publisher::create(&cfg, io).err(), Some(Error::Io(IoKind::PermissionDenied)));
    let io = CreateIo {
        lock: Err(Error::AlreadyPublishing("t".to_string())),
        ring: Err(IoKind::Other),
        ..set_up(None)
    };
    assert_eq!(Publisher::create(&cfg, io).err(), Some(Error::AlreadyPublishing("t".to_string())));
    let io = CreateIo { ring: Err(IoKind::InvalidData), ..set_up(None) };
    assert_eq!(Publisher::create(&cfg, io).err(), Some(Error::Io(IoKind::InvalidData)));
    let io = CreateIo { socket: Err(IoKind::AlreadyExists), ..set_up(None) };
    assert_eq!(Publisher::create(&cfg, io).err(), Some(Error::Io(IoKind::AlreadyExists)));
    // A topic without a log does not care about one.
    let io = CreateIo { log: Err(Error::Full), ..set_up(None) };
    assert!(Publisher::create(&cfg, io).is_ok());
    let logged = BusConfig { wal: WalConfig::batched(), ..cfg };
    let io = CreateIo { log: Err(Error::Full), ..set_up(None) };
    assert_eq!(Publisher::create(&logged, io).err(), Some(Error::Full));
}

#[test]
fn failed_accept_fails_the_publish() {
    let mut t = Topic::create(&cfg(4, 8));
    let io = PublishIo {
        accepted: vec![7, 8],
        accept_error: Some(IoKind::Other),
        logged: Ok(()),
        dead: vec![],
    };
    assert_eq!(t.publisher.publish(&mut t.ring, b"x", io), Err(Error::Io(IoKind::Other)));
    assert_eq!(t.publisher.connected_subscribers(), 2);
    assert_eq!(t.ring.current_tail(), 0);
}

#[test]
fn failed_log_leaves_the_ring() {
    let cfg = BusConfig { wal: WalConfig::batched(), ..cfg(4, 8) };
    let mut t = Topic::create(&cfg);
    let io = PublishIo { logged: Err(Error::Io(IoKind::Other)), ..quiet() };
    assert_eq!(t.publisher.publish(&mut t.ring, b"x", io), Err(Error::Io(IoKind::Other)));
    assert_eq!((t.ring.current_tail(), t.stats().published_total), (0, 0));
    let io = BatchIo {
        accepted: vec![],
        accept_error: None,
        log_error: Some((2, Error::Io(IoKind::Other))),
        dead: vec![],
    };
    assert_eq!(
        t.publisher.publish_many(&mut t.ring, &numbers(4), io),
        Err(Error::Io(IoKind::Other))
    );
    assert_eq!(t.ring.current_tail(), 2);
}

#[test]
fn batch_items_are_judged_one_by_one() {
    let plain = Publisher::new(&cfg(4, 8));
    assert_eq!(plain.batch_item(8, false), BatchStep::Write);
    assert_eq!(plain.batch_item(8, true), BatchStep::Stop);
    assert_eq!(
        plain.batch_item(9, true),
        BatchStep::Fail(Error::TooLarge { size: 9, max: 8 })
    );
    let logged = Publisher::new(&BusConfig { wal: WalConfig::batched(), ..cfg(4, 8) });
    assert_eq!(logged.batch_item(8, false), BatchStep::LogAndWrite);
    let dropping = Publisher::new(&BusConfig {
        backpressure: BackpressurePolicy::DropOldest,
        ..cfg(4, 8)
    });
    assert!(dropping.overwrites() && !plain.overwrites());
    assert_eq!(dropping.batch_item(8, true), BatchStep::Write);
    assert_eq!(dropping.slot_size(), 8);
}

#[test]
fn wait_for_subscribers_counts_clients() {
    let mut p = Publisher::new(&cfg(4, 8));
    assert_eq!(p.wait_for_subscribers(&vec![], None, 0, true), WaitStep::Ready);
    assert_eq!(p.wait_for_subscribers(&vec![1], None, 2, false), WaitStep::Again);
    assert_eq!(
        p.wait_for_subscribers(&vec![], None, 2, true),
        WaitStep::Fail(Error::Timeout("waiting for subscribers".to_string()))
    );
    assert_eq!(
        p.wait_for_subscribers(&vec![], Some(IoKind::Other), 1, false),
        WaitStep::Fail(Error::Io(IoKind::Other))
    );
    assert_eq!(p.wait_for_subscribers(&vec![2], None, 2, true), WaitStep::Ready);
}

#[test]
fn wakeups_drop_the_dead() {
    let mut p = Publisher::new(&cfg(4, 8));
    for id in 1..=4u64 {
        p.add_client(id);
    }
    p.broadcast_wakeup(&vec![1, 3]);
    // The last client takes the place of a dropped one.
    assert_eq!((p.client_at(0), p.client_at(1), p.client_at(2)), (Some(4), Some(2), None));
    let s = p.stats(RingBuffer::create(4, 8, 1).stats(), None);
    assert_eq!((s.subscribers_dropped_total, s.wakeups_sent_total), (2, 2));
}

#[test]
fn slow_subscribers_are_those_behind() {
    let mut t = Topic::create(&cfg(16, 8));
    let mut a = t.connect(StartPos::Now).unwrap();
    let _b = t.connect(StartPos::Now).unwrap();
    for _ in 0..5 {
        t.publish(b"x").unwrap();
    }
    t.receive(&mut a);
    assert_eq!(t.publisher.slow_subscribers(&t.ring, 5), vec![(1, 5)]);
    assert_eq!(t.publisher.slow_subscribers(&t.ring, 4), vec![(0, 4), (1, 5)]);
    assert_eq!(lagging(&vec![(3, 9), (4, 8)], 9), vec![(3, 9)]);
    assert_eq!(lagging(&vec![], 0), vec![]);
}

#[test]
fn ring_is_moved_up_to_the_log() {
    assert_eq!(aligned_tail(0, 7), Some(7));
    assert_eq!(aligned_tail(7, 7), None);
    assert_eq!(aligned_tail(9, 7), None);
}

#[test]
fn waits_are_bounded() {
    assert_eq!(remaining_ms(0), None);
    assert_eq!(remaining_ms(1), Some(0));
    assert_eq!(remaining_ms(1_999_999), Some(1));
    assert_eq!(remaining_ms(u128::MAX), Some(i32::MAX));
    let t = Topic::create(&cfg(4, 8));
    let sub = Subscriber::resume(0, 0, 1);
    assert_eq!(sub.generation(), 1);
    assert_eq!(sub.wait_readable(Ok(()), 1), Ok(true));
    assert_eq!(sub.wait_readable(Err(IoKind::TimedOut), 1), Ok(false));
    assert_eq!(
        sub.wait_readable(Ok(()), 2),
        Err(Error::Io(IoKind::UnexpectedEof))
    );
    assert_eq!(
        sub.wait_readable(Err(IoKind::BrokenPipe), 1),
        Err(Error::Io(IoKind::BrokenPipe))
    );
    assert_eq!(sub.drain_wakeup(Ok(false)), Ok(false));
    assert_eq!(sub.drain_wakeup(Err(IoKind::Other)), Err(Error::Io(IoKind::Other)));
    assert_eq!(sub.slot_size(&t.ring), 8);
    assert!(sub.arm_wakeup(1) && !sub.arm_wakeup(0));
}

#[test]
fn event_loops_read_one_message_per_wakeup() {
    let mut t = Topic::create(&cfg(4, 8));
    let mut sub = t.connect(StartPos::Now).unwrap();
    t.publish(b"a").unwrap();
    assert_eq!(sub.poll_recv(&mut t.ring, Ok(false)), Ok(None));
    assert_eq!(sub.poll_recv(&mut t.ring, Ok(true)), Ok(Some(b"a".to_vec())));
    assert_eq!(sub.poll_recv(&mut t.ring, Ok(true)), Ok(None));
    assert_eq!(
        sub.poll_recv(&mut t.ring, Err(IoKind::UnexpectedEof)),
        Err(Error::Io(IoKind::UnexpectedEof))
    );
    assert_eq!(sub.receive_timeout(&mut t.ring, 3_000_000), ReceiveStep::Wait(3));
    assert_eq!(sub.receive_timeout(&mut t.ring, 0), ReceiveStep::GaveUp);
    t.publish(b"b").unwrap();
    assert_eq!(sub.receive_timeout(&mut t.ring, 0), ReceiveStep::Message(b"b".to_vec()));
    sub.set_cursor(0);
    assert_eq!(sub.cursor(), 0);
}

#[test]
fn poll_results_are_told_apart() {
    assert_eq!(poll_outcome(-1, IoKind::Interrupted, false), PollStep::Again);
    assert_eq!(poll_outcome(-1, IoKind::Other, false), PollStep::Done(Err(IoKind::Other)));
    assert_eq!(poll_outcome(0, IoKind::Other, false), PollStep::Done(Err(IoKind::WouldBlock)));
    assert_eq!(poll_outcome(2, IoKind::Other, true), PollStep::Done(Err(IoKind::UnexpectedEof)));
    assert_eq!(poll_outcome(1, IoKind::Other, false), PollStep::Done(Ok(())));
    assert_eq!(drain_outcome(Ok(())), Ok(true));
    assert_eq!(drain_outcome(Err(IoKind::WouldBlock)), Ok(false));
    assert_eq!(drain_outcome(Err(IoKind::Other)), Err(IoKind::Other));
}

#[test]
fn locks_are_exclusive() {
    let mut locks = LockTable::new();
    let (a, b) = ("/x/a/producer.lock".to_string(), "/x/b/producer.lock".to_string());
    assert_eq!(acquire_producer_lock(&mut locks, "a", &a, Ok(()), true), Ok(()));
    assert_eq!(
        acquire_producer_lock(&mut locks, "a", &a, Ok(()), true),
        Err(Error::AlreadyPublishing("a".to_string()))
    );
    // Another process holds the file.
    assert_eq!(
        acquire_producer_lock(&mut locks, "b", &b, Ok(()), false),
        Err(Error::AlreadyPublishing("b".to_string()))
    );
    assert_eq!(
        acquire_producer_lock(&mut locks, "b", &b, Err(IoKind::NotFound), true),
        Err(Error::Io(IoKind::NotFound))
    );
    // Neither attempt left anything behind.
    assert_eq!(acquire_producer_lock(&mut locks, "b", &b, Ok(()), true), Ok(()));
    locks.release(&a);
    assert!(locks.reserve(a.clone()));
    assert!(!locks.reserve(a));
}
