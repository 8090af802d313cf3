//! Publishing on a topic with a log over memory-mapped segments: every message goes to the
//! log first, under the cursor that it gets in the ring.

use crate::error::{Error, IoKind};
use crate::publisher;
use crate::publisher::{BatchStep, Publisher, PublisherView};
use crate::ring;
use crate::ring::{RingBuffer, RingView};
use crate::wal::record;
use crate::wal::v2::mmap_segment_writer::RecordWrite;
use crate::wal::v2::wal;
use crate::wal::v2::wal::{AppendIo, Wal, WalError, WalView};
use vstd::prelude::*;

verus! {

/// What the file operations around one append to the log gave.
#[derive(Debug, Clone, Copy)]
pub struct LogIo {
    pub append: AppendIo,
    /// Flushing the active segment afterwards, where the policy asks for it.
    pub flushed: Result<(), IoKind>,
}

/// The stores that put one record into a segment of the log.
#[derive(Debug, Clone, PartialEq, Eq)]
pub struct Stores {
    /// The first cursor of the segment.
    pub segment: u64,
    pub write: RecordWrite,
}

/// A record, and the log right after it was appended.
pub struct Put {
    pub rec: record::RecordView,
    pub log: WalView,
}

/// The stores put the record behind those that stood in the active segment before it.
pub open spec fn puts(s: Stores, p: Put) -> bool {
    &&& p.log.active is Some
    &&& s.segment == p.log.active->Some_0.first
    &&& wal::writes_record(s.write, p.rec, p.log)
}

/// The stores are these, if there are any.
pub open spec fn puts_if(s: Option<Stores>, p: Option<Put>) -> bool {
    match (s, p) {
        (Some(stores), Some(put)) => puts(stores, put),
        (None, None) => true,
        _ => false,
    }
}

/// An append to the log, from its start to its end: the log after it, what was put into it,
/// and the segments that are to be deleted or the error. A record whose flush fails stays in
/// the log.
pub open spec fn logging(w: WalView, rec: record::RecordView, io: LogIo) -> (
    WalView,
    Option<Put>,
    Result<Seq<u64>, WalError>,
) {
    match wal::appended(w, rec, io.append) {
        (x, Err(e)) => (x, None, Err(e)),
        (x, Ok(_)) => {
            let f = wal::finished(x, rec.payload.len(), io.flushed);
            (
                f.0,
                if w.cfg.enabled {
                    Some(Put { rec, log: x })
                } else {
                    None
                },
                f.1,
            )
        },
    }
}

/// Appends a record to a log and ends the append.
fn log_record(log: &mut Wal, cursor: u64, ts_unix_nanos: u64, data: &[u8], io: LogIo) -> (r: (
    Option<Stores>,
    Result<Vec<u64>, WalError>,
))
    requires
        old(log).wf(),
        cursor < u64::MAX,
    ensures
        final(log).wf(),
        ({
            let rec = record::RecordView { cursor, ts_unix_nanos, payload: data@ };
            let want = logging(old(log)@, rec, io);
            &&& final(log)@ == want.0
            &&& puts_if(r.0, want.1)
            &&& match (r.1, want.2) {
                (Ok(deleted), Ok(d)) => deleted@ == d,
                (Err(e), Err(w)) => e == w,
                _ => false,
            }
        }),
{
    let stores: Option<Stores> = match log.append(cursor, ts_unix_nanos, data, io.append) {
        Err(e) => {
            return (None, Err(e));
        },
        Ok(None) => None,
        Ok(Some(write)) => match log.active_segment() {
            Some(segment) => Some(Stores { segment, write }),
            None => None,
        },
    };
    (stores, log.finish_append(data.len(), io.flushed))
}

/// What the operations around a publish with a log gave.
pub struct LoggedIo {
    /// The clients accepted beforehand.
    pub accepted: Vec<u64>,
    /// What ended accepting them, other than that nobody was waiting.
    pub accept_error: Option<IoKind>,
    pub log: LogIo,
    /// The clients whose wakeup fails.
    pub dead: Vec<u64>,
}

/// A publisher, its ring and its log.
#[verifier::ext_equal]
pub struct Topic {
    pub publisher: PublisherView,
    pub ring: RingView,
    pub log: WalView,
}

/// Whether the ring of the topic is full.
pub open spec fn is_full(t: Topic) -> bool {
    ring::full_at(t.ring.tail, t.ring.cursors, t.ring.slots.len() as u32)
}

/// A message as it goes to the log: under the cursor that it is about to get in the ring.
pub open spec fn as_record(t: Topic, ts_unix_nanos: u64, data: Seq<u8>) -> record::RecordView {
    record::RecordView { cursor: t.ring.tail, ts_unix_nanos, payload: data }
}

/// A publish with a log: the topic after it, what was put into the log, and the segments of
/// the log that are to be deleted or the error.
pub open spec fn publishing(t: Topic, ts_unix_nanos: u64, data: Seq<u8>, io: LoggedIo) -> (
    Topic,
    Option<Put>,
    Result<Seq<u64>, Error>,
) {
    let a = Topic { publisher: publisher::accepting(t.publisher, io.accepted@), ..t };
    if data.len() > t.publisher.slot_size {
        (
            t,
            None,
            Err(
                Error::TooLarge {
                    size: data.len() as usize,
                    max: t.publisher.slot_size as usize,
                },
            ),
        )
    } else if io.accept_error is Some {
        (a, None, Err(Error::Io(io.accept_error->Some_0)))
    } else if publisher::refuses(t.publisher, is_full(t)) {
        (Topic { publisher: publisher::rejected(a.publisher), ..a }, None, Err(Error::Full))
    } else {
        match logging(t.log, as_record(t, ts_unix_nanos, data), io.log) {
            (log, put, Err(e)) => (Topic { log, ..a }, put, Err(Error::MappedWal(e))),
            (log, put, Ok(deleted)) => (
                Topic {
                    publisher: publisher::woken(
                        publisher::counted(a.publisher),
                        0,
                        io.dead@,
                    ),
                    ring: ring::published(t.ring, data),
                    log,
                },
                put,
                Ok(deleted),
            ),
        }
    }
}

/// How a publish with a log went.
pub struct Logged {
    /// The segments of the log that are to be deleted, or the error.
    pub result: Result<Vec<u64>, Error>,
    /// The stores that put the message into the log. They are to be made whatever the result
    /// is.
    pub stores: Option<Stores>,
}

/// What the operations around a batch with a log gave.
pub struct LoggedBatchIo {
    pub accepted: Vec<u64>,
    pub accept_error: Option<IoKind>,
    /// What goes with each item: the time of its record, and what the operations around its
    /// append to the log gave.
    pub log: Vec<(u64, LogIo)>,
    pub dead: Vec<u64>,
}

/// How a batch with a log went.
pub struct LoggedBatch {
    /// How many messages were published, or the error that ended the batch.
    pub result: Result<usize, Error>,
    /// The segments of the log that are to be deleted.
    pub deleted: Vec<u64>,
    /// The stores that put the messages into the log, in order. They are to be made whatever
    /// the result is.
    pub stores: Vec<Stores>,
}

/// One more record was put into the log, or none.
pub open spec fn with_put(put: Option<Put>, rest: Seq<Put>) -> Seq<Put> {
    match put {
        Some(p) => seq![p] + rest,
        None => rest,
    }
}

/// The stores put these records into the log, in order.
pub open spec fn puts_all(stores: Seq<Stores>, put: Seq<Put>) -> bool {
    &&& stores.len() == put.len()
    &&& forall|i: int| 0 <= i < stores.len() ==> puts(#[trigger] stores[i], put[i])
}

/// A batch from place `i` on: the topic after it, what was put into the log, the segments of
/// the log that are to be deleted, and how many messages were published in all or the error.
pub open spec fn batch(t: Topic, items: Seq<Seq<u8>>, i: int, log: Seq<(u64, LogIo)>) -> (
    Topic,
    Seq<Put>,
    Seq<u64>,
    Result<nat, Error>,
)
    decreases items.len() - i,
{
    if i < 0 || i >= items.len() {
        (t, Seq::empty(), Seq::empty(), Ok(i as nat))
    } else if items[i].len() > t.publisher.slot_size {
        (
            t,
            Seq::empty(),
            Seq::empty(),
            Err(
                Error::TooLarge {
                    size: items[i].len() as usize,
                    max: t.publisher.slot_size as usize,
                },
            ),
        )
    } else if publisher::refuses(t.publisher, is_full(t)) {
        (t, Seq::empty(), Seq::empty(), Ok(i as nat))
    } else {
        match logging(t.log, as_record(t, log[i].0, items[i]), log[i].1) {
            (w, put, Err(e)) => (
                Topic { log: w, ..t },
                with_put(put, Seq::empty()),
                Seq::empty(),
                Err(Error::MappedWal(e)),
            ),
            (w, put, Ok(deleted)) => {
                let next = Topic {
                    publisher: publisher::counted(t.publisher),
                    ring: ring::published(t.ring, items[i]),
                    log: w,
                };
                let rest = batch(next, items, i + 1, log);
                (rest.0, with_put(put, rest.1), deleted + rest.2, rest.3)
            },
        }
    }
}

/// A batched publish with a log: clients are woken once, at the end, if anything was
/// published.
pub open spec fn publishing_many(t: Topic, items: Seq<Seq<u8>>, io: LoggedBatchIo) -> (
    Topic,
    Seq<Put>,
    Seq<u64>,
    Result<nat, Error>,
) {
    let a = Topic { publisher: publisher::accepting(t.publisher, io.accepted@), ..t };
    if io.accept_error is Some {
        (a, Seq::empty(), Seq::empty(), Err(Error::Io(io.accept_error->Some_0)))
    } else {
        let b = batch(a, items, 0, io.log@);
        (
            if b.0.ring.tail != t.ring.tail {
                Topic { publisher: publisher::woken(b.0.publisher, 0, io.dead@), ..b.0 }
            } else {
                b.0
            },
            b.1,
            b.2,
            b.3,
        )
    }
}

/// A topic as its parts show it.
pub open spec fn topic_of(p: Publisher, rb: RingBuffer, log: Wal) -> Topic {
    Topic { publisher: p@, ring: rb@, log: log@ }
}

impl Publisher {
    /// Publishes one message on a topic with a mapped log. The message is appended to the log
    /// before it goes to the ring, so that a log that fails leaves the ring untouched; a ring
    /// that is full is noticed before anything is appended.
    pub fn publish_mapped(
        &mut self,
        rb: &mut RingBuffer,
        log: &mut Wal,
        ts_unix_nanos: u64,
        data: &[u8],
        io: LoggedIo,
    ) -> (r: Logged)
        requires
            old(self)@.wal,
            old(log).wf(),
            old(rb).wf(),
            old(rb).capacity > 0,
            old(rb).slot_payload_size == old(self)@.slot_size,
            old(rb)@.tail < u64::MAX,
        ensures
            final(log).wf(),
            final(rb).wf(),
            final(rb).capacity == old(rb).capacity,
            final(rb).slot_payload_size == old(rb).slot_payload_size,
            final(rb).max_subscribers == old(rb).max_subscribers,
            ({
                let want = publishing(
                    topic_of(*old(self), *old(rb), *old(log)),
                    ts_unix_nanos,
                    data@,
                    io,
                );
                &&& topic_of(*final(self), *final(rb), *final(log)) == want.0
                &&& puts_if(r.stores, want.1)
                &&& match (r.result, want.2) {
                    (Ok(deleted), Ok(d)) => deleted@ == d,
                    (Err(e), Err(w)) => e == w,
                    _ => false,
                }
            }),
    {
        proof {
            rb.lemma_wf();
        }
        match self.check_size(data.len()) {
            Err(e) => {
                return Logged { result: Err(e), stores: None };
            },
            Ok(_) => {},
        }
        self.add_clients(&io.accepted);
        match io.accept_error {
            Some(kind) => {
                return Logged { result: Err(Error::Io(kind)), stores: None };
            },
            None => {},
        }
        match self.before_log(rb.is_full()) {
            Err(e) => {
                return Logged { result: Err(e), stores: None };
            },
            Ok(_) => {},
        }
        let (stores, logged) = log_record(log, rb.current_tail(), ts_unix_nanos, data, io.log);
        let deleted: Vec<u64> = match logged {
            Err(e) => {
                return Logged { result: Err(Error::MappedWal(e)), stores };
            },
            Ok(d) => d,
        };
        let written: bool = if self.overwrites() {
            rb.publish_drop_oldest(data)
        } else {
            rb.try_publish(data)
        };
        match self.after_ring(written) {
            Err(e) => Logged { result: Err(e), stores },
            Ok(_) => {
                self.broadcast_wakeup(&io.dead);
                Logged { result: Ok(deleted), stores }
            },
        }
    }

    /// Publishes a batch of messages on a topic with a mapped log, and wakes every client
    /// once, at the end. A message that is too large, or that the log does not take, ends the
    /// batch with an error; a full ring ends it early, if the policy refuses messages.
    pub fn publish_many_mapped(
        &mut self,
        rb: &mut RingBuffer,
        log: &mut Wal,
        items: &Vec<Vec<u8>>,
        io: LoggedBatchIo,
    ) -> (r: LoggedBatch)
        requires
            old(self)@.wal,
            old(log).wf(),
            old(rb).wf(),
            old(rb).capacity > 0,
            old(rb).slot_payload_size == old(self)@.slot_size,
            old(rb)@.tail + items@.len() <= u64::MAX,
            io.log@.len() == items@.len(),
        ensures
            final(log).wf(),
            final(rb).wf(),
            final(rb).capacity == old(rb).capacity,
            final(rb).slot_payload_size == old(rb).slot_payload_size,
            final(rb).max_subscribers == old(rb).max_subscribers,
            ({
                let want = publishing_many(
                    topic_of(*old(self), *old(rb), *old(log)),
                    publisher::items_view(items@),
                    io,
                );
                &&& topic_of(*final(self), *final(rb), *final(log)) == want.0
                &&& puts_all(r.stores@, want.1)
                &&& r.deleted@ == want.2
                &&& match (r.result, want.3) {
                    (Ok(n), Ok(m)) => n == m,
                    (Err(e), Err(w)) => e == w,
                    _ => false,
                }
            }),
    {
        self.add_clients(&io.accepted);
        match io.accept_error {
            Some(kind) => {
                return LoggedBatch {
                    result: Err(Error::Io(kind)),
                    deleted: Vec::new(),
                    stores: Vec::new(),
                };
            },
            None => {},
        }
        let ghost start = topic_of(*self, *rb, *log);
        let ghost views = publisher::items_view(items@);
        let ghost want = batch(start, views, 0, io.log@);
        let mut failure: Option<Error> = None;
        let mut deleted: Vec<u64> = Vec::new();
        let mut stores: Vec<Stores> = Vec::new();
        let ghost mut put: Seq<Put> = Seq::empty();
        let mut i: usize = 0;
        proof {
            assert(deleted@ + want.2 =~= want.2);
            assert(put + want.1 =~= want.1);
        }
        loop
            invariant_except_break
                failure is None,
                ({
                    let rest = batch(topic_of(*self, *rb, *log), views, i as int, io.log@);
                    &&& want.0 == rest.0
                    &&& want.1 == put + rest.1
                    &&& want.2 == deleted@ + rest.2
                    &&& want.3 == rest.3
                }),
            invariant
                log.wf(),
                rb.wf(),
                rb.capacity == old(rb).capacity,
                rb.slot_payload_size == old(rb).slot_payload_size,
                rb.max_subscribers == old(rb).max_subscribers,
                rb.capacity > 0,
                rb.slot_payload_size == self@.slot_size,
                self@.wal,
                views == publisher::items_view(items@),
                i <= items@.len(),
                io.log@.len() == items@.len(),
                rb@.tail == start.ring.tail + i,
                start.ring.tail + items@.len() <= u64::MAX,
                puts_all(stores@, put),
            ensures
                topic_of(*self, *rb, *log) == want.0,
                put == want.1,
                deleted@ == want.2,
                match failure {
                    None => want.3 == Ok::<nat, Error>(i as nat),
                    Some(e) => want.3 == Err::<nat, Error>(e),
                },
            decreases items@.len() - i,
        {
            proof {
                assert(deleted@ + Seq::<u64>::empty() =~= deleted@);
                assert(put + Seq::<Put>::empty() =~= put);
            }
            if i >= items.len() {
                break;
            }
            proof {
                rb.lemma_wf();
                assert(views[i as int] == items@[i as int]@);
            }
            let data: &[u8] = items[i].as_slice();
            match self.batch_item(data.len(), rb.is_full()) {
                BatchStep::Fail(e) => {
                    failure = Some(e);
                    break;
                },
                BatchStep::Stop => {
                    break;
                },
                _ => {},
            }
            let (ts, log_io) = io.log[i];
            let ghost t = topic_of(*self, *rb, *log);
            let ghost one = logging(t.log, as_record(t, ts, data@), log_io).1;
            let ghost earlier = put;
            let (more, logged) = log_record(log, rb.current_tail(), ts, data, log_io);
            match more {
                Some(s) => {
                    stores.push(s);
                    proof {
                        put = put.push(one->Some_0);
                    }
                },
                None => {},
            }
            assert(earlier + with_put(one, Seq::empty()) =~= put);
            let ghost before = deleted@;
            let mut gone: Vec<u64> = match logged {
                Err(e) => {
                    failure = Some(Error::MappedWal(e));
                    break;
                },
                Ok(d) => d,
            };
            let ghost now = gone@;
            deleted.append(&mut gone);
            let _written: bool = if self.overwrites() {
                rb.publish_drop_oldest(data)
            } else {
                rb.try_publish(data)
            };
            self.batch_written();
            i = i + 1;
            proof {
                let rest = batch(topic_of(*self, *rb, *log), views, i as int, io.log@);
                assert(before + (now + rest.2) =~= deleted@ + rest.2);
                assert(earlier + with_put(one, rest.1) =~= put + rest.1);
            }
        }
        if i > 0 {
            self.broadcast_wakeup(&io.dead);
        }
        let result: Result<usize, Error> = match failure {
            Some(e) => Err(e),
            None => Ok(i),
        };
        LoggedBatch { result, deleted, stores }
    }
}

} // verus!
