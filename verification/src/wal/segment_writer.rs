//! Single-segment writer.
//!
//! The writer encodes into a buffer in memory; whoever owns the segment file moves the
//! buffered bytes to it ([`SegmentWriter::take_buffered`]) and reports what the file
//! operations gave. One writer serves one segment; rotation closes it and opens the next.

use crate::codec;
use crate::error::IoKind;
use crate::wal::checksum;
use crate::wal::record;
use crate::wal::record::{
    encode_segment_header, Record, SegmentHeader, SegmentHeaderError, MAX_PAYLOAD_LEN,
    RECORD_FRAMING, SEGMENT_HEADER_LEN, SEGMENT_VERSION,
};
use crate::wal::segment_reader;
use vstd::prelude::*;

verus! {

#[derive(Debug, Clone, Copy, PartialEq, Eq, Structural)]
pub enum WriterError {
    PayloadTooLarge { payload_len: usize },
    /// The cursor of an append has to be the pending one.
    CursorRegressed { got: u64, expected: u64 },
    Io(IoKind),
}

/// The state of one WAL segment that is being written.
pub struct SegmentWriter {
    first_cursor: u64,
    pending_cursor: u64,
    durable_cursor: u64,
    bytes_written: u64,
    buffer: Vec<u8>,
    written: Ghost<Seq<u8>>,
    records: Ghost<Seq<record::RecordView>>,
    created: Ghost<u64>,
}

/// A segment file: its header and its records.
pub open spec fn segment_bytes(
    first_cursor: u64,
    created: u64,
    records: Seq<record::RecordView>,
) -> Seq<u8> {
    record::header_bytes(SEGMENT_VERSION, first_cursor, created) + segment_reader::encoded_records(
        records,
    )
}

/// The records carry consecutive cursors from `first` on.
pub open spec fn consecutive(records: Seq<record::RecordView>, first: u64) -> bool {
    forall|i: int| 0 <= i < records.len() ==> (#[trigger] records[i]).cursor == first + i
}

/// Appending one record appends its encoding.
pub proof fn lemma_encoded_push(rs: Seq<record::RecordView>, r: record::RecordView)
    ensures
        segment_reader::encoded_records(rs.push(r)) == segment_reader::encoded_records(rs)
            + record::encoded_record(r),
    decreases rs.len(),
{
    let all = rs.push(r);
    if rs.len() == 0 {
        assert(all[0] == r && all.skip(1).len() == 0);
        assert(segment_reader::encoded_records(all.skip(1)) =~= Seq::empty());
        assert(segment_reader::encoded_records(all) =~= record::encoded_record(r));
        assert(segment_reader::encoded_records(rs) + record::encoded_record(r)
            =~= record::encoded_record(r));
    } else {
        lemma_encoded_push(rs.skip(1), r);
        assert(all.skip(1) =~= rs.skip(1).push(r));
        assert(segment_reader::encoded_records(all) =~= segment_reader::encoded_records(rs)
            + record::encoded_record(r));
    }
}

impl SegmentWriter {
    /// The cursor that the segment starts at.
    pub closed spec fn first(&self) -> u64 {
        self.first_cursor
    }

    /// The cursor of the next append.
    pub closed spec fn pending(&self) -> u64 {
        self.pending_cursor
    }

    /// The cursor up to which the records are on stable storage.
    pub closed spec fn durable(&self) -> u64 {
        self.durable_cursor
    }

    /// When the segment was created.
    pub closed spec fn created_at(&self) -> u64 {
        self.created@
    }

    /// The records appended so far.
    pub closed spec fn log(&self) -> Seq<record::RecordView> {
        self.records@
    }

    /// The encoded bytes that have not been handed to the file yet.
    pub closed spec fn buffered(&self) -> Seq<u8> {
        self.buffer@
    }

    /// The bytes that have been handed to the file.
    pub closed spec fn in_file(&self) -> Seq<u8> {
        self.written@
    }

    /// All bytes of the segment: those in the file, then those still buffered.
    pub open spec fn content(&self) -> Seq<u8> {
        self.in_file() + self.buffered()
    }

    pub closed spec fn wf(&self) -> bool {
        &&& self.pending_cursor == self.first_cursor + self.records@.len()
        &&& self.first_cursor <= self.durable_cursor <= self.pending_cursor
        &&& segment_reader::payloads_fit(self.records@)
        &&& consecutive(self.records@, self.first_cursor)
        &&& self.written@ + self.buffer@ == segment_bytes(
            self.first_cursor,
            self.created@,
            self.records@,
        )
        &&& self.bytes_written == (self.written@ + self.buffer@).len()
    }

    /// What the parts of a writer have to do with each other.
    pub proof fn lemma_wf(&self)
        requires
            self.wf(),
        ensures
            self.pending() == self.first() + self.log().len(),
            self.first() <= self.durable() <= self.pending(),
            segment_reader::payloads_fit(self.log()),
            consecutive(self.log(), self.first()),
            self.content() == segment_bytes(self.first(), self.created_at(), self.log()),
            self.content().len() >= SEGMENT_HEADER_LEN,
    {
        record::lemma_header_bytes(SEGMENT_VERSION, self.first_cursor, self.created@);
    }

    /// A segment never outgrows the numbers that its size is counted in.
    pub proof fn lemma_size(&self)
        requires
            self.wf(),
        ensures
            self.content().len() <= u64::MAX,
    {
    }

    /// Starts a fresh segment, given what creating its file gave. The header stands in
    /// the buffer.
    pub fn create(first_cursor: u64, created: Result<(), IoKind>) -> (r: Result<
        SegmentWriter,
        WriterError,
    >)
        ensures
            match created {
                Err(kind) => r == Err::<SegmentWriter, WriterError>(WriterError::Io(kind)),
                Ok(_) => {
                    &&& r matches Ok(w)
                    &&& w.wf()
                    &&& w.first() == first_cursor
                    &&& w.durable() == first_cursor
                    &&& w.log() == Seq::<record::RecordView>::empty()
                    &&& w.in_file() == Seq::<u8>::empty()
                    &&& w.buffered() == record::header_bytes(
                        SEGMENT_VERSION,
                        first_cursor,
                        w.created_at(),
                    )
                },
            },
    {
        match created {
            Err(kind) => Err(WriterError::Io(kind)),
            Ok(_) => {
                let header: [u8; SEGMENT_HEADER_LEN] = encode_segment_header(first_cursor);
                let mut buffer: Vec<u8> = Vec::new();
                codec::push_bytes(&mut buffer, header.as_slice());
                let ghost at = choose|c: u64|
                    header@ == #[trigger] record::header_bytes(SEGMENT_VERSION, first_cursor, c);
                let w = SegmentWriter {
                    first_cursor,
                    pending_cursor: first_cursor,
                    durable_cursor: first_cursor,
                    bytes_written: SEGMENT_HEADER_LEN as u64,
                    buffer,
                    written: Ghost(Seq::empty()),
                    records: Ghost(Seq::empty()),
                    created: Ghost(at),
                };
                proof {
                    record::lemma_header_bytes(SEGMENT_VERSION, first_cursor, at);
                    assert(buffer@ =~= header@);
                    assert(w.written@ + w.buffer@ =~= segment_bytes(
                        first_cursor,
                        at,
                        Seq::empty(),
                    ));
                }
                Ok(w)
            },
        }
    }

    /// Appends one record. Does not make it durable: see [`Self::fsync`]. The cursor has
    /// to be the pending one.
    pub fn append(&mut self, cursor: u64, ts_unix_nanos: u64, payload: &[u8]) -> (r: Result<
        (),
        WriterError,
    >)
        requires
            old(self).wf(),
            old(self).pending() < u64::MAX,
            old(self).content().len() + RECORD_FRAMING + payload@.len() <= u64::MAX,
        ensures
            final(self).wf(),
            if payload@.len() > MAX_PAYLOAD_LEN {
                &&& r == Err::<(), WriterError>(
                    WriterError::PayloadTooLarge { payload_len: payload@.len() as usize },
                )
                &&& *final(self) == *old(self)
            } else if cursor != old(self).pending() {
                &&& r == Err::<(), WriterError>(
                    WriterError::CursorRegressed { got: cursor, expected: old(self).pending() },
                )
                &&& *final(self) == *old(self)
            } else {
                let rec = record::RecordView { cursor, ts_unix_nanos, payload: payload@ };
                &&& r == Ok::<(), WriterError>(())
                &&& final(self).log() == old(self).log().push(rec)
                &&& final(self).first() == old(self).first()
                &&& final(self).durable() == old(self).durable()
                &&& final(self).created_at() == old(self).created_at()
                &&& final(self).in_file() == old(self).in_file()
                &&& final(self).buffered() == old(self).buffered() + record::encoded_record(rec)
            },
    {
        if payload.len() > MAX_PAYLOAD_LEN {
            return Err(WriterError::PayloadTooLarge { payload_len: payload.len() });
        }
        if cursor != self.pending_cursor {
            return Err(
                WriterError::CursorRegressed { got: cursor, expected: self.pending_cursor },
            );
        }
        let ghost before = *self;
        let n: u64 = (RECORD_FRAMING + payload.len()) as u64;
        let rec = Record {
            cursor,
            ts_unix_nanos,
            payload: codec::copy_range(payload, 0, payload.len()),
        };
        proof {
            assert(rec@.payload =~= payload@);
            record::lemma_sealed_record_len(
                rec@,
                checksum::crc32c_of(record::record_body(rec@)),
            );
            lemma_encoded_push(self.records@, rec@);
        }
        rec.encode_into(&mut self.buffer);
        self.bytes_written = self.bytes_written + n;
        self.pending_cursor = cursor + 1;
        self.records = Ghost(self.records@.push(rec@));
        proof {
            assert(self.written@ + self.buffer@ =~= (before.written@ + before.buffer@)
                + record::encoded_record(rec@));
            assert(self.written@ + self.buffer@ =~= segment_bytes(
                self.first_cursor,
                self.created@,
                self.records@,
            ));
        }
        Ok(())
    }

    /// Hands over the encoded bytes that the file does not hold yet.
    pub fn take_buffered(&mut self) -> (bytes: Vec<u8>)
        requires
            old(self).wf(),
        ensures
            final(self).wf(),
            bytes@ == old(self).buffered(),
            final(self).buffered() == Seq::<u8>::empty(),
            final(self).in_file() == old(self).in_file() + bytes@,
            final(self).log() == old(self).log(),
            final(self).first() == old(self).first(),
            final(self).durable() == old(self).durable(),
            final(self).created_at() == old(self).created_at(),
    {
        let mut bytes: Vec<u8> = Vec::new();
        bytes.append(&mut self.buffer);
        self.written = Ghost(self.written@ + bytes@);
        proof {
            assert(bytes@ =~= old(self).buffer@);
            assert(self.written@ + self.buffer@ =~= old(self).written@ + old(self).buffer@);
        }
        bytes
    }

    /// Records what flushing the file and pushing it to stable storage gave: on success
    /// everything appended so far is durable. Returns the new durable cursor.
    pub fn fsync(&mut self, synced: Result<(), IoKind>) -> (r: Result<u64, WriterError>)
        requires
            old(self).wf(),
        ensures
            final(self).wf(),
            final(self).log() == old(self).log(),
            final(self).first() == old(self).first(),
            final(self).created_at() == old(self).created_at(),
            final(self).in_file() == old(self).in_file(),
            final(self).buffered() == old(self).buffered(),
            match synced {
                Err(kind) => {
                    &&& r == Err::<u64, WriterError>(WriterError::Io(kind))
                    &&& final(self).durable() == old(self).durable()
                },
                Ok(_) => {
                    &&& r == Ok::<u64, WriterError>(old(self).pending())
                    &&& final(self).durable() == old(self).pending()
                },
            },
    {
        match synced {
            Err(kind) => Err(WriterError::Io(kind)),
            Ok(_) => {
                self.durable_cursor = self.pending_cursor;
                Ok(self.durable_cursor)
            },
        }
    }

    /// Final sync, then drop.
    pub fn close(self, synced: Result<(), IoKind>) -> (r: Result<(), WriterError>)
        requires
            self.wf(),
        ensures
            match synced {
                Err(kind) => r == Err::<(), WriterError>(WriterError::Io(kind)),
                Ok(_) => r == Ok::<(), WriterError>(()),
            },
    {
        let mut w = self;
        match w.fsync(synced) {
            Err(e) => Err(e),
            Ok(_) => Ok(()),
        }
    }

    pub fn first_cursor(&self) -> (c: u64)
        ensures
            c == self.first(),
    {
        self.first_cursor
    }

    /// One past the last appended cursor; the first cursor before any append.
    pub fn pending_cursor(&self) -> (c: u64)
        ensures
            c == self.pending(),
    {
        self.pending_cursor
    }

    /// The cursor up to which records are durable. Lags the pending cursor until
    /// [`Self::fsync`].
    pub fn durable_cursor(&self) -> (c: u64)
        ensures
            c == self.durable(),
    {
        self.durable_cursor
    }

    /// Header and records, in bytes.
    pub fn bytes_written(&self) -> (n: u64)
        requires
            self.wf(),
        ensures
            n == self.content().len(),
    {
        self.bytes_written
    }
}

/// A reader of what a segment writer produced finds the header it was created with and
/// exactly the records that were appended, in order.
pub proof fn law_written_segment_reads_back(w: SegmentWriter)
    requires
        w.wf(),
    ensures
        record::parsed_header(w.content()) == Ok::<SegmentHeader, SegmentHeaderError>(
            SegmentHeader { first_cursor: w.first(), created_unix_nanos: w.created_at() },
        ),
        segment_reader::scan(w.content(), SEGMENT_HEADER_LEN as int) == (segment_reader::Scan {
            records: w.log(),
            end: w.content().len() as int,
            error: None,
        }),
{
    let h = record::header_bytes(SEGMENT_VERSION, w.first(), w.created_at());
    w.lemma_wf();
    record::lemma_header_bytes(SEGMENT_VERSION, w.first(), w.created_at());
    record::law_header_round_trip(
        w.first(),
        w.created_at(),
        segment_reader::encoded_records(w.log()),
    );
    segment_reader::law_scan_of_encoded(h, w.log());
}

} // verus!
