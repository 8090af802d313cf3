//! Read-only view over a WAL directory.
//!
//! Subscribers use it to replay messages older than what the ring holds. It repairs
//! nothing and writes nothing, so it can be used while a publisher writes to the same
//! directory.

use crate::error::IoKind;
use crate::wal::index;
use crate::wal::index::SegmentIndex;
use crate::wal::v2::rotation;
use crate::wal::v2::rotation::parse_segment_name;
use crate::wal::wal;
use crate::wal::wal::{replay_index, WalError, WalReplayer};
use vstd::prelude::*;

verus! {

/// The segments of a WAL directory at the time it was listed. Later rotations are not
/// followed.
pub struct WalReader {
    index: SegmentIndex,
}

/// The first cursors that the file names carry, each once, in ascending order.
pub open spec fn listed(names: Seq<Seq<char>>) -> Seq<(u64, u64)>
    decreases names.len(),
{
    if names.len() == 0 {
        Seq::empty()
    } else {
        let rest = listed(names.drop_last());
        match rotation::cursor_of_name(names.last()) {
            Some(c) => index::with_entry(rest, c, 0),
            None => rest,
        }
    }
}

impl WalReader {
    /// The segments, in ascending order of their first cursors.
    pub closed spec fn index(&self) -> Seq<(u64, u64)> {
        self.index@
    }

    pub closed spec fn wf(&self) -> bool {
        self.index.wf()
    }

    /// Builds the reader from what listing the WAL directory gave. A directory that does
    /// not exist has no segments; files that are not segments are ignored.
    pub fn open(listing: Result<Vec<String>, IoKind>) -> (r: Result<WalReader, IoKind>)
        ensures
            match listing {
                Ok(names) => {
                    &&& r matches Ok(rd)
                    &&& rd.wf()
                    &&& rd.index() == listed(rotation::names_view(names@))
                },
                Err(IoKind::NotFound) => {
                    &&& r matches Ok(rd)
                    &&& rd.wf()
                    &&& rd.index() == Seq::<(u64, u64)>::empty()
                },
                Err(kind) => r == Err::<WalReader, IoKind>(kind),
            },
    {
        let names: Vec<String> = match listing {
            Ok(n) => n,
            Err(IoKind::NotFound) => {
                return Ok(WalReader { index: SegmentIndex::new() });
            },
            Err(kind) => {
                return Err(kind);
            },
        };
        let mut idx: SegmentIndex = SegmentIndex::new();
        let mut i: usize = 0;
        let ghost all = rotation::names_view(names@);
        assert(all.take(0) =~= Seq::<Seq<char>>::empty());
        while i < names.len()
            invariant
                i <= names@.len(),
                all == rotation::names_view(names@),
                idx.wf(),
                idx@ == listed(all.take(i as int)),
            decreases names@.len() - i,
        {
            assert(all.take(i + 1).drop_last() =~= all.take(i as int));
            assert(all.take(i + 1).last() == names@[i as int]@);
            match parse_segment_name(names[i].as_str()) {
                Some(first) => {
                    idx.insert(first, 0);
                },
                None => {},
            }
            i = i + 1;
        }
        assert(all.take(i as int) =~= all);
        Ok(WalReader { index: idx })
    }

    /// First cursor still on disk, `None` for an empty log.
    pub fn oldest_cursor(&self) -> (r: Option<u64>)
        ensures
            r == (if self.index().len() == 0 {
                None
            } else {
                Some(self.index()[0].0)
            }),
    {
        self.index.first()
    }

    /// Reads the records from `cursor` on. Refuses a cursor that is older than the oldest
    /// segment.
    pub fn read_from(&self, cursor: u64) -> (r: Result<WalReplayer, WalError>)
        requires
            self.wf(),
        ensures
            wal::replays(self.index(), cursor, r),
    {
        replay_index(&self.index, cursor)
    }

    pub fn segments(&self) -> (n: usize)
        ensures
            n == self.index().len(),
    {
        self.index.len()
    }
}

/// The index of a directory ascends, knows exactly the segments that are named, and each
/// of them once.
pub proof fn law_listing_is_indexed(names: Seq<Seq<char>>)
    ensures
        index::ascending(listed(names)),
        forall|c: u64|
            #[trigger] index::has_key(listed(names), c) <==> exists|i: int|
                0 <= i < names.len() && rotation::cursor_of_name(#[trigger] names[i]) == Some(c),
    decreases names.len(),
{
    if names.len() > 0 {
        let rest = names.drop_last();
        law_listing_is_indexed(rest);
        let s = listed(rest);
        match rotation::cursor_of_name(names.last()) {
            Some(k) => {
                index::lemma_with_entry(s, k, 0);
                index::lemma_with_entry_keys(s, k, 0);
            },
            None => {},
        }
        assert forall|c: u64| #[trigger] index::has_key(listed(names), c) <==> exists|i: int|
            0 <= i < names.len() && rotation::cursor_of_name(#[trigger] names[i]) == Some(c) by {
            if rotation::cursor_of_name(names.last()) == Some(c) {
                assert(rotation::cursor_of_name(names[names.len() - 1]) == Some(c));
            } else {
                if index::has_key(s, c) {
                    let i = choose|i: int|
                        0 <= i < rest.len() && rotation::cursor_of_name(#[trigger] rest[i])
                            == Some(c);
                    assert(names[i] == rest[i]);
                }
                if exists|i: int|
                    0 <= i < names.len() && rotation::cursor_of_name(#[trigger] names[i]) == Some(
                        c,
                    ) {
                    let i = choose|i: int|
                        0 <= i < names.len() && rotation::cursor_of_name(#[trigger] names[i])
                            == Some(c);
                    assert(rest[i] == names[i]);
                }
            }
        }
    }
}

} // verus!
