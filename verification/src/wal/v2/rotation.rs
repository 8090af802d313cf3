//! Segment naming and rotation.
//!
//! Rotation closes the segment that is full, creates the next one and names it in the
//! coordination file, in that order: the file is there before anything points at it. A
//! crash between two steps leaves a directory that recovery can deal with, since the
//! segment with the highest first cursor is the one that counts.

use crate::error::IoKind;
use crate::text;
use crate::wal::v2::active::ActiveCoord;
use crate::wal::v2::mmap_segment_writer;
use crate::wal::v2::mmap_segment_writer::{Entry, MarkerWrite, MmapSegmentWriter, WriterError};
use vstd::prelude::*;

verus! {

/// Digits in a segment's file name: every `u64` fits.
pub const NAME_DIGITS: u64 = 20;

/// The file name of the segment that starts at `first_cursor`.
pub open spec fn name_of(first_cursor: u64) -> Seq<char> {
    text::fixed_decimal(first_cursor as nat, NAME_DIGITS as nat) + ".seg"@
}

/// The first cursor that a file name carries: `None` if it is not the name of a segment.
pub open spec fn cursor_of_name(name: Seq<char>) -> Option<u64> {
    if name.len() >= 4 && name.skip(name.len() - 4) == ".seg"@ {
        text::parsed_u64(name.take(name.len() - 4))
    } else {
        None
    }
}

/// The file name of the segment that starts at `first_cursor`: twenty digits, zeros in
/// front, so that the files sort by cursor.
pub fn segment_file_name(first_cursor: u64) -> (name: String)
    ensures
        name@ == name_of(first_cursor),
{
    let mut out: String = String::new();
    text::push_fixed_decimal(&mut out, first_cursor, NAME_DIGITS);
    out.append(".seg");
    assert(out@ =~= name_of(first_cursor));
    out
}

/// The first cursor that a file name carries. Other files in the directory give `None`.
pub fn parse_segment_name(name: &str) -> (r: Option<u64>)
    ensures
        r == cursor_of_name(name@),
{
    let chars: Vec<char> = text::chars_of(name);
    let n: usize = chars.len();
    if n < 4 {
        return None;
    }
    let stem: usize = n - 4;
    proof {
        reveal_strlit(".seg");
    }
    if chars[stem] != '.' || chars[stem + 1] != 's' || chars[stem + 2] != 'e' || chars[stem + 3]
        != 'g' {
        assert(name@.skip(n - 4)[0] == chars@[n - 4]);
        assert(name@.skip(n - 4)[1] == chars@[n - 3]);
        assert(name@.skip(n - 4)[2] == chars@[n - 2]);
        assert(name@.skip(n - 4)[3] == chars@[n - 1]);
        return None;
    }
    assert(name@.skip(n - 4) =~= ".seg"@);
    assert(chars@.subrange(0, stem as int) =~= name@.take(n - 4));
    text::parse_u64(&chars, 0, stem)
}

/// The path of the segment that starts at `first_cursor`.
pub fn segment_path(dir: &str, first_cursor: u64) -> (p: String)
    ensures
        p@ == text::joined(dir@, name_of(first_cursor)),
{
    let name: String = segment_file_name(first_cursor);
    text::join_path(dir, name.as_str())
}

/// A segment's name carries its first cursor.
pub proof fn law_name_carries_cursor(first_cursor: u64)
    ensures
        cursor_of_name(name_of(first_cursor)) == Some(first_cursor),
{
    let d = text::fixed_decimal(first_cursor as nat, NAME_DIGITS as nat);
    let name = name_of(first_cursor);
    reveal_strlit(".seg");
    lemma_pow10_of_digits();
    text::lemma_fixed_decimal_len(first_cursor as nat, NAME_DIGITS as nat);
    text::lemma_fixed_decimal_value(first_cursor as nat, NAME_DIGITS as nat);
    assert(name.skip(name.len() - 4) =~= ".seg"@);
    assert(name.take(name.len() - 4) =~= d);
    assert(text::is_digit(d[0]));
    assert(text::unsigned_part(d) == d);
}

proof fn lemma_pow10_of_digits()
    ensures
        text::pow10(NAME_DIGITS as nat) == 100_000_000_000_000_000_000,
{
    reveal_with_fuel(text::pow10, 21);
}

/// The names of segments sort like their first cursors: the name of the older one comes
/// first at the place where they differ.
pub proof fn law_names_sort_by_cursor(older: u64, newer: u64) -> (k: int)
    requires
        older < newer,
    ensures
        text::before_at(name_of(older), name_of(newer), k),
{
    let a = text::fixed_decimal(older as nat, NAME_DIGITS as nat);
    let b = text::fixed_decimal(newer as nat, NAME_DIGITS as nat);
    lemma_pow10_of_digits();
    let k = text::lemma_fixed_decimal_order(older as nat, newer as nat, NAME_DIGITS as nat);
    assert(name_of(older).take(k) =~= a.take(k));
    assert(name_of(newer).take(k) =~= b.take(k));
    k
}

/// Errors of a rotation.
#[derive(Debug, Clone, Copy, PartialEq, Eq, Structural)]
pub enum RotateError {
    Writer(WriterError),
    /// The coordination file could not be updated.
    Io(IoKind),
}

/// What the file operations of a rotation gave.
#[derive(Debug, Clone, Copy)]
pub struct RotateIo {
    /// Creating, sizing and mapping the next segment.
    pub created: Result<(), IoKind>,
    /// Updating the coordination file; not attempted unless the segment was created.
    pub published: Result<(), IoKind>,
}

/// Carries out one rotation: closes the old segment with a marker, starts the segment at
/// `new_first_cursor` and names it in the coordination file. The file operations stand
/// between: the marker of [`MmapSegmentWriter::skip_marker`] is stored first, then the
/// new file is created, then the coordination file is updated.
pub fn rotate(
    old_writer: &mut MmapSegmentWriter,
    active: &mut ActiveCoord,
    new_first_cursor: u64,
    segment_size: usize,
    io: RotateIo,
) -> (r: Result<MmapSegmentWriter, RotateError>)
    requires
        old(old_writer).wf(),
    ensures
        final(old_writer).wf(),
        final(old_writer).size() == old(old_writer).size(),
        final(old_writer).first() == old(old_writer).first(),
        final(old_writer).log() == (if old(old_writer).end() + 4 > old(old_writer).size() {
            old(old_writer).log()
        } else {
            old(old_writer).log().push(Entry::Skip)
        }),
        match (mmap_segment_writer::size_verdict(segment_size), io.created) {
            (Err(e), _) => {
                &&& r == Err::<MmapSegmentWriter, RotateError>(RotateError::Writer(e))
                &&& *final(active) == *old(active)
            },
            (Ok(_), Err(kind)) => {
                &&& r == Err::<MmapSegmentWriter, RotateError>(
                    RotateError::Writer(WriterError::Io(kind)),
                )
                &&& *final(active) == *old(active)
            },
            (Ok(_), Ok(_)) => {
                &&& final(active).first() == new_first_cursor
                &&& final(active).count() == (if old(active).count() == u64::MAX {
                    0
                } else {
                    old(active).count() + 1
                })
                &&& match io.published {
                    Err(kind) => r == Err::<MmapSegmentWriter, RotateError>(RotateError::Io(kind)),
                    Ok(_) => {
                        &&& r matches Ok(w)
                        &&& w.wf()
                        &&& w.size() == segment_size
                        &&& w.first() == new_first_cursor
                        &&& w.log() == Seq::<Entry>::empty()
                    },
                }
            },
        },
{
    let _marker: Result<Option<MarkerWrite>, WriterError> = old_writer.write_skip_to_end();
    let new_writer: MmapSegmentWriter = match MmapSegmentWriter::create(
        segment_size,
        new_first_cursor,
        io.created,
    ) {
        Ok(w) => w,
        Err(e) => {
            return Err(RotateError::Writer(e));
        },
    };
    active.store_active(new_first_cursor);
    match io.published {
        Err(kind) => Err(RotateError::Io(kind)),
        Ok(_) => Ok(new_writer),
    }
}

/// The highest first cursor among the names of a directory: the segment that counts
/// after a crash between creating a segment and naming it.
pub open spec fn is_newest(names: Seq<Seq<char>>, r: Option<u64>) -> bool {
    match r {
        None => forall|i: int| 0 <= i < names.len() ==> cursor_of_name(#[trigger] names[i]) is None,
        Some(c) => {
            &&& exists|i: int| 0 <= i < names.len() && cursor_of_name(#[trigger] names[i]) == Some(c)
            &&& forall|i: int|
                0 <= i < names.len() ==> (cursor_of_name(#[trigger] names[i]) matches Some(d)
                    ==> d <= c)
        },
    }
}

/// The views of the names of a directory.
pub open spec fn names_view(names: Seq<String>) -> Seq<Seq<char>> {
    names.map_values(|s: String| s@)
}

/// The highest first cursor among the segments of a directory, given its file names.
pub fn newest_segment(names: &Vec<String>) -> (r: Option<u64>)
    ensures
        is_newest(names_view(names@), r),
{
    let mut best: Option<u64> = None;
    let mut i: usize = 0;
    while i < names.len()
        invariant
            i <= names@.len(),
            is_newest(names_view(names@).take(i as int), best),
        decreases names@.len() - i,
    {
        let ghost all = names_view(names@);
        let ghost seen = all.take(i as int);
        let ghost more = all.take(i + 1);
        let parsed: Option<u64> = parse_segment_name(names[i].as_str());
        let ghost was = best;
        assert(more[i as int] == names@[i as int]@);
        assert(forall|j: int| 0 <= j < i ==> more[j] == seen[j]);
        match parsed {
            Some(c) => {
                match best {
                    Some(b) => {
                        if c > b {
                            best = Some(c);
                        }
                    },
                    None => {
                        best = Some(c);
                    },
                }
            },
            None => {},
        }
        proof {
            match best {
                Some(c) => {
                    if best == was {
                        let j = choose|j: int|
                            0 <= j < seen.len() && cursor_of_name(#[trigger] seen[j]) == Some(c);
                        assert(more[j] == seen[j]);
                    } else {
                        assert(cursor_of_name(more[i as int]) == Some(c));
                    }
                    assert forall|j: int| 0 <= j < more.len() implies (cursor_of_name(
                        #[trigger] more[j],
                    ) matches Some(d) ==> d <= c) by {
                        if j < i {
                            assert(more[j] == seen[j]);
                        }
                    }
                },
                None => {
                    assert forall|j: int| 0 <= j < more.len() implies cursor_of_name(
                        #[trigger] more[j],
                    ) is None by {
                        if j < i {
                            assert(more[j] == seen[j]);
                        }
                    }
                },
            }
            assert(is_newest(more, best));
        }
        i = i + 1;
    }
    assert(names_view(names@).take(i as int) =~= names_view(names@));
    best
}

} // verus!
