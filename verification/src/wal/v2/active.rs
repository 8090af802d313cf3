//! The coordination file that names the active segment.
//!
//! Sixteen bytes: the first cursor of the active segment and a generation that counts its
//! changes. Subscribers read it to follow rotations.

use crate::codec;
use vstd::prelude::*;

verus! {

/// Name of the coordination file inside the WAL directory.
pub const ACTIVE_COORD_FILENAME: &'static str = "active.dat";

/// Size of the coordination file.
pub const ACTIVE_COORD_LEN: usize = 16;

/// The contents of the coordination file.
#[derive(Debug, Clone, Copy, PartialEq, Eq, Structural)]
pub struct ActiveCoord {
    first_cursor: u64,
    generation: u64,
}

/// The coordination file of a segment and a generation.
pub open spec fn coord_bytes(first_cursor: u64, generation: u64) -> Seq<u8> {
    codec::le_bytes(first_cursor as nat, 8) + codec::le_bytes(generation as nat, 8)
}

/// What a coordination file says: nothing if it is too short.
pub open spec fn coord_at(bytes: Seq<u8>) -> Option<(u64, u64)> {
    if bytes.len() < ACTIVE_COORD_LEN {
        None
    } else {
        Some((codec::le_at(bytes, 0, 8) as u64, codec::le_at(bytes, 8, 8) as u64))
    }
}

/// Reads the first cursor and the generation out of a coordination file, without taking
/// it into use. `None` if the file is too short.
pub fn peek(bytes: &[u8]) -> (r: Option<(u64, u64)>)
    ensures
        r == coord_at(bytes@),
{
    if bytes.len() < ACTIVE_COORD_LEN {
        return None;
    }
    Some((codec::read_u64(bytes, 0), codec::read_u64(bytes, 8)))
}

impl ActiveCoord {
    /// The first cursor of the active segment.
    pub closed spec fn first(&self) -> u64 {
        self.first_cursor
    }

    /// How often the active segment was named.
    pub closed spec fn count(&self) -> u64 {
        self.generation
    }

    /// Takes a coordination file into use. One that is new, or too short, counts from zero.
    pub fn open_or_create(existing: Option<&[u8]>) -> (c: ActiveCoord)
        ensures
            match existing {
                Some(bytes) => match coord_at(bytes@) {
                    Some((first, count)) => c.first() == first && c.count() == count,
                    None => c.first() == 0 && c.count() == 0,
                },
                None => c.first() == 0 && c.count() == 0,
            },
    {
        match existing {
            Some(bytes) => match peek(bytes) {
                Some((first_cursor, generation)) => ActiveCoord { first_cursor, generation },
                None => ActiveCoord { first_cursor: 0, generation: 0 },
            },
            None => ActiveCoord { first_cursor: 0, generation: 0 },
        }
    }

    /// Names the segment that starts at `first_cursor` as the active one.
    pub fn store_active(&mut self, first_cursor: u64)
        ensures
            final(self).first() == first_cursor,
            final(self).count() == (if old(self).count() == u64::MAX {
                0
            } else {
                old(self).count() + 1
            }),
    {
        self.first_cursor = first_cursor;
        self.generation = self.generation.wrapping_add(1);
    }

    pub fn load_first_cursor(&self) -> (c: u64)
        ensures
            c == self.first(),
    {
        self.first_cursor
    }

    pub fn load_generation(&self) -> (g: u64)
        ensures
            g == self.count(),
    {
        self.generation
    }

    /// The bytes of the coordination file.
    pub fn to_bytes(&self) -> (b: Vec<u8>)
        ensures
            b@ == coord_bytes(self.first(), self.count()),
    {
        let mut b: Vec<u8> = Vec::new();
        codec::push_u64(&mut b, self.first_cursor);
        codec::push_u64(&mut b, self.generation);
        assert(b@ =~= coord_bytes(self.first(), self.count()));
        b
    }
}

/// A coordination file reads back as it was written.
pub proof fn law_coord_round_trip(first_cursor: u64, generation: u64)
    ensures
        coord_bytes(first_cursor, generation).len() == ACTIVE_COORD_LEN,
        coord_at(coord_bytes(first_cursor, generation)) == Some((first_cursor, generation)),
{
    let b = coord_bytes(first_cursor, generation);
    codec::lemma_pow256();
    codec::lemma_le_value_of_bytes(first_cursor as nat, 8);
    codec::lemma_le_value_of_bytes(generation as nat, 8);
    assert(b.subrange(0, 8) =~= codec::le_bytes(first_cursor as nat, 8));
    assert(b.subrange(8, 16) =~= codec::le_bytes(generation as nat, 8));
}

} // verus!
