//! The CRC-32C checksum of a record body.

use vstd::prelude::*;

verus! {

/// The CRC-32C (Castagnoli) checksum of `data`.
pub uninterp spec fn crc32c_of(data: Seq<u8>) -> u32;

/// `crc32c::crc32c` computes the CRC-32C of its argument from the initial value zero.
/// Its result depends on the bytes alone; which number that is stays unsaid here.
pub assume_specification[ crc32c::crc32c ](data: &[u8]) -> (crc: u32)
    ensures
        crc == crc32c_of(data@),
;

} // verus!
