//! Messages of one fixed size, received row by row into one buffer.

use crate::codec;
use vstd::prelude::*;

verus! {

/// Why a message cannot become a row.
#[derive(Debug, Clone, Copy, PartialEq, Eq, Structural)]
pub enum RowError {
    /// Rows have to have a size.
    ZeroSize,
    /// The message for row `index` has another size.
    Mismatch { index: usize, len: usize, payload_size: usize },
    /// The message for row `index` is too large for it.
    TooLarge { index: usize, payload_size: usize },
}

/// How many rows of this size a buffer of `len` bytes holds.
pub fn row_capacity(len: usize, payload_size: usize) -> (r: Result<usize, RowError>)
    ensures
        r == (if payload_size == 0 {
            Err::<usize, RowError>(RowError::ZeroSize)
        } else {
            Ok::<usize, RowError>(len / payload_size)
        }),
        r matches Ok(n) ==> n * payload_size <= len,
{
    if payload_size == 0 {
        return Err(RowError::ZeroSize);
    }
    let n: usize = len / payload_size;
    proof {
        vstd::arithmetic::div_mod::lemma_fundamental_div_mod(len as int, payload_size as int);
        assert(n * payload_size == payload_size * n) by (nonlinear_arith);
    }
    Ok(n)
}

/// Whether a message of `len` bytes becomes row `index`. The first message was received
/// whole, so its size is known even if it is too large.
pub open spec fn row_verdict(index: usize, len: nat, payload_size: usize) -> Result<(), RowError> {
    if len == payload_size {
        Ok(())
    } else if index > 0 && len > payload_size {
        Err(RowError::TooLarge { index, payload_size })
    } else {
        Err(RowError::Mismatch { index, len: len as usize, payload_size })
    }
}

/// The buffer after a message for row `index`: the row holds it if it has the right size.
/// A later message that is too short stands at the start of its row all the same.
pub open spec fn with_row(buf: Seq<u8>, index: usize, payload: Seq<u8>, payload_size: usize) -> Seq<
    u8,
> {
    if payload.len() == payload_size || (index > 0 && payload.len() < payload_size) {
        codec::patch(buf, index * payload_size, payload)
    } else {
        buf
    }
}

/// Puts a message into row `index`.
pub fn store_row(buf: &mut [u8], index: usize, payload: &[u8], payload_size: usize) -> (r: Result<
    (),
    RowError,
>)
    requires
        (index + 1) * payload_size <= old(buf)@.len(),
    ensures
        r == row_verdict(index, payload@.len(), payload_size),
        final(buf)@ == with_row(old(buf)@, index, payload@, payload_size),
{
    let len: usize = payload.len();
    let total: usize = buf.len();
    assert((index + 1) * payload_size == index * payload_size + payload_size) by (nonlinear_arith);
    assert(index * payload_size >= 0) by (nonlinear_arith);
    if len == payload_size || (index > 0 && len < payload_size) {
        let at: usize = index * payload_size;
        let ghost before = buf@;
        let mut i: usize = 0;
        while i < len
            invariant
                i <= len,
                len == payload@.len(),
                at + len <= before.len() == total,
                buf@ == codec::patch(before, at as int, payload@.take(i as int)),
            decreases len - i,
        {
            buf[at + i] = payload[i];
            i = i + 1;
            assert(buf@ =~= codec::patch(before, at as int, payload@.take(i as int)));
        }
        assert(payload@.take(i as int) =~= payload@);
        assert(buf@ =~= codec::patch(before, at as int, payload@));
    }
    if len == payload_size {
        Ok(())
    } else if index > 0 && len > payload_size {
        Err(RowError::TooLarge { index, payload_size })
    } else {
        Err(RowError::Mismatch { index, len, payload_size })
    }
}

/// A message becomes a row exactly when it has the size of a row. A later one that is larger
/// is told apart; any other size is a mismatch.
pub proof fn law_only_whole_rows_are_taken(index: usize, len: nat, payload_size: usize)
    ensures
        row_verdict(index, len, payload_size) is Ok <==> len == payload_size,
        index > 0 && len > payload_size ==> row_verdict(index, len, payload_size) == Err::<
            (),
            RowError,
        >(RowError::TooLarge { index, payload_size }),
        len != payload_size && (index == 0 || len < payload_size) ==> row_verdict(
            index,
            len,
            payload_size,
        ) == Err::<(), RowError>(RowError::Mismatch { index, len: len as usize, payload_size }),
{
}

/// Row `index` holds the whole message afterwards, and every byte outside the row is as it
/// was. A message that is too short stands at the start of its row; one that is too long, or
/// the first one if it has another size, changes nothing.
pub proof fn law_row_holds_the_message(
    buf: Seq<u8>,
    index: usize,
    payload: Seq<u8>,
    payload_size: usize,
)
    requires
        (index + 1) * payload_size <= buf.len(),
    ensures
        ({
            let after = with_row(buf, index, payload, payload_size);
            let at = index * payload_size;
            &&& after.len() == buf.len()
            &&& payload.len() == payload_size ==> after.subrange(at, at + payload_size) == payload
            &&& payload.len() < payload_size && index > 0 ==> after.subrange(
                at,
                at + payload.len(),
            ) == payload
            &&& forall|i: int|
                0 <= i < buf.len() && !(at <= i < at + payload.len()) ==> #[trigger] after[i]
                    == buf[i]
            &&& payload.len() > payload_size || (index == 0 && payload.len() != payload_size)
                ==> after == buf
        }),
{
    let after = with_row(buf, index, payload, payload_size);
    let at = index * payload_size;
    assert((index + 1) * payload_size == index * payload_size + payload_size) by (nonlinear_arith);
    assert(index * payload_size >= 0) by (nonlinear_arith);
    if payload.len() <= payload_size && (index > 0 || payload.len() == payload_size) {
        assert(after.subrange(at, at + payload.len()) =~= payload);
    }
}

} // verus!
