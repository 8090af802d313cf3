//! Little-endian integers inside byte buffers.

use vstd::prelude::*;

verus! {

/// The `n` low-order bytes of `x`, least significant first.
pub open spec fn le_bytes(x: nat, n: nat) -> Seq<u8>
    decreases n,
{
    if n == 0 {
        Seq::empty()
    } else {
        seq![(x % 256) as u8] + le_bytes(x / 256, (n - 1) as nat)
    }
}

/// The number whose little-endian digits in base 256 are `s`.
pub open spec fn le_value(s: Seq<u8>) -> nat
    decreases s.len(),
{
    if s.len() == 0 {
        0
    } else {
        s[0] as nat + 256 * le_value(s.skip(1))
    }
}

/// `256` to the power `n`: the number of values that `n` bytes can hold.
pub open spec fn pow256(n: nat) -> nat
    decreases n,
{
    if n == 0 {
        1
    } else {
        256 * pow256((n - 1) as nat)
    }
}

/// The little-endian number in the `n` bytes of `s` that start at `at`.
pub open spec fn le_at(s: Seq<u8>, at: int, n: int) -> nat {
    le_value(s.subrange(at, at + n))
}

/// `s` with the bytes from `at` on replaced by `d`.
pub open spec fn patch(s: Seq<u8>, at: int, d: Seq<u8>) -> Seq<u8> {
    Seq::new(s.len(), |i: int| if at <= i < at + d.len() { d[i - at] } else { s[i] })
}

pub proof fn lemma_le_bytes_len(x: nat, n: nat)
    ensures
        le_bytes(x, n).len() == n,
    decreases n,
{
    if n > 0 {
        lemma_le_bytes_len(x / 256, (n - 1) as nat);
    }
}

/// Reading back what was encoded: `n` bytes hold every number below `256^n`.
pub proof fn lemma_le_value_of_bytes(x: nat, n: nat)
    requires
        x < pow256(n),
    ensures
        le_bytes(x, n).len() == n,
        le_value(le_bytes(x, n)) == x,
    decreases n,
{
    if n > 0 {
        let m = (n - 1) as nat;
        assert(x / 256 < pow256(m)) by {
            assert(x < 256 * pow256(m));
        }
        lemma_le_value_of_bytes(x / 256, m);
        assert(le_bytes(x, n).skip(1) =~= le_bytes(x / 256, m));
        assert(le_bytes(x, n)[0] == (x % 256) as u8);
    }
}

/// Encoding again what was read gives the bytes back.
pub proof fn lemma_le_bytes_of_value(s: Seq<u8>)
    ensures
        le_bytes(le_value(s), s.len()) == s,
        le_value(s) < pow256(s.len()),
    decreases s.len(),
{
    if s.len() > 0 {
        let t = s.skip(1);
        lemma_le_bytes_of_value(t);
        let v = le_value(s);
        assert(v % 256 == s[0] as nat && v / 256 == le_value(t));
        assert(le_bytes(v, s.len()) =~= seq![s[0]] + t);
        assert(seq![s[0]] + t =~= s);
    } else {
        assert(le_bytes(0, 0) =~= s);
    }
}

/// Bytes that differ stand for different numbers.
pub proof fn lemma_le_value_differs(a: Seq<u8>, b: Seq<u8>)
    requires
        a.len() == b.len(),
        a != b,
    ensures
        le_value(a) != le_value(b),
{
    lemma_le_bytes_of_value(a);
    lemma_le_bytes_of_value(b);
}

pub proof fn lemma_pow256()
    ensures
        pow256(4) == 0x1_0000_0000,
        pow256(8) == 0x1_0000_0000_0000_0000,
{
    reveal_with_fuel(pow256, 9);
}

/// What `patch` leaves in a range that it does not touch, and in the one it replaces.
pub proof fn lemma_patch(s: Seq<u8>, at: int, d: Seq<u8>)
    requires
        0 <= at,
        at + d.len() <= s.len(),
    ensures
        patch(s, at, d).len() == s.len(),
        patch(s, at, d).subrange(at, at + d.len()) == d,
        forall|i: int, j: int|
            0 <= i <= j <= s.len() && (j <= at || at + d.len() <= i) ==> #[trigger] patch(
                s,
                at,
                d,
            ).subrange(i, j) == s.subrange(i, j),
{
    let p = patch(s, at, d);
    assert(p.subrange(at, at + d.len()) =~= d);
    assert forall|i: int, j: int|
        0 <= i <= j <= s.len() && (j <= at || at + d.len() <= i) implies #[trigger] p.subrange(i, j)
        == s.subrange(i, j) by {
        assert(p.subrange(i, j) =~= s.subrange(i, j));
    }
}

/// Appends the low `n` bytes of `x`, least significant first.
fn push_le(out: &mut Vec<u8>, x: u64, n: usize)
    ensures
        final(out)@ == old(out)@ + le_bytes(x as nat, n as nat),
{
    let mut rest: u64 = x;
    let mut left: usize = n;
    assert(out@ + le_bytes(x as nat, n as nat) =~= old(out)@ + le_bytes(x as nat, n as nat));
    while left > 0
        invariant
            left <= n,
            out@ + le_bytes(rest as nat, left as nat) == old(out)@ + le_bytes(x as nat, n as nat),
        decreases left,
    {
        let ghost before = out@;
        let byte: u8 = (rest % 256) as u8;
        out.push(byte);
        assert(out@ + le_bytes((rest / 256) as nat, (left - 1) as nat) =~= before + le_bytes(
            rest as nat,
            left as nat,
        ));
        rest = rest / 256;
        left = left - 1;
    }
    assert(out@ + le_bytes(rest as nat, 0) =~= out@);
}

/// Appends `x` as four little-endian bytes.
pub fn push_u32(out: &mut Vec<u8>, x: u32)
    ensures
        final(out)@ == old(out)@ + le_bytes(x as nat, 4),
{
    push_le(out, x as u64, 4);
}

/// Appends `x` as eight little-endian bytes.
pub fn push_u64(out: &mut Vec<u8>, x: u64)
    ensures
        final(out)@ == old(out)@ + le_bytes(x as nat, 8),
{
    push_le(out, x, 8);
}

/// The number in the `n` bytes that start at `at`.
fn read_le(buf: &[u8], at: usize, n: usize) -> (x: u64)
    requires
        n <= 8,
        at + n <= buf@.len(),
    ensures
        x as nat == le_at(buf@, at as int, n as int),
        (x as nat) < pow256(n as nat),
    decreases n,
{
    let ghost s = buf@.subrange(at as int, at + n);
    if n == 0 {
        return 0;
    }
    let total: usize = buf.len();
    assert(at < total);
    let high: u64 = read_le(buf, at + 1, n - 1);
    let low: u64 = buf[at] as u64;
    proof {
        assert(s.skip(1) =~= buf@.subrange(at + 1, at + 1 + (n - 1)));
        lemma_le_bytes_of_value(s);
        reveal_with_fuel(pow256, 9);
        assert(pow256(n as nat) <= 0x1_0000_0000_0000_0000) by {
            lemma_pow256_le(n as nat);
        }
    }
    low + 256 * high
}

proof fn lemma_pow256_le(n: nat)
    requires
        n <= 8,
    ensures
        pow256(n) <= 0x1_0000_0000_0000_0000,
    decreases 8 - n,
{
    lemma_pow256();
    if n < 8 {
        lemma_pow256_le(n + 1);
    }
}

/// Reads four little-endian bytes at `at`.
pub fn read_u32(buf: &[u8], at: usize) -> (x: u32)
    requires
        at + 4 <= buf@.len(),
    ensures
        x as nat == le_at(buf@, at as int, 4),
{
    proof {
        lemma_pow256();
    }
    read_le(buf, at, 4) as u32
}

/// Reads eight little-endian bytes at `at`.
pub fn read_u64(buf: &[u8], at: usize) -> (x: u64)
    requires
        at + 8 <= buf@.len(),
    ensures
        x as nat == le_at(buf@, at as int, 8),
{
    read_le(buf, at, 8)
}

/// Overwrites the bytes from `at` on with `data`.
pub fn write_bytes(buf: &mut Vec<u8>, at: usize, data: &[u8])
    requires
        at + data@.len() <= old(buf)@.len(),
    ensures
        final(buf)@ == patch(old(buf)@, at as int, data@),
{
    let ghost before = buf@;
    let total: usize = buf.len();
    let mut i: usize = 0;
    while i < data.len()
        invariant
            i <= data@.len(),
            at + data@.len() <= before.len() == total,
            buf@ == patch(before, at as int, data@.take(i as int)),
        decreases data@.len() - i,
    {
        buf.set(at + i, data[i]);
        i = i + 1;
        assert(buf@ =~= patch(before, at as int, data@.take(i as int)));
    }
    assert(data@.take(i as int) =~= data@);
    assert(buf@ =~= patch(before, at as int, data@));
}

/// Overwrites the four bytes at `at` with `x`.
pub fn write_u32(buf: &mut Vec<u8>, at: usize, x: u32)
    requires
        at + 4 <= old(buf)@.len(),
    ensures
        final(buf)@ == patch(old(buf)@, at as int, le_bytes(x as nat, 4)),
{
    let mut b: Vec<u8> = Vec::new();
    push_u32(&mut b, x);
    proof {
        lemma_le_bytes_len(x as nat, 4);
        assert(b@ =~= le_bytes(x as nat, 4));
    }
    write_bytes(buf, at, b.as_slice());
}

/// Overwrites the eight bytes at `at` with `x`.
pub fn write_u64(buf: &mut Vec<u8>, at: usize, x: u64)
    requires
        at + 8 <= old(buf)@.len(),
    ensures
        final(buf)@ == patch(old(buf)@, at as int, le_bytes(x as nat, 8)),
{
    let mut b: Vec<u8> = Vec::new();
    push_u64(&mut b, x);
    proof {
        lemma_le_bytes_len(x as nat, 8);
        assert(b@ =~= le_bytes(x as nat, 8));
    }
    write_bytes(buf, at, b.as_slice());
}

/// A fresh copy of `data[from..to]`.
pub fn copy_range(data: &[u8], from: usize, to: usize) -> (out: Vec<u8>)
    requires
        from <= to <= data@.len(),
    ensures
        out@ == data@.subrange(from as int, to as int),
{
    let mut out: Vec<u8> = Vec::new();
    let mut i: usize = from;
    while i < to
        invariant
            from <= i <= to <= data@.len(),
            out@ == data@.subrange(from as int, i as int),
        decreases to - i,
    {
        out.push(data[i]);
        i = i + 1;
        assert(out@ =~= data@.subrange(from as int, i as int));
    }
    out
}

/// Appends all of `data` to `out`.
pub fn push_bytes(out: &mut Vec<u8>, data: &[u8])
    ensures
        final(out)@ == old(out)@ + data@,
{
    let ghost before = out@;
    let mut i: usize = 0;
    assert(out@ =~= before + data@.take(0));
    while i < data.len()
        invariant
            i <= data@.len(),
            out@ == before + data@.take(i as int),
        decreases data@.len() - i,
    {
        out.push(data[i]);
        i = i + 1;
        assert(out@ =~= before + data@.take(i as int));
    }
    assert(data@.take(i as int) =~= data@);
}

/// The low byte comes first: the value of bytes is the first one and 256 times that of the
/// others, and the bytes of a number are its remainder and those of its quotient.
pub proof fn law_low_byte_comes_first(b: u8, s: Seq<u8>, x: nat, n: nat)
    ensures
        le_value(Seq::empty()) == 0,
        le_value(seq![b] + s) == b + 256 * le_value(s),
        le_bytes(x, 0).len() == 0,
        le_bytes(x, n + 1) == seq![(x % 256) as u8] + le_bytes(x / 256, n),
{
    assert((seq![b] + s).skip(1) =~= s);
}

/// A number is written into as many bytes as were asked for and read back from them: four
/// bytes hold every `u32`, eight every `u64`.
pub proof fn law_numbers_read_back(x: u32, y: u64)
    ensures
        le_bytes(x as nat, 4).len() == 4,
        le_value(le_bytes(x as nat, 4)) == x,
        le_bytes(y as nat, 8).len() == 8,
        le_value(le_bytes(y as nat, 8)) == y,
{
    lemma_pow256();
    lemma_le_value_of_bytes(x as nat, 4);
    lemma_le_value_of_bytes(y as nat, 8);
}

/// Bytes that are put somewhere stand there, and all others are as they were.
pub proof fn law_patch_replaces_its_bytes(s: Seq<u8>, at: int, d: Seq<u8>, i: int)
    requires
        0 <= i < s.len(),
    ensures
        patch(s, at, d).len() == s.len(),
        at <= i < at + d.len() ==> patch(s, at, d)[i] == d[i - at],
        i < at || at + d.len() <= i ==> patch(s, at, d)[i] == s[i],
        forall|n: int| #[trigger] le_at(s, at, n) == le_value(s.subrange(at, at + n)),
{
}

} // verus!
