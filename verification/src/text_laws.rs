//! What numbers and paths come to as text.

use crate::text;
use vstd::prelude::*;

verus! {

/// The value of digits: none is zero, and one more digit counts once and those before it ten
/// times as much.
pub proof fn law_digits_have_their_value(s: Seq<char>, c: char)
    ensures
        text::digits_value(Seq::empty()) == 0,
        text::digits_value(s.push(c)) == 10 * text::digits_value(s) + (c as int - '0' as int),
{
    assert(s.push(c).drop_last() =~= s);
}

/// A number in decimal is digits that have its value, without a zero in front of others.
pub proof fn law_decimal_reads_back(n: nat)
    ensures
        ({
            let s = text::decimal(n);
            &&& s.len() > 0
            &&& forall|i: int| 0 <= i < s.len() ==> '0' <= #[trigger] s[i] <= '9'
            &&& text::digits_value(s) == n
            &&& s.len() > 1 ==> s[0] != '0'
            &&& n == 0 ==> s == seq!['0']
            &&& n > 0 ==> s[0] != '0'
        }),
    decreases n,
{
    let s = text::decimal(n);
    if n < 10 {
        assert(s.drop_last() =~= Seq::<char>::empty());
        assert(text::digits_value(s.drop_last()) == 0);
    } else {
        law_decimal_reads_back(n / 10);
        assert(s.drop_last() =~= text::decimal(n / 10));
        assert forall|i: int| 0 <= i < s.len() implies '0' <= #[trigger] s[i] <= '9' by {
            if i < s.len() - 1 {
                assert(s[i] == text::decimal(n / 10)[i]);
            }
        }
        assert(s[0] == text::decimal(n / 10)[0]);
    }
}

/// A number with leading zeros has the width that was asked for, and is read back as itself
/// wherever it fits: twenty digits hold every position.
pub proof fn law_fixed_decimal_reads_back(n: u64)
    ensures
        ({
            let s = text::fixed_decimal(n as nat, 20);
            &&& s.len() == 20
            &&& forall|i: int| 0 <= i < s.len() ==> '0' <= #[trigger] s[i] <= '9'
            &&& text::digits_value(s) == n
        }),
{
    let s = text::fixed_decimal(n as nat, 20);
    text::lemma_fixed_decimal_len(n as nat, 20);
    assert(text::pow10(20) == 100_000_000_000_000_000_000nat) by {
        reveal_with_fuel(text::pow10, 21);
    }
    text::lemma_fixed_decimal_value(n as nat, 20);
    assert forall|i: int| 0 <= i < s.len() implies '0' <= #[trigger] s[i] <= '9' by {
        assert(text::is_digit(s[i]));
    }
}

/// A text is a number exactly when it is one or more digits, with or without a plus in front,
/// and their value fits into 64 bits.
pub proof fn law_number_is_digits(s: Seq<char>)
    ensures
        ({
            let plain = s.len() > 0 && (forall|i: int|
                0 <= i < s.len() ==> '0' <= #[trigger] s[i] <= '9');
            &&& plain && text::digits_value(s) <= 0xFFFF_FFFF_FFFF_FFFF ==> text::parsed_u64(s)
                == Some(text::digits_value(s) as u64) && text::parsed_u64(seq!['+'] + s) == Some(
                text::digits_value(s) as u64,
            )
            &&& plain && text::digits_value(s) > 0xFFFF_FFFF_FFFF_FFFF ==> text::parsed_u64(s)
                is None && text::parsed_u64(seq!['+'] + s) is None
            &&& !plain ==> text::parsed_u64(seq!['+'] + s) is None
            &&& !plain && (s.len() == 0 || s[0] != '+') ==> text::parsed_u64(s) is None
        }),
{
    let plus = seq!['+'] + s;
    assert(plus.skip(1) =~= s);
    assert(text::unsigned_part(plus) == s);
    if text::all_digits(s) {
        assert forall|i: int| 0 <= i < s.len() implies '0' <= #[trigger] s[i] <= '9' by {
            assert(text::is_digit(s[i]));
        }
    }
}

/// A number that was written in decimal is parsed as itself.
pub proof fn law_decimal_parses_as_itself(n: u64)
    ensures
        text::parsed_u64(text::decimal(n as nat)) == Some(n),
{
    law_decimal_reads_back(n as nat);
    law_number_is_digits(text::decimal(n as nat));
}

/// A relative path is put behind the base with exactly one slash between them, unless the
/// base is empty. An absolute path stands alone.
pub proof fn law_path_is_joined(base: Seq<char>, rel: Seq<char>)
    ensures
        rel.len() > 0 && rel[0] == '/' ==> text::joined(base, rel) == rel,
        rel.len() == 0 || rel[0] != '/' ==> ({
            &&& text::joined(Seq::empty(), rel) == rel
            &&& text::joined(base.push('/'), rel) == base.push('/') + rel
            &&& base.len() > 0 && base.last() != '/' ==> text::joined(base, rel) == base.push('/')
                + rel
        }),
{
    assert(Seq::<char>::empty() + rel =~= rel);
    assert(base.push('/').last() == '/');
}

/// A number of a fixed width ends in its last digit, behind what is left of it in one digit
/// less.
pub proof fn law_fixed_decimal_goes_digit_by_digit(n: nat, width: nat)
    ensures
        text::fixed_decimal(n, 0).len() == 0,
        text::fixed_decimal(n, width + 1) == text::fixed_decimal(n / 10, width).push(
            (48 + n % 10) as char,
        ),
{
}

} // verus!
