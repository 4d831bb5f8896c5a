//! Decimal numbers on the wire: how a `u64` is written, and what a run of
//! bytes reads as.

use vstd::prelude::*;
use vstd::utf8::{encode_utf8, encode_utf8_valid_utf8, is_ascii_chars_encode_utf8, valid_utf8};

verus! {

/// Whether `b` is one of the ASCII digits `0` to `9`.
pub open spec fn is_digit(b: u8) -> bool {
    48 <= b <= 57
}

/// Whether `b` is an ASCII plus or minus sign.
pub open spec fn is_sign(b: u8) -> bool {
    b == 43 || b == 45
}

/// The decimal ASCII digits of `n`, most significant first, without leading zeros.
pub open spec fn decimal_digits(n: nat) -> Seq<u8>
    decreases n,
{
    if n < 10 {
        seq![(48 + n) as u8]
    } else {
        decimal_digits(n / 10).push((48 + n % 10) as u8)
    }
}

/// The number that a run of ASCII digits denotes in base ten; leading zeros count for nothing.
pub open spec fn decimal_value(digits: Seq<u8>) -> nat
    decreases digits.len(),
{
    if digits.len() == 0 {
        0
    } else {
        decimal_value(digits.drop_last()) * 10 + (digits.last() - 48) as nat
    }
}

/// Where the run of ASCII digits that starts at `from` ends: the index of the
/// first byte at or after `from` that is no digit, or the length of `text`.
pub open spec fn digit_run_end(text: Seq<u8>, from: int) -> int
    decreases text.len() - from,
{
    if 0 <= from < text.len() && is_digit(text[from]) {
        digit_run_end(text, from + 1)
    } else {
        from
    }
}

/// What reading `text` as a decimal `u64` gives.
///
/// An optional sign comes first, then the longest run of digits; what follows
/// the run is ignored. Nothing is read when neither a sign nor a digit stands
/// at the start, when the digits exceed a `u64`, or when a minus sign stands
/// before digits that are not all zero. A sign alone reads as zero.
pub open spec fn atoi_u64(text: Seq<u8>) -> Option<u64> {
    let start: int = if text.len() > 0 && is_sign(text[0]) { 1 } else { 0 };
    let end = digit_run_end(text, start);
    let value = decimal_value(text.subrange(start, end));
    if end == 0 {
        None
    } else if text[0] == 45 {
        if value == 0 { Some(0u64) } else { None }
    } else if value <= u64::MAX {
        Some(value as u64)
    } else {
        None
    }
}

/// `atoi::atoi::<u64>`: reads a decimal number from the start of `text`.
///
/// The contract restates the crate's source: `Sign::try_from` takes a leading
/// `+` or `-`, the digit loops consume every following ASCII digit with
/// checked arithmetic, and `atoi` answers `None` when no byte was consumed or
/// the arithmetic left the range of the type.
#[verifier::external_body]
pub(crate) fn atoi(text: &[u8]) -> (r: Option<u64>)
    ensures
        r == atoi_u64(text@),
{
    atoi::atoi::<u64>(text)
}

/// The digits of a number are digits, and at least one.
pub proof fn lemma_decimal_digits_are_digits(n: nat)
    ensures
        decimal_digits(n).len() >= 1,
        forall|i: int| 0 <= i < decimal_digits(n).len() ==> is_digit(#[trigger] decimal_digits(n)[i]),
    decreases n,
{
    if n >= 10 {
        lemma_decimal_digits_are_digits(n / 10);
    }
}

/// Reading the digits of a number gives the number back.
pub proof fn lemma_decimal_value_of_digits(n: nat)
    ensures
        decimal_value(decimal_digits(n)) == n,
    decreases n,
{
    if n < 10 {
        let d = decimal_digits(n);
        assert(d.drop_last() =~= Seq::<u8>::empty());
        assert(decimal_value(d.drop_last()) == 0);
    } else {
        lemma_decimal_value_of_digits(n / 10);
        let d = decimal_digits(n);
        assert(d.drop_last() =~= decimal_digits(n / 10));
    }
}

/// A run of digits that reaches the end of the text ends there.
pub proof fn lemma_digit_run_to_end(text: Seq<u8>, from: int)
    requires
        0 <= from <= text.len(),
        forall|i: int| from <= i < text.len() ==> is_digit(#[trigger] text[i]),
    ensures
        digit_run_end(text, from) == text.len(),
    decreases text.len() - from,
{
    if from < text.len() {
        lemma_digit_run_to_end(text, from + 1);
    }
}

/// A number that was written in decimal reads as itself.
pub proof fn lemma_atoi_of_decimal_digits(n: u64)
    ensures
        atoi_u64(decimal_digits(n as nat)) == Some(n),
{
    let d = decimal_digits(n as nat);
    lemma_decimal_digits_are_digits(n as nat);
    lemma_decimal_value_of_digits(n as nat);
    assert(is_digit(d[0]));
    lemma_digit_run_to_end(d, 0);
    assert(d.subrange(0, d.len() as int) =~= d);
}

/// ASCII digits are text: each byte is one character.
pub proof fn lemma_digits_are_text(digits: Seq<u8>)
    requires
        forall|i: int| 0 <= i < digits.len() ==> is_digit(#[trigger] digits[i]),
    ensures
        valid_utf8(digits),
{
    let chars = Seq::new(digits.len(), |i: int| digits[i] as char);
    assert forall|i: int| 0 <= i < chars.len() implies '\0' <= #[trigger] chars[i] <= '\u{7f}' by {
        assert(is_digit(digits[i]));
    }
    is_ascii_chars_encode_utf8(chars);
    assert(encode_utf8(chars) =~= digits) by {
        assert forall|i: int| 0 <= i < digits.len() implies encode_utf8(chars)[i] == digits[i] by {
            assert(is_digit(digits[i]));
            assert(chars[i] as u8 == encode_utf8(chars)[i]);
        }
    }
    encode_utf8_valid_utf8(chars);
}

/// Appends the decimal digits of `val` to `dst`.
pub fn push_decimal(dst: &mut Vec<u8>, val: u64)
    ensures
        final(dst)@ == old(dst)@ + decimal_digits(val as nat),
    decreases val,
{
    if val < 10 {
        dst.push(48u8 + val as u8);
        assert(final(dst)@ =~= old(dst)@ + decimal_digits(val as nat)) by {
            assert(dst@ =~= old(dst)@ + seq![(48 + val) as u8]);
        }
    } else {
        push_decimal(dst, val / 10);
        dst.push(48u8 + (val % 10) as u8);
        assert(dst@ =~= old(dst)@ + decimal_digits(val as nat));
    }
}

} // verus!
