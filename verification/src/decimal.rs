//! ASCII decimal numbers as they appear in the length and count fields of a
//! packet and in numeric payloads.
//!
//! A decimal field is a run of the bytes `'0'..='9'`. Its value is defined on
//! mathematical naturals, so a field may denote a number far beyond any machine
//! integer; the executable readers report that case instead of wrapping.

use vstd::prelude::*;

verus! {

/// The line-feed byte that terminates every field of a packet.
pub const LF: u8 = 10;

/// ASCII code of `'0'`.
pub const ZERO: u8 = 48;

/// ASCII code of `'+'`.
pub const PLUS: u8 = 43;

/// Whether `b` is one of the ASCII digits `'0'..='9'`.
pub open spec fn is_digit(b: u8) -> bool {
    48 <= b <= 57
}

/// Whether every byte of `s` is an ASCII digit. The empty sequence qualifies.
pub open spec fn all_digits(s: Seq<u8>) -> bool {
    forall|i: int| 0 <= i < s.len() ==> is_digit(#[trigger] s[i])
}

/// The number that the digit string `s` denotes in base ten, most significant
/// digit first. The empty string denotes zero.
pub open spec fn decimal_value(s: Seq<u8>) -> nat
    decreases s.len(),
{
    if s.len() == 0 {
        0
    } else {
        10 * decimal_value(s.drop_last()) + (s.last() - 48) as nat
    }
}

/// The first position at or after `pos` that does not hold a digit; the length
/// of `buf` if the digits run to its end.
pub open spec fn digits_end(buf: Seq<u8>, pos: int) -> int
    decreases buf.len() - pos,
{
    if 0 <= pos < buf.len() && is_digit(buf[pos]) {
        digits_end(buf, pos + 1)
    } else {
        pos
    }
}

/// The shortest decimal representation of `n`: no leading zeros, and `"0"` for
/// zero.
pub open spec fn decimal_digits(n: nat) -> Seq<u8>
    decreases n,
{
    if n < 10 {
        seq![(48 + n) as u8]
    } else {
        decimal_digits(n / 10).push((48 + n % 10) as u8)
    }
}

/// What a byte string amounts to when read as a decimal number that has to fit
/// in 64 bits.
#[derive(Clone, Copy, Debug, PartialEq, Eq)]
pub enum Numeral {
    /// Some byte is not a digit.
    NotDecimal,
    /// All bytes are digits, but the number exceeds `u64::MAX`.
    Overflow,
    /// All bytes are digits and this is the number.
    Value(u64),
}

/// The reading of `s` as a 64-bit decimal number.
pub open spec fn numeral(s: Seq<u8>) -> Numeral {
    if !all_digits(s) {
        Numeral::NotDecimal
    } else if decimal_value(s) > u64::MAX {
        Numeral::Overflow
    } else {
        Numeral::Value(decimal_value(s) as u64)
    }
}

/// The digits of an unsigned number written as text: the text itself, without
/// the one `'+'` that may stand in front of it.
pub open spec fn unsigned_digits(s: Seq<u8>) -> Seq<u8> {
    if s.len() > 0 && s[0] == PLUS {
        s.skip(1)
    } else {
        s
    }
}

/// The 64-bit unsigned number that the text `s` denotes: an optional `'+'`,
/// then at least one digit and nothing else, with a value of at most
/// `u64::MAX`. Any other text denotes no number.
pub open spec fn parse_u64(s: Seq<u8>) -> Option<u64> {
    let digits = unsigned_digits(s);
    if digits.len() == 0 {
        None
    } else {
        match numeral(digits) {
            Numeral::Value(v) => Some(v),
            _ => None,
        }
    }
}

/// Appending a digit multiplies the value by ten and adds the digit, so the
/// value never shrinks as a string grows.
pub proof fn lemma_decimal_value_push(s: Seq<u8>, b: u8)
    requires
        is_digit(b),
    ensures
        decimal_value(s.push(b)) == 10 * decimal_value(s) + (b - 48),
        decimal_value(s.push(b)) >= decimal_value(s),
{
    assert(s.push(b).drop_last() =~= s);
}

/// The first digits of a digit string denote no more than the whole string.
pub proof fn lemma_decimal_value_prefix(s: Seq<u8>, len: int)
    requires
        all_digits(s),
        0 <= len <= s.len(),
    ensures
        decimal_value(s.take(len)) <= decimal_value(s),
    decreases s.len() - len,
{
    if len < s.len() {
        assert(s.take(len + 1) =~= s.take(len).push(s[len]));
        lemma_decimal_value_push(s.take(len), s[len]);
        lemma_decimal_value_prefix(s, len + 1);
    } else {
        assert(s.take(len) =~= s);
    }
}

/// The run of digits that starts at `pos` lies inside the buffer, holds digits
/// only, and stops at the end of the buffer or at a byte that is no digit.
pub proof fn lemma_digits_end(buf: Seq<u8>, pos: int)
    requires
        0 <= pos <= buf.len(),
    ensures
        pos <= digits_end(buf, pos) <= buf.len(),
        all_digits(buf.subrange(pos, digits_end(buf, pos))),
        digits_end(buf, pos) < buf.len() ==> !is_digit(buf[digits_end(buf, pos)]),
    decreases buf.len() - pos,
{
    if pos < buf.len() && is_digit(buf[pos]) {
        lemma_digits_end(buf, pos + 1);
        let end = digits_end(buf, pos);
        assert forall|i: int| 0 <= i < end - pos implies is_digit(
            #[trigger] buf.subrange(pos, end)[i],
        ) by {
            if i > 0 {
                assert(buf.subrange(pos + 1, end)[i - 1] == buf[pos + i]);
            }
        }
    }
}

/// A run of digits that is followed by a non-digit, or by the end of the
/// buffer, ends exactly there.
pub proof fn lemma_digits_end_is(buf: Seq<u8>, pos: int, end: int)
    requires
        0 <= pos <= end <= buf.len(),
        forall|i: int| pos <= i < end ==> is_digit(#[trigger] buf[i]),
        end < buf.len() ==> !is_digit(buf[end]),
    ensures
        digits_end(buf, pos) == end,
    decreases end - pos,
{
    if pos < end {
        lemma_digits_end_is(buf, pos + 1, end);
    }
}

/// The shortest representation of `n` is a non-empty digit string that
/// denotes `n`.
pub proof fn lemma_decimal_digits(n: nat)
    ensures
        decimal_digits(n).len() >= 1,
        all_digits(decimal_digits(n)),
        decimal_value(decimal_digits(n)) == n,
    decreases n,
{
    if n < 10 {
        let s = decimal_digits(n);
        assert(s.drop_last() =~= Seq::<u8>::empty());
        assert(decimal_value(s.drop_last()) == 0);
    } else {
        lemma_decimal_digits(n / 10);
        let b = (48 + n % 10) as u8;
        lemma_decimal_value_push(decimal_digits(n / 10), b);
    }
}

/// Tells whether a byte is an ASCII digit.
pub fn digit(b: u8) -> (r: bool)
    ensures
        r == is_digit(b),
{
    ZERO <= b && b <= 57
}

/// Finds where the run of digits that starts at `pos` stops.
pub fn scan_digits(buf: &[u8], pos: usize) -> (end: usize)
    ensures
        end as int == digits_end(buf@, pos as int),
{
    let mut i = pos;
    while i < buf.len() && digit(buf[i])
        invariant
            pos <= i,
            digits_end(buf@, pos as int) == digits_end(buf@, i as int),
        decreases buf.len() - i,
    {
        i += 1;
    }
    i
}

/// Reads a whole byte string as a decimal number.
pub fn read_decimal(bytes: &[u8]) -> (r: Numeral)
    ensures
        r == numeral(bytes@),
{
    let mut acc: u64 = 0;
    let mut overflow = false;
    let mut i: usize = 0;
    while i < bytes.len()
        invariant
            i <= bytes.len(),
            all_digits(bytes@.take(i as int)),
            overflow ==> decimal_value(bytes@.take(i as int)) > u64::MAX,
            !overflow ==> acc == decimal_value(bytes@.take(i as int)),
        decreases bytes.len() - i,
    {
        let b = bytes[i];
        if !digit(b) {
            return Numeral::NotDecimal;
        }
        proof {
            assert(bytes@.take(i + 1) =~= bytes@.take(i as int).push(b));
            lemma_decimal_value_push(bytes@.take(i as int), b);
        }
        let d = (b - ZERO) as u64;
        if !overflow {
            if acc <= (u64::MAX - d) / 10 {
                acc = acc * 10 + d;
            } else {
                overflow = true;
            }
        }
        i += 1;
    }
    assert(bytes@.take(i as int) =~= bytes@);
    if overflow {
        Numeral::Overflow
    } else {
        Numeral::Value(acc)
    }
}

/// Reads a byte string as the text of a 64-bit unsigned number.
pub fn read_u64(bytes: &[u8]) -> (r: Option<u64>)
    ensures
        r == parse_u64(bytes@),
{
    let start: usize = if bytes.len() > 0 && bytes[0] == PLUS {
        1
    } else {
        0
    };
    let digits = vstd::slice::slice_subrange(bytes, start, bytes.len());
    assert(digits@ =~= unsigned_digits(bytes@));
    if digits.len() == 0 {
        return None;
    }
    match read_decimal(digits) {
        Numeral::Value(v) => Some(v),
        _ => None,
    }
}

/// Appends the shortest decimal representation of `n` to `out`.
pub fn append_decimal(out: &mut Vec<u8>, n: usize)
    ensures
        final(out)@ == old(out)@ + decimal_digits(n as nat),
    decreases n,
{
    if n >= 10 {
        append_decimal(out, n / 10);
    }
    out.push(ZERO + (n % 10) as u8);
    proof {
        let d = (48 + n % 10) as u8;
        if n >= 10 {
            assert(old(out)@ + decimal_digits(n as nat) =~= (old(out)@ + decimal_digits(
                (n / 10) as nat,
            )).push(d));
        } else {
            assert(old(out)@ + decimal_digits(n as nat) =~= old(out)@.push(d));
        }
    }
}

} // verus!
