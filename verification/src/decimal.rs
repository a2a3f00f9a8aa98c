//! ASCII decimal numbers, as they appear in object headers and commit lines.

use vstd::prelude::*;

verus! {

/// The ASCII code of the digit `0`.
pub const ASCII_ZERO: u8 = 48;

/// Whether `b` is one of the ASCII digits `0` to `9`.
pub open spec fn is_digit(b: u8) -> bool {
    48 <= b <= 57
}

/// The decimal digits of `n`, most significant first, without leading zeros.
pub open spec fn decimal_digits(n: nat) -> Seq<u8>
    decreases n,
{
    if n < 10 {
        seq![(48 + n) as u8]
    } else {
        decimal_digits(n / 10).push((48 + n % 10) as u8)
    }
}

/// The number that a sequence of digits denotes, the empty sequence denoting 0.
pub open spec fn digits_value(s: Seq<u8>) -> nat
    decreases s.len(),
{
    if s.len() == 0 {
        0
    } else {
        (digits_value(s.drop_last()) * 10 + (s.last() - 48)) as nat
    }
}

/// Whether every byte of `s` is an ASCII digit.
pub open spec fn all_digits(s: Seq<u8>) -> bool {
    forall|i: int| 0 <= i < s.len() ==> is_digit(#[trigger] s[i])
}

/// What a decimal field denotes: a non-empty run of digits whose value fits
/// in 64 bits. Leading zeros are allowed; a sign is not.
pub open spec fn parse_decimal(s: Seq<u8>) -> Option<u64> {
    if s.len() > 0 && all_digits(s) && digits_value(s) <= u64::MAX {
        Some(digits_value(s) as u64)
    } else {
        None
    }
}

/// The digits of a number are digits, and at least one.
pub proof fn lemma_decimal_digits_are_digits(n: nat)
    ensures
        decimal_digits(n).len() > 0,
        all_digits(decimal_digits(n)),
    decreases n,
{
    if n >= 10 {
        lemma_decimal_digits_are_digits(n / 10);
    }
}

/// Reading back the digits of a number gives the number.
pub proof fn lemma_digits_value_of_decimal(n: nat)
    ensures
        digits_value(decimal_digits(n)) == n,
    decreases n,
{
    if n < 10 {
        let s = decimal_digits(n);
        assert(s.drop_last().len() == 0);
        assert(digits_value(s.drop_last()) == 0);
    } else {
        lemma_digits_value_of_decimal(n / 10);
        let s = decimal_digits(n);
        assert(s.drop_last() =~= decimal_digits(n / 10));
    }
}

/// Parsing the decimal text of a 64-bit number gives the number back.
pub proof fn lemma_parse_decimal_roundtrip(n: u64)
    ensures
        parse_decimal(decimal_digits(n as nat)) == Some(n),
{
    lemma_decimal_digits_are_digits(n as nat);
    lemma_digits_value_of_decimal(n as nat);
}

/// A longer run of digits never denotes a smaller number than its prefix.
pub proof fn lemma_digits_value_monotonic(s: Seq<u8>, k: int)
    requires
        0 <= k <= s.len(),
        all_digits(s),
    ensures
        digits_value(s.take(k)) <= digits_value(s),
    decreases s.len() - k,
{
    if k < s.len() {
        lemma_digits_value_monotonic(s, k + 1);
        let t = s.take(k + 1);
        assert(t.drop_last() =~= s.take(k));
        assert(is_digit(s[k]));
    } else {
        assert(s.take(k) =~= s);
    }
}

/// Writes `n` in decimal.
pub fn format_decimal(n: u64) -> (out: Vec<u8>)
    ensures
        out@ == decimal_digits(n as nat),
    decreases n,
{
    if n < 10 {
        let mut out: Vec<u8> = Vec::new();
        out.push(ASCII_ZERO + (n as u8));
        assert(out@ =~= decimal_digits(n as nat));
        out
    } else {
        let mut out = format_decimal(n / 10);
        out.push(ASCII_ZERO + ((n % 10) as u8));
        out
    }
}

/// Reads a decimal field: `Some` exactly for a non-empty run of digits whose
/// value fits in 64 bits.
pub fn parse_decimal_field(bytes: &[u8]) -> (res: Option<u64>)
    ensures
        res == parse_decimal(bytes@),
{
    if bytes.len() == 0 {
        return None;
    }
    let mut value: u64 = 0;
    let mut i: usize = 0;
    while i < bytes.len()
        invariant
            i <= bytes.len(),
            all_digits(bytes@.take(i as int)),
            value == digits_value(bytes@.take(i as int)),
        decreases bytes.len() - i,
    {
        let b = bytes[i];
        if b < 48 || b > 57 {
            assert(!is_digit(bytes@[i as int]));
            return None;
        }
        let d: u64 = (b - ASCII_ZERO) as u64;
        proof {
            assert(bytes@.take(i + 1).drop_last() =~= bytes@.take(i as int));
            assert forall|j: int| 0 <= j < i + 1 implies is_digit(
                #[trigger] bytes@.take(i + 1)[j],
            ) by {
                if j < i {
                    assert(bytes@.take(i as int)[j] == bytes@[j]);
                }
            }
        }
        if value > (u64::MAX - d) / 10 {
            proof {
                assert(digits_value(bytes@.take(i + 1)) > u64::MAX);
                if all_digits(bytes@) {
                    lemma_digits_value_monotonic(bytes@, i + 1);
                }
            }
            return None;
        }
        value = value * 10 + d;
        i += 1;
    }
    assert(bytes@.take(i as int) =~= bytes@);
    Some(value)
}

} // verus!
