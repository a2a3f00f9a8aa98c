//! Hexadecimal text: how digests are written, and how object names are read.

use vstd::prelude::*;

verus! {

#[verifier::external_type_specification]
#[verifier::external_body]
pub struct ExFromHexError(hex::FromHexError);

/// The lowercase hexadecimal digit for a value from 0 to 15, as an ASCII code.
pub open spec fn hex_digit(n: int) -> u8 {
    if n < 10 {
        (48 + n) as u8
    } else {
        (87 + n) as u8
    }
}

/// The lowercase hexadecimal text of a byte sequence, two digits a byte, as
/// ASCII codes.
pub open spec fn hex_of(data: Seq<u8>) -> Seq<u8> {
    Seq::new(
        2 * data.len(),
        |i: int|
            if i % 2 == 0 {
                hex_digit(data[i / 2] as int / 16)
            } else {
                hex_digit(data[i / 2] as int % 16)
            },
    )
}

/// Different bytes have different hexadecimal text.
pub proof fn lemma_hex_of_injective(a: Seq<u8>, b: Seq<u8>)
    requires
        hex_of(a) == hex_of(b),
    ensures
        a == b,
{
    assert(hex_of(a).len() == 2 * a.len());
    assert(hex_of(b).len() == 2 * b.len());
    assert forall|i: int| 0 <= i < a.len() implies a[i] == b[i] by {
        let x = a[i] as int;
        let y = b[i] as int;
        assert(hex_of(a)[2 * i] == hex_digit(x / 16));
        assert(hex_of(b)[2 * i] == hex_digit(y / 16));
        assert(hex_of(a)[2 * i + 1] == hex_digit(x % 16));
        assert(hex_of(b)[2 * i + 1] == hex_digit(y % 16));
        assert(x / 16 == y / 16);
        assert(x % 16 == y % 16);
    }
    assert(a =~= b);
}

/// Whether `b` is a hexadecimal digit, of either case.
pub open spec fn is_hex_digit(b: u8) -> bool {
    (48 <= b <= 57) || (97 <= b <= 102) || (65 <= b <= 70)
}

/// Whether every byte of `s` is a hexadecimal digit.
pub open spec fn all_hex_digits(s: Seq<u8>) -> bool {
    forall|i: int| 0 <= i < s.len() ==> is_hex_digit(#[trigger] s[i])
}

/// The value of a hexadecimal digit of either case.
pub open spec fn hex_digit_value(b: u8) -> int {
    if 48 <= b <= 57 {
        b - 48
    } else if 97 <= b <= 102 {
        b - 97 + 10
    } else {
        b - 65 + 10
    }
}

/// The bytes that an even-length run of hexadecimal digits denotes.
pub open spec fn bytes_of_hex(text: Seq<u8>) -> Seq<u8> {
    Seq::new(
        text.len() / 2,
        |i: int| (hex_digit_value(text[2 * i]) * 16 + hex_digit_value(text[2 * i + 1])) as u8,
    )
}

/// Calls `hex::encode` on `data` and hands back the bytes of its string.
/// Trusted: the text holds, for each byte in order, its high and its low half
/// as lowercase hexadecimal digits.
#[verifier::external_body]
pub(crate) fn hex_encode(data: &[u8]) -> (text: Vec<u8>)
    ensures
        text@ == hex_of(data@),
{
    hex::encode(data).into_bytes()
}

/// Calls `hex::decode` on `text`. Trusted: it succeeds exactly on an even
/// number of hexadecimal digits of either case, and then returns one byte for
/// each pair, the first digit of the pair being the high half.
#[verifier::external_body]
pub(crate) fn hex_decode(text: &[u8]) -> (res: Result<Vec<u8>, hex::FromHexError>)
    ensures
        match res {
            Ok(out) => text@.len() % 2 == 0 && all_hex_digits(text@) && out@ == bytes_of_hex(
                text@,
            ),
            Err(_) => !(text@.len() % 2 == 0 && all_hex_digits(text@)),
        },
{
    hex::decode(text)
}

/// Writes bytes as lowercase hexadecimal text.
pub fn to_hex(data: &[u8]) -> (text: Vec<u8>)
    ensures
        text@ == hex_of(data@),
{
    hex_encode(data)
}

/// Reads bytes from hexadecimal text: `Some` exactly for an even number of
/// hexadecimal digits.
pub fn from_hex(text: &[u8]) -> (res: Option<Vec<u8>>)
    ensures
        res is Some <==> text@.len() % 2 == 0 && all_hex_digits(text@),
        res matches Some(out) ==> out@ == bytes_of_hex(text@),
{
    match hex_decode(text) {
        Ok(out) => Some(out),
        Err(_) => None,
    }
}

/// Tells whether `b` is a hexadecimal digit.
pub fn check_hex_digit(b: u8) -> (res: bool)
    ensures
        res == is_hex_digit(b),
{
    (48 <= b && b <= 57) || (97 <= b && b <= 102) || (65 <= b && b <= 70)
}

/// Tells whether every byte of `s` is a hexadecimal digit.
pub fn check_all_hex_digits(s: &[u8]) -> (res: bool)
    ensures
        res == all_hex_digits(s@),
{
    let mut i: usize = 0;
    while i < s.len()
        invariant
            i <= s.len(),
            forall|j: int| 0 <= j < i ==> is_hex_digit(#[trigger] s@[j]),
        decreases s.len() - i,
    {
        if !check_hex_digit(s[i]) {
            return false;
        }
        i += 1;
    }
    true
}

} // verus!
