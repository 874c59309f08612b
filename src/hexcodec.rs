//! Lowercase hexadecimal text for byte strings.
use vstd::prelude::*;
use crate::error::ToolError;

verus! {

/// The lowercase digit for a nibble.
pub open spec fn hex_digit(n: int) -> char {
    seq!['0', '1', '2', '3', '4', '5', '6', '7', '8', '9', 'a', 'b', 'c', 'd', 'e', 'f'][n]
}

/// Whether `c` is a hexadecimal digit, in either case.
pub open spec fn is_hex_char(c: char) -> bool {
    ('0' <= c && c <= '9') || ('a' <= c && c <= 'f') || ('A' <= c && c <= 'F')
}

/// The value of a hexadecimal digit.
pub open spec fn hex_value(c: char) -> int {
    if '0' <= c && c <= '9' {
        c as int - '0' as int
    } else if 'a' <= c && c <= 'f' {
        c as int - 'a' as int + 10
    } else {
        c as int - 'A' as int + 10
    }
}

/// The text of `b`: two lowercase digits per byte, high nibble first.
pub open spec fn hex_of(b: Seq<u8>) -> Seq<char> {
    Seq::new(
        2 * b.len(),
        |i: int|
            if i % 2 == 0 {
                hex_digit(b[i / 2] as int / 16)
            } else {
                hex_digit(b[i / 2] as int % 16)
            },
    )
}

/// Whether `s` is the text of some byte string: even length, digits only.
pub open spec fn is_hex_text(s: Seq<char>) -> bool {
    s.len() % 2 == 0 && forall|i: int| 0 <= i < s.len() ==> is_hex_char(#[trigger] s[i])
}

/// The bytes that the hexadecimal text `s` spells.
pub open spec fn bytes_of_hex(s: Seq<char>) -> Seq<u8> {
    Seq::new(s.len() / 2, |i: int| (hex_value(s[2 * i]) * 16 + hex_value(s[2 * i + 1])) as u8)
}

/// `s` with its hexadecimal letters in lower case.
pub open spec fn hex_lowercase(s: Seq<char>) -> Seq<char> {
    s.map(|i: int, c: char| if 'A' <= c && c <= 'F' { hex_digit(hex_value(c)) } else { c })
}

/// Relies on hex::encode: two lowercase digits per byte, high nibble first.
#[verifier::external_body]
pub(crate) fn encode_hex(b: &[u8]) -> (r: String)
    ensures
        r@ == hex_of(b@),
{
    hex::encode(b)
}

/// Relies on hex::decode: it accepts exactly the even-length strings of hex
/// digits of either case, and gives the bytes they spell.
#[verifier::external_body]
pub(crate) fn decode_hex(s: &str) -> (r: Option<Vec<u8>>)
    ensures
        r is Some <==> is_hex_text(s@),
        r matches Some(b) ==> b@ == bytes_of_hex(s@),
{
    hex::decode(s).ok()
}

/// The lowercase hexadecimal text of `b`.
pub fn to_hex(b: &[u8]) -> (r: String)
    ensures
        r@ == hex_of(b@),
{
    encode_hex(b)
}

/// The bytes that the hexadecimal text `s` spells, in either case; text of odd
/// length or with a character that is no hexadecimal digit is refused.
pub fn from_hex(s: &str) -> (r: Result<Vec<u8>, ToolError>)
    ensures
        r is Ok <==> is_hex_text(s@),
        r matches Ok(b) ==> b@ == bytes_of_hex(s@),
        r matches Err(e) ==> e is InvalidEncoding,
{
    match decode_hex(s) {
        Some(b) => Ok(b),
        None => Err(ToolError::InvalidEncoding),
    }
}

proof fn lemma_digit_value(n: int)
    requires
        0 <= n < 16,
    ensures
        is_hex_char(hex_digit(n)),
        hex_value(hex_digit(n)) == n,
        !('A' <= hex_digit(n) && hex_digit(n) <= 'F'),
{
    assert(seq!['0', '1', '2', '3', '4', '5', '6', '7', '8', '9', 'a', 'b', 'c', 'd', 'e', 'f'][n]
        == hex_digit(n));
}

/// Decoding the text of a byte string gives that byte string back.
pub proof fn lemma_decode_encode(b: Seq<u8>)
    ensures
        is_hex_text(hex_of(b)),
        bytes_of_hex(hex_of(b)) == b,
{
    let s = hex_of(b);
    assert forall|i: int| 0 <= i < s.len() implies is_hex_char(#[trigger] s[i]) by {
        lemma_digit_value(b[i / 2] as int / 16);
        lemma_digit_value(b[i / 2] as int % 16);
    }
    assert forall|i: int| 0 <= i < b.len() implies #[trigger] bytes_of_hex(s)[i] == b[i] by {
        assert(s[2 * i] == hex_digit(b[i] as int / 16));
        assert(s[2 * i + 1] == hex_digit(b[i] as int % 16));
        lemma_digit_value(b[i] as int / 16);
        lemma_digit_value(b[i] as int % 16);
    }
    assert(bytes_of_hex(s) =~= b);
}

/// Encoding the bytes of hexadecimal text gives that text in lower case.
pub proof fn lemma_encode_decode(s: Seq<char>)
    requires
        is_hex_text(s),
    ensures
        hex_of(bytes_of_hex(s)) == hex_lowercase(s),
{
    let b = bytes_of_hex(s);
    assert forall|i: int| 0 <= i < s.len() implies #[trigger] hex_of(b)[i] == hex_lowercase(s)[i] by {
        let h = i / 2;
        assert(is_hex_char(s[2 * h]));
        assert(is_hex_char(s[2 * h + 1]));
        let hi = hex_value(s[2 * h]);
        let lo = hex_value(s[2 * h + 1]);
        assert(0 <= hi < 16 && 0 <= lo < 16);
        assert(b[h] as int == hi * 16 + lo);
        assert((hi * 16 + lo) / 16 == hi && (hi * 16 + lo) % 16 == lo) by (nonlinear_arith)
            requires
                0 <= hi < 16,
                0 <= lo < 16,
        ;
    }
    assert(hex_of(b) =~= hex_lowercase(s));
}

} // verus!
