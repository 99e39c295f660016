//! Bytes as hexadecimal text.
use vstd::prelude::*;

use crate::text;

verus! {

/// The bytes in hexadecimal: two lower-case digits each, the high one first.
pub open spec fn hex_text(d: Seq<u8>) -> Seq<char> {
    Seq::new(
        2 * d.len(),
        |i: int|
            if i % 2 == 0 {
                text::digit((d[i / 2] / 16) as nat)
            } else {
                text::digit((d[i / 2] % 16) as nat)
            },
    )
}

/// The value of a hexadecimal digit of either case.
pub open spec fn hex_value(c: char) -> Option<int> {
    if '0' <= c && c <= '9' {
        Some(c as int - 48)
    } else if 'a' <= c && c <= 'f' {
        Some(c as int - 87)
    } else if 'A' <= c && c <= 'F' {
        Some(c as int - 55)
    } else {
        None
    }
}

/// An even number of hexadecimal digits.
pub open spec fn is_hex(s: Seq<char>) -> bool {
    s.len() % 2 == 0 && forall|i: int| 0 <= i < s.len() ==> hex_value(#[trigger] s[i]) is Some
}

/// The bytes that hexadecimal digits write.
pub open spec fn hex_bytes(s: Seq<char>) -> Seq<u8> {
    Seq::new(
        s.len() / 2,
        |i: int| (16 * hex_value(s[2 * i]).unwrap() + hex_value(s[2 * i + 1]).unwrap()) as u8,
    )
}

/// `hex::encode`: two lower-case hexadecimal digits for each byte, in order, the
/// high half of the byte first.
#[verifier::external_body]
pub(crate) fn encode(data: &[u8]) -> (out: String)
    ensures
        out@ == hex_text(data@),
{
    hex::encode(data)
}

/// `hex::decode`: the bytes that the digits write, each from two digits of either
/// case; an error, here `None`, where the length is odd or a character is no
/// hexadecimal digit.
#[verifier::external_body]
pub(crate) fn decode(digits: &str) -> (out: Option<Vec<u8>>)
    ensures
        match out {
            Some(bytes) => is_hex(digits@) && bytes@ == hex_bytes(digits@),
            None => !is_hex(digits@),
        },
{
    hex::decode(digits).ok()
}

/// Decoding gives back what was encoded.
pub proof fn decode_undoes_encode(d: Seq<u8>)
    ensures
        is_hex(hex_text(d)),
        hex_bytes(hex_text(d)) == d,
{
    let t = hex_text(d);
    assert forall|i: int| 0 <= i < t.len() implies hex_value(#[trigger] t[i]) is Some by {
        assert(d[i / 2] / 16 < 16);
    }
    assert forall|i: int| 0 <= i < d.len() implies #[trigger] hex_bytes(t)[i] == d[i] by {
        assert((2 * i) / 2 == i && (2 * i) % 2 == 0);
        assert((2 * i + 1) / 2 == i && (2 * i + 1) % 2 == 1);
        assert(d[i] == 16 * (d[i] / 16) + d[i] % 16);
    }
    assert(hex_bytes(t) =~= d);
}

/// What a row of hexadecimal digits counts, the first counting most.
pub open spec fn hex_count(s: Seq<char>) -> int
    decreases s.len(),
{
    if s.len() == 0 {
        0
    } else {
        16 * hex_count(s.drop_last()) + hex_value(s.last()).unwrap()
    }
}

/// The hexadecimal digits of a number count the number, and the digits are in lower case.
pub proof fn hexadecimals_read_back(n: nat)
    ensures
        hex_count(text::hex(n)) == n,
        text::hex(n).len() > 0,
        forall|i: int|
            0 <= i < text::hex(n).len() ==> ('0' <= #[trigger] text::hex(n)[i] && text::hex(n)[i]
                <= '9') || ('a' <= text::hex(n)[i] && text::hex(n)[i] <= 'f'),
    decreases n,
{
    reveal_with_fuel(hex_count, 2);
    if n < 16 {
        assert(text::hex(n).drop_last() =~= Seq::<char>::empty());
    } else {
        hexadecimals_read_back(n / 16);
        assert(text::hex(n).drop_last() =~= text::hex(n / 16));
    }
}

} // verus!
