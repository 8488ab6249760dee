//! Hexadecimal encoding and decoding of account identifiers.
//!
//! Accounts are stored in the record as 40-character lowercase hex strings.

use vstd::prelude::*;

verus! {

/// The byte is an ASCII hex digit (either case).
pub open spec fn is_hex_digit(c: u8) -> bool {
    (48 <= c <= 57) || (97 <= c <= 102) || (65 <= c <= 70)
}

/// Value of an ASCII hex digit; meaningful only when [`is_hex_digit`] holds.
pub open spec fn hex_val(c: u8) -> u8 {
    if 48 <= c <= 57 {
        (c - 48) as u8
    } else if 97 <= c <= 102 {
        (c - 87) as u8
    } else if 65 <= c <= 70 {
        (c - 55) as u8
    } else {
        0
    }
}

/// Lowercase hex character for a 4-bit value.
pub open spec fn hex_char(v: u8) -> u8 {
    if v < 10 {
        (48 + v) as u8
    } else {
        (87 + v) as u8
    }
}

/// `s` is a well-formed hex string: even length, hex digits throughout.
pub open spec fn valid_hex(s: Seq<u8>) -> bool {
    s.len() % 2 == 0 && forall|i: int| 0 <= i < s.len() ==> is_hex_digit(#[trigger] s[i])
}

/// Lowercase hex encoding of a byte string, two characters per byte.
pub open spec fn bytes_to_hex(b: Seq<u8>) -> Seq<u8> {
    Seq::new(
        2 * b.len(),
        |i: int|
            if i % 2 == 0 {
                hex_char(b[i / 2] / 16)
            } else {
                hex_char(b[i / 2] % 16)
            },
    )
}

/// Bytes denoted by a hex string; meaningful only when [`valid_hex`] holds.
pub open spec fn hex_to_bytes(h: Seq<u8>) -> Seq<u8> {
    Seq::new(h.len() / 2, |i: int| (hex_val(h[2 * i]) * 16 + hex_val(h[2 * i + 1])) as u8)
}

/// An encoded byte string is well-formed hex and decodes back to itself.
pub proof fn lemma_hex_round_trip(b: Seq<u8>)
    ensures
        valid_hex(bytes_to_hex(b)),
        bytes_to_hex(b).len() == 2 * b.len(),
        hex_to_bytes(bytes_to_hex(b)) =~= b,
{
    let h = bytes_to_hex(b);
    assert forall|i: int| 0 <= i < h.len() implies is_hex_digit(#[trigger] h[i]) by {
        assert(b[i / 2] / 16 < 16);
        assert(b[i / 2] % 16 < 16);
    }
    assert forall|i: int| 0 <= i < b.len() implies hex_to_bytes(h)[i] == b[i] by {
        assert(h[2 * i] == hex_char(b[i] / 16));
        assert(h[2 * i + 1] == hex_char(b[i] % 16));
    }
}

/// Convert a single ASCII hex character to its 4-bit value.
fn hex_digit(c: u8) -> (r: Option<u8>)
    ensures
        r is Some <==> is_hex_digit(c),
        r is Some ==> r->0 == hex_val(c),
{
    if 48 <= c && c <= 57 {
        Some(c - 48)
    } else if 97 <= c && c <= 102 {
        Some(c - 87)
    } else if 65 <= c && c <= 70 {
        Some(c - 55)
    } else {
        None
    }
}

/// Decode a hex string into raw bytes, written to the front of `out`.
/// Returns `false` (leaving `out` in an unspecified state of the same
/// length) if the hex string is odd-length, contains a non-hex byte, or
/// does not fit in `out`.
pub fn decode_hex(hex: &[u8], out: &mut Vec<u8>) -> (ok: bool)
    ensures
        ok <==> (hex@.len() % 2 == 0 && hex@.len() / 2 <= old(out)@.len() && forall|i: int|
            0 <= i < hex@.len() ==> is_hex_digit(#[trigger] hex@[i])),
        ok ==> final(out)@ =~= hex_to_bytes(hex@) + old(out)@.skip(hex@.len() as int / 2),
        final(out)@.len() == old(out)@.len(),
{
    if hex.len() % 2 != 0 {
        return false;
    }
    let byte_len = hex.len() / 2;
    if byte_len > out.len() {
        return false;
    }
    let mut i: usize = 0;
    while i < byte_len
        invariant
            byte_len == hex@.len() / 2,
            hex@.len() % 2 == 0,
            2 * byte_len <= usize::MAX,
            0 <= i <= byte_len <= out@.len(),
            out@.len() == old(out)@.len(),
            forall|j: int| 0 <= j < 2 * i ==> is_hex_digit(#[trigger] hex@[j]),
            forall|j: int| 0 <= j < i ==> out@[j] == hex_to_bytes(hex@)[j],
            forall|j: int| i <= j < out@.len() ==> out@[j] == old(out)@[j],
        decreases byte_len - i,
    {
        let hi = match hex_digit(hex[i * 2]) {
            Some(v) => v,
            None => {
                return false;
            },
        };
        let lo = match hex_digit(hex[i * 2 + 1]) {
            Some(v) => v,
            None => {
                return false;
            },
        };
        out[i] = hi * 16 + lo;
        i = i + 1;
    }
    true
}

/// Encode raw bytes as lowercase hex, written to the front of `out`.
/// Returns the number of characters written (`2 * input.len()`), or
/// `None`, leaving `out` unchanged, if the encoding does not fit.
pub fn encode_hex(input: &[u8], out: &mut Vec<u8>) -> (r: Option<usize>)
    ensures
        r is Some <==> 2 * input@.len() <= old(out)@.len(),
        r is Some ==> r->0 == 2 * input@.len() && final(out)@ =~= bytes_to_hex(input@) + old(
            out,
        )@.skip(2 * input@.len() as int),
        r is None ==> final(out)@ == old(out)@,
        final(out)@.len() == old(out)@.len(),
{
    if input.len() > out.len() / 2 {
        return None;
    }
    let mut i: usize = 0;
    while i < input.len()
        invariant
            0 <= i <= input@.len(),
            2 * input@.len() <= out@.len(),
            2 * input@.len() <= usize::MAX,
            out@.len() == old(out)@.len(),
            forall|j: int| 0 <= j < 2 * i ==> out@[j] == bytes_to_hex(input@)[j],
            forall|j: int| 2 * i <= j < out@.len() ==> out@[j] == old(out)@[j],
        decreases input@.len() - i,
    {
        let b = input[i];
        let hi = b / 16;
        let lo = b % 16;
        out[i * 2] = if hi < 10 {
            48 + hi
        } else {
            87 + hi
        };
        out[i * 2 + 1] = if lo < 10 {
            48 + lo
        } else {
            87 + lo
        };
        i = i + 1;
    }
    Some(input.len() * 2)
}

/// Lowercase hex encoding of a byte string as a fresh vector.
pub fn to_hex(input: &[u8]) -> (r: Vec<u8>)
    ensures
        r@ == bytes_to_hex(input@),
{
    let mut out: Vec<u8> = Vec::new();
    let mut i: usize = 0;
    while i < input.len()
        invariant
            0 <= i <= input@.len(),
            out@.len() == 2 * i,
            forall|j: int| 0 <= j < 2 * i ==> out@[j] == bytes_to_hex(input@)[j],
        decreases input@.len() - i,
    {
        let b = input[i];
        let hi = b / 16;
        let lo = b % 16;
        out.push(if hi < 10 {
            48 + hi
        } else {
            87 + hi
        });
        out.push(if lo < 10 {
            48 + lo
        } else {
            87 + lo
        });
        i = i + 1;
    }
    proof {
        assert(out@ =~= bytes_to_hex(input@));
    }
    out
}

} // verus!
