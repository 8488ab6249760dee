//! ASCII decimal parsing and formatting.
//!
//! All record fields are stored as decimal text; these routines and their
//! specifications connect the byte-level encoding to mathematical integers.

use vstd::prelude::*;

verus! {

/// The byte is an ASCII digit `'0'..='9'`.
pub open spec fn is_digit(b: u8) -> bool {
    48 <= b <= 57
}

/// Every byte of `s` is an ASCII digit.
pub open spec fn all_digits(s: Seq<u8>) -> bool {
    forall|i: int| 0 <= i < s.len() ==> is_digit(#[trigger] s[i])
}

/// Numeric value of a digit string, most significant digit first.
pub open spec fn dec_value(s: Seq<u8>) -> int
    decreases s.len(),
{
    if s.len() == 0 {
        0
    } else {
        dec_value(s.drop_last()) * 10 + (s.last() - 48)
    }
}

/// Canonical decimal encoding of `n`: no leading zeros, at least one digit.
pub open spec fn dec_digits(n: nat) -> Seq<u8>
    decreases n,
{
    if n < 10 {
        seq![(48 + n) as u8]
    } else {
        dec_digits(n / 10).push((48 + n % 10) as u8)
    }
}

/// What `parse_u32` returns: the value when `s` is a nonempty digit string
/// whose value fits, `None` otherwise.
pub open spec fn parse_u32_spec(s: Seq<u8>) -> Option<u32> {
    if s.len() > 0 && all_digits(s) && dec_value(s) <= u32::MAX {
        Some(dec_value(s) as u32)
    } else {
        None
    }
}

/// What `parse_u64` returns, analogous to [`parse_u32_spec`].
pub open spec fn parse_u64_spec(s: Seq<u8>) -> Option<u64> {
    if s.len() > 0 && all_digits(s) && dec_value(s) <= u64::MAX {
        Some(dec_value(s) as u64)
    } else {
        None
    }
}

/// What `parse_u8_digit` returns: a single digit's value.
pub open spec fn parse_digit_spec(s: Seq<u8>) -> Option<u8> {
    if s.len() == 1 && is_digit(s[0]) {
        Some((s[0] - 48) as u8)
    } else {
        None
    }
}

/// A digit string has a nonnegative value.
pub proof fn lemma_dec_value_nonneg(s: Seq<u8>)
    requires
        all_digits(s),
    ensures
        dec_value(s) >= 0,
    decreases s.len(),
{
    if s.len() > 0 {
        lemma_dec_value_nonneg(s.drop_last());
    }
}

/// Extending a digit string on the right never decreases its value.
pub proof fn lemma_dec_value_prefix(s: Seq<u8>, j: int)
    requires
        all_digits(s),
        0 <= j <= s.len(),
    ensures
        dec_value(s) >= dec_value(s.take(j)),
    decreases s.len() - j,
{
    if j < s.len() {
        lemma_dec_value_prefix(s, j + 1);
        assert(s.take(j + 1).drop_last() =~= s.take(j));
        assert(s.take(j + 1).last() == s[j]);
        lemma_dec_value_nonneg(s.take(j));
    } else {
        assert(s.take(j) =~= s);
    }
}

/// The canonical encoding consists of digits.
pub proof fn lemma_dec_digits_all_digits(n: nat)
    ensures
        all_digits(dec_digits(n)),
        dec_digits(n).len() >= 1,
    decreases n,
{
    if n >= 10 {
        lemma_dec_digits_all_digits(n / 10);
    }
}

/// Round trip: parsing the canonical encoding of `n` gives back `n`.
pub proof fn lemma_dec_digits_value(n: nat)
    ensures
        dec_value(dec_digits(n)) == n,
    decreases n,
{
    if n < 10 {
        let s = dec_digits(n);
        assert(s =~= seq![(48 + n) as u8]);
        assert(s.drop_last() =~= Seq::<u8>::empty());
        assert(dec_value(s) == dec_value(s.drop_last()) * 10 + (s.last() - 48));
    } else {
        lemma_dec_digits_value(n / 10);
        assert(dec_digits(n).drop_last() =~= dec_digits(n / 10));
        assert(dec_digits(n).last() == (48 + n % 10) as u8);
    }
}

/// Expanded form of the canonical encoding of a two-digit value.
pub proof fn lemma_dec_digits_two(n: nat)
    requires
        10 <= n < 100,
    ensures
        dec_digits(n) =~= seq![(48 + n / 10) as u8, (48 + n % 10) as u8],
{
    assert(dec_digits(n / 10) =~= seq![(48 + n / 10) as u8]);
}

/// Expanded form of the canonical encoding of a three-digit value.
pub proof fn lemma_dec_digits_three(n: nat)
    requires
        100 <= n < 1000,
    ensures
        dec_digits(n) =~= seq![(48 + n / 100) as u8, (48 + (n / 10) % 10) as u8, (48 + n % 10) as u8],
{
    lemma_dec_digits_two(n / 10);
    assert((n / 10) / 10 == n / 100) by (nonlinear_arith);
}

/// Parse a single ASCII digit from a byte slice.
/// Returns `None` if the slice is not exactly one digit character.
pub fn parse_u8_digit(data: &[u8]) -> (r: Option<u8>)
    ensures
        r == parse_digit_spec(data@),
{
    if data.len() == 1 && data[0] >= 48 && data[0] <= 57 {
        Some(data[0] - 48)
    } else {
        None
    }
}

/// Parse a `u32` from ASCII decimal bytes.
/// Returns `None` on an empty slice, a non-digit byte, or overflow.
pub fn parse_u32(data: &[u8]) -> (r: Option<u32>)
    ensures
        r == parse_u32_spec(data@),
{
    if data.len() == 0 {
        return None;
    }
    let mut result: u32 = 0;
    let mut i: usize = 0;
    while i < data.len()
        invariant
            0 <= i <= data@.len(),
            all_digits(data@.take(i as int)),
            result == dec_value(data@.take(i as int)),
        decreases data@.len() - i,
    {
        let b = data[i];
        if b < 48 || b > 57 {
            return None;
        }
        let d = b - 48;
        proof {
            assert(data@.take(i + 1).drop_last() =~= data@.take(i as int));
            assert(data@.take(i + 1).last() == data@[i as int]);
        }
        if result > (u32::MAX - d as u32) / 10 {
            proof {
                lemma_dec_value_nonneg(data@.take(i as int));
                if all_digits(data@) {
                    lemma_dec_value_prefix(data@, i + 1);
                }
            }
            return None;
        }
        result = result * 10 + d as u32;
        i = i + 1;
    }
    proof {
        assert(data@.take(data@.len() as int) =~= data@);
    }
    Some(result)
}

/// Parse a `u64` from ASCII decimal bytes.
/// Returns `None` on an empty slice, a non-digit byte, or overflow.
pub fn parse_u64(data: &[u8]) -> (r: Option<u64>)
    ensures
        r == parse_u64_spec(data@),
{
    if data.len() == 0 {
        return None;
    }
    let mut result: u64 = 0;
    let mut i: usize = 0;
    while i < data.len()
        invariant
            0 <= i <= data@.len(),
            all_digits(data@.take(i as int)),
            result == dec_value(data@.take(i as int)),
        decreases data@.len() - i,
    {
        let b = data[i];
        if b < 48 || b > 57 {
            return None;
        }
        let d = b - 48;
        proof {
            assert(data@.take(i + 1).drop_last() =~= data@.take(i as int));
            assert(data@.take(i + 1).last() == data@[i as int]);
        }
        if result > (u64::MAX - d as u64) / 10 {
            proof {
                lemma_dec_value_nonneg(data@.take(i as int));
                if all_digits(data@) {
                    lemma_dec_value_prefix(data@, i + 1);
                }
            }
            return None;
        }
        result = result * 10 + d as u64;
        i = i + 1;
    }
    proof {
        assert(data@.take(data@.len() as int) =~= data@);
    }
    Some(result)
}

/// Format a `u8` as ASCII decimal, most significant digit first.
pub fn format_u8(value: u8) -> (r: Vec<u8>)
    ensures
        r@ == dec_digits(value as nat),
{
    let mut out: Vec<u8> = Vec::new();
    if value >= 100 {
        out.push(48 + value / 100);
        out.push(48 + (value / 10) % 10);
        out.push(48 + value % 10);
        proof {
            lemma_dec_digits_three(value as nat);
            assert(out@ =~= dec_digits(value as nat));
        }
    } else if value >= 10 {
        out.push(48 + value / 10);
        out.push(48 + value % 10);
        proof {
            lemma_dec_digits_two(value as nat);
            assert(out@ =~= dec_digits(value as nat));
        }
    } else {
        out.push(48 + value);
        proof {
            assert(out@ =~= dec_digits(value as nat));
        }
    }
    out
}

/// Format a `u32` as ASCII decimal, most significant digit first.
pub fn format_u32(value: u32) -> (r: Vec<u8>)
    ensures
        r@ == dec_digits(value as nat),
{
    let mut low_first: Vec<u8> = Vec::new();
    let mut cur: u32 = value;
    while cur >= 10
        invariant
            dec_digits(value as nat) =~= dec_digits(cur as nat) + low_first@.reverse(),
        decreases cur,
    {
        let d: u8 = (cur % 10) as u8;
        proof {
            assert(dec_digits(cur as nat) =~= dec_digits((cur as nat) / 10) + seq![(48 + d) as u8]);
            assert(low_first@.push((48 + d) as u8).reverse() =~= seq![(48 + d) as u8] + low_first@.reverse());
        }
        low_first.push(48 + d);
        cur = cur / 10;
    }
    let mut out: Vec<u8> = Vec::new();
    out.push(48 + cur as u8);
    let n = low_first.len();
    let mut j: usize = 0;
    while j < n
        invariant
            n == low_first@.len(),
            0 <= j <= n,
            out@ =~= seq![(48 + cur as nat) as u8] + low_first@.reverse().take(j as int),
        decreases n - j,
    {
        proof {
            assert(low_first@.reverse()[j as int] == low_first@[n - 1 - j]);
            assert(low_first@.reverse().take(j + 1) =~= low_first@.reverse().take(j as int).push(
                low_first@.reverse()[j as int],
            ));
        }
        out.push(low_first[n - 1 - j]);
        j = j + 1;
    }
    proof {
        assert(low_first@.reverse().take(n as int) =~= low_first@.reverse());
        assert(out@ =~= dec_digits(value as nat));
    }
    out
}

/// Format a `u64` as ASCII decimal, most significant digit first.
pub fn format_u64(value: u64) -> (r: Vec<u8>)
    ensures
        r@ == dec_digits(value as nat),
{
    let mut low_first: Vec<u8> = Vec::new();
    let mut cur: u64 = value;
    while cur >= 10
        invariant
            dec_digits(value as nat) =~= dec_digits(cur as nat) + low_first@.reverse(),
        decreases cur,
    {
        let d: u8 = (cur % 10) as u8;
        proof {
            assert(dec_digits(cur as nat) =~= dec_digits((cur as nat) / 10) + seq![(48 + d) as u8]);
            assert(low_first@.push((48 + d) as u8).reverse() =~= seq![(48 + d) as u8] + low_first@.reverse());
        }
        low_first.push(48 + d);
        cur = cur / 10;
    }
    let mut out: Vec<u8> = Vec::new();
    out.push(48 + cur as u8);
    let n = low_first.len();
    let mut j: usize = 0;
    while j < n
        invariant
            n == low_first@.len(),
            0 <= j <= n,
            out@ =~= seq![(48 + cur as nat) as u8] + low_first@.reverse().take(j as int),
        decreases n - j,
    {
        proof {
            assert(low_first@.reverse()[j as int] == low_first@[n - 1 - j]);
            assert(low_first@.reverse().take(j + 1) =~= low_first@.reverse().take(j as int).push(
                low_first@.reverse()[j as int],
            ));
        }
        out.push(low_first[n - 1 - j]);
        j = j + 1;
    }
    proof {
        assert(low_first@.reverse().take(n as int) =~= low_first@.reverse());
        assert(out@ =~= dec_digits(value as nat));
    }
    out
}


/// The canonical decimal encoding is injective.
pub proof fn lemma_dec_digits_injective(a: nat, b: nat)
    ensures
        dec_digits(a) == dec_digits(b) ==> a == b,
{
    if dec_digits(a) == dec_digits(b) {
        lemma_dec_digits_value(a);
        lemma_dec_digits_value(b);
    }
}


/// Law: decimal round trip for `u32` — parsing the canonical encoding
/// of any value gives that value back.
pub proof fn lemma_u32_round_trip(v: u32)
    ensures
        parse_u32_spec(dec_digits(v as nat)) == Some(v),
{
    lemma_dec_digits_all_digits(v as nat);
    lemma_dec_digits_value(v as nat);
}

/// Law: decimal round trip for `u64` — parsing the canonical encoding
/// of any value gives that value back.
pub proof fn lemma_u64_round_trip(v: u64)
    ensures
        parse_u64_spec(dec_digits(v as nat)) == Some(v),
{
    lemma_dec_digits_all_digits(v as nat);
    lemma_dec_digits_value(v as nat);
}

} // verus!
