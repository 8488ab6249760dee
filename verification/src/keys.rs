//! Construction of the record's composite keys.
//!
//! Keys combine a fixed prefix, a decimal index (0-255, no leading
//! zeros), and for per-field keys a fixed suffix, e.g. `prop_3_state`.
//! Every key byte stays clear of the record delimiters.

use vstd::prelude::*;
use crate::num::{dec_digits, lemma_dec_digits_all_digits};
use crate::record::{clean_key, clean_value};

verus! {

/// A key made of a prefix and a decimal index, e.g. `member_3`.
pub open spec fn indexed_key(prefix: Seq<u8>, index: u8) -> Seq<u8> {
    prefix + dec_digits(index as nat)
}

/// A per-field key: prefix, decimal index, suffix, e.g. `prop_3_state`.
pub open spec fn composite_key(prefix: Seq<u8>, index: u8, suffix: Seq<u8>) -> Seq<u8> {
    prefix + dec_digits(index as nat) + suffix
}

/// Concatenation keeps keys clear of the delimiters.
pub proof fn lemma_clean_concat(a: Seq<u8>, b: Seq<u8>)
    requires
        clean_key(a),
        clean_key(b),
    ensures
        clean_key(a + b),
{
    assert forall|i: int| 0 <= i < (a + b).len() implies #[trigger] (a + b)[i] != 59 && (a + b)[i]
        != 61 by {
        if i < a.len() {
            assert((a + b)[i] == a[i]);
        } else {
            assert((a + b)[i] == b[i - a.len()]);
        }
    }
}

/// Decimal digit strings are clear of the delimiters.
pub proof fn lemma_clean_digits(n: nat)
    ensures
        clean_key(dec_digits(n)),
{
    lemma_dec_digits_all_digits(n);
}

/// A clean key is also usable as a value.
pub proof fn lemma_clean_key_value(a: Seq<u8>)
    requires
        clean_key(a),
    ensures
        clean_value(a),
{
}

/// The text `_lock`.
pub open spec fn k_lock() -> Seq<u8> {
    seq![95u8, 108, 111, 99, 107]
}

/// Bytes of the text `_lock`.
pub fn k_lock_bytes() -> (r: Vec<u8>)
    ensures
        r@ == k_lock(),
        clean_key(r@),
{
    let v: Vec<u8> = vec![95, 108, 111, 99, 107];
    proof {
        assert(v@ =~= k_lock());
    }
    v
}

/// The text `member_count`.
pub open spec fn k_member_count() -> Seq<u8> {
    seq![109u8, 101, 109, 98, 101, 114, 95, 99, 111, 117, 110, 116]
}

/// Bytes of the text `member_count`.
pub fn k_member_count_bytes() -> (r: Vec<u8>)
    ensures
        r@ == k_member_count(),
        clean_key(r@),
{
    let v: Vec<u8> = vec![109, 101, 109, 98, 101, 114, 95, 99, 111, 117, 110, 116];
    proof {
        assert(v@ =~= k_member_count());
    }
    v
}

/// The text `proposal_count`.
pub open spec fn k_proposal_count() -> Seq<u8> {
    seq![112u8, 114, 111, 112, 111, 115, 97, 108, 95, 99, 111, 117, 110, 116]
}

/// Bytes of the text `proposal_count`.
pub fn k_proposal_count_bytes() -> (r: Vec<u8>)
    ensures
        r@ == k_proposal_count(),
        clean_key(r@),
{
    let v: Vec<u8> = vec![112, 114, 111, 112, 111, 115, 97, 108, 95, 99, 111, 117, 110, 116];
    proof {
        assert(v@ =~= k_proposal_count());
    }
    v
}

/// The text `op_count`.
pub open spec fn k_op_count() -> Seq<u8> {
    seq![111u8, 112, 95, 99, 111, 117, 110, 116]
}

/// Bytes of the text `op_count`.
pub fn k_op_count_bytes() -> (r: Vec<u8>)
    ensures
        r@ == k_op_count(),
        clean_key(r@),
{
    let v: Vec<u8> = vec![111, 112, 95, 99, 111, 117, 110, 116];
    proof {
        assert(v@ =~= k_op_count());
    }
    v
}

/// The text `member_`.
pub open spec fn p_member() -> Seq<u8> {
    seq![109u8, 101, 109, 98, 101, 114, 95]
}

/// Bytes of the text `member_`.
pub fn p_member_bytes() -> (r: Vec<u8>)
    ensures
        r@ == p_member(),
        clean_key(r@),
{
    let v: Vec<u8> = vec![109, 101, 109, 98, 101, 114, 95];
    proof {
        assert(v@ =~= p_member());
    }
    v
}

/// The text `prop_`.
pub open spec fn p_prop() -> Seq<u8> {
    seq![112u8, 114, 111, 112, 95]
}

/// Bytes of the text `prop_`.
pub fn p_prop_bytes() -> (r: Vec<u8>)
    ensures
        r@ == p_prop(),
        clean_key(r@),
{
    let v: Vec<u8> = vec![112, 114, 111, 112, 95];
    proof {
        assert(v@ =~= p_prop());
    }
    v
}

/// The text `op_`.
pub open spec fn p_op() -> Seq<u8> {
    seq![111u8, 112, 95]
}

/// Bytes of the text `op_`.
pub fn p_op_bytes() -> (r: Vec<u8>)
    ensures
        r@ == p_op(),
        clean_key(r@),
{
    let v: Vec<u8> = vec![111, 112, 95];
    proof {
        assert(v@ =~= p_op());
    }
    v
}

/// The text `vote_`.
pub open spec fn p_vote() -> Seq<u8> {
    seq![118u8, 111, 116, 101, 95]
}

/// Bytes of the text `vote_`.
pub fn p_vote_bytes() -> (r: Vec<u8>)
    ensures
        r@ == p_vote(),
        clean_key(r@),
{
    let v: Vec<u8> = vec![118, 111, 116, 101, 95];
    proof {
        assert(v@ =~= p_vote());
    }
    v
}

/// The text `delegate_`.
pub open spec fn p_delegate() -> Seq<u8> {
    seq![100u8, 101, 108, 101, 103, 97, 116, 101, 95]
}

/// Bytes of the text `delegate_`.
pub fn p_delegate_bytes() -> (r: Vec<u8>)
    ensures
        r@ == p_delegate(),
        clean_key(r@),
{
    let v: Vec<u8> = vec![100, 101, 108, 101, 103, 97, 116, 101, 95];
    proof {
        assert(v@ =~= p_delegate());
    }
    v
}

/// The text `snap_`.
pub open spec fn p_snap() -> Seq<u8> {
    seq![115u8, 110, 97, 112, 95]
}

/// Bytes of the text `snap_`.
pub fn p_snap_bytes() -> (r: Vec<u8>)
    ensures
        r@ == p_snap(),
        clean_key(r@),
{
    let v: Vec<u8> = vec![115, 110, 97, 112, 95];
    proof {
        assert(v@ =~= p_snap());
    }
    v
}

/// The text `sigvote_`.
pub open spec fn p_sigvote() -> Seq<u8> {
    seq![115u8, 105, 103, 118, 111, 116, 101, 95]
}

/// Bytes of the text `sigvote_`.
pub fn p_sigvote_bytes() -> (r: Vec<u8>)
    ensures
        r@ == p_sigvote(),
        clean_key(r@),
{
    let v: Vec<u8> = vec![115, 105, 103, 118, 111, 116, 101, 95];
    proof {
        assert(v@ =~= p_sigvote());
    }
    v
}

/// The text `_id`.
pub open spec fn s_id() -> Seq<u8> {
    seq![95u8, 105, 100]
}

/// Bytes of the text `_id`.
pub fn s_id_bytes() -> (r: Vec<u8>)
    ensures
        r@ == s_id(),
        clean_key(r@),
{
    let v: Vec<u8> = vec![95, 105, 100];
    proof {
        assert(v@ =~= s_id());
    }
    v
}

/// The text `_proposer`.
pub open spec fn s_proposer() -> Seq<u8> {
    seq![95u8, 112, 114, 111, 112, 111, 115, 101, 114]
}

/// Bytes of the text `_proposer`.
pub fn s_proposer_bytes() -> (r: Vec<u8>)
    ensures
        r@ == s_proposer(),
        clean_key(r@),
{
    let v: Vec<u8> = vec![95, 112, 114, 111, 112, 111, 115, 101, 114];
    proof {
        assert(v@ =~= s_proposer());
    }
    v
}

/// The text `_state`.
pub open spec fn s_state() -> Seq<u8> {
    seq![95u8, 115, 116, 97, 116, 101]
}

/// Bytes of the text `_state`.
pub fn s_state_bytes() -> (r: Vec<u8>)
    ensures
        r@ == s_state(),
        clean_key(r@),
{
    let v: Vec<u8> = vec![95, 115, 116, 97, 116, 101];
    proof {
        assert(v@ =~= s_state());
    }
    v
}

/// The text `_start`.
pub open spec fn s_start() -> Seq<u8> {
    seq![95u8, 115, 116, 97, 114, 116]
}

/// Bytes of the text `_start`.
pub fn s_start_bytes() -> (r: Vec<u8>)
    ensures
        r@ == s_start(),
        clean_key(r@),
{
    let v: Vec<u8> = vec![95, 115, 116, 97, 114, 116];
    proof {
        assert(v@ =~= s_start());
    }
    v
}

/// The text `_end`.
pub open spec fn s_end() -> Seq<u8> {
    seq![95u8, 101, 110, 100]
}

/// Bytes of the text `_end`.
pub fn s_end_bytes() -> (r: Vec<u8>)
    ensures
        r@ == s_end(),
        clean_key(r@),
{
    let v: Vec<u8> = vec![95, 101, 110, 100];
    proof {
        assert(v@ =~= s_end());
    }
    v
}

/// The text `_for`.
pub open spec fn s_for() -> Seq<u8> {
    seq![95u8, 102, 111, 114]
}

/// Bytes of the text `_for`.
pub fn s_for_bytes() -> (r: Vec<u8>)
    ensures
        r@ == s_for(),
        clean_key(r@),
{
    let v: Vec<u8> = vec![95, 102, 111, 114];
    proof {
        assert(v@ =~= s_for());
    }
    v
}

/// The text `_against`.
pub open spec fn s_against() -> Seq<u8> {
    seq![95u8, 97, 103, 97, 105, 110, 115, 116]
}

/// Bytes of the text `_against`.
pub fn s_against_bytes() -> (r: Vec<u8>)
    ensures
        r@ == s_against(),
        clean_key(r@),
{
    let v: Vec<u8> = vec![95, 97, 103, 97, 105, 110, 115, 116];
    proof {
        assert(v@ =~= s_against());
    }
    v
}

/// The text `_abstain`.
pub open spec fn s_abstain() -> Seq<u8> {
    seq![95u8, 97, 98, 115, 116, 97, 105, 110]
}

/// Bytes of the text `_abstain`.
pub fn s_abstain_bytes() -> (r: Vec<u8>)
    ensures
        r@ == s_abstain(),
        clean_key(r@),
{
    let v: Vec<u8> = vec![95, 97, 98, 115, 116, 97, 105, 110];
    proof {
        assert(v@ =~= s_abstain());
    }
    v
}

/// The text `_desc`.
pub open spec fn s_desc() -> Seq<u8> {
    seq![95u8, 100, 101, 115, 99]
}

/// Bytes of the text `_desc`.
pub fn s_desc_bytes() -> (r: Vec<u8>)
    ensures
        r@ == s_desc(),
        clean_key(r@),
{
    let v: Vec<u8> = vec![95, 100, 101, 115, 99];
    proof {
        assert(v@ =~= s_desc());
    }
    v
}

/// The text `_prop`.
pub open spec fn s_prop() -> Seq<u8> {
    seq![95u8, 112, 114, 111, 112]
}

/// Bytes of the text `_prop`.
pub fn s_prop_bytes() -> (r: Vec<u8>)
    ensures
        r@ == s_prop(),
        clean_key(r@),
{
    let v: Vec<u8> = vec![95, 112, 114, 111, 112];
    proof {
        assert(v@ =~= s_prop());
    }
    v
}

/// The text `_ready`.
pub open spec fn s_ready() -> Seq<u8> {
    seq![95u8, 114, 101, 97, 100, 121]
}

/// Bytes of the text `_ready`.
pub fn s_ready_bytes() -> (r: Vec<u8>)
    ensures
        r@ == s_ready(),
        clean_key(r@),
{
    let v: Vec<u8> = vec![95, 114, 101, 97, 100, 121];
    proof {
        assert(v@ =~= s_ready());
    }
    v
}

/// The text `_predecessor`.
pub open spec fn s_predecessor() -> Seq<u8> {
    seq![95u8, 112, 114, 101, 100, 101, 99, 101, 115, 115, 111, 114]
}

/// Bytes of the text `_predecessor`.
pub fn s_predecessor_bytes() -> (r: Vec<u8>)
    ensures
        r@ == s_predecessor(),
        clean_key(r@),
{
    let v: Vec<u8> = vec![95, 112, 114, 101, 100, 101, 99, 101, 115, 115, 111, 114];
    proof {
        assert(v@ =~= s_predecessor());
    }
    v
}

/// Build `prefix` + decimal `index` as a fresh key.
pub fn make_indexed_key(prefix: &[u8], index: u8) -> (r: Vec<u8>)
    ensures
        r@ == indexed_key(prefix@, index),
{
    let mut k: Vec<u8> = Vec::new();
    k.extend_from_slice(prefix);
    let digits = crate::num::format_u8(index);
    k.extend_from_slice(digits.as_slice());
    proof {
        assert(k@ =~= indexed_key(prefix@, index));
    }
    k
}

/// Build `prefix` + decimal `index` + `suffix` as a fresh key.
pub fn make_composite_key(prefix: &[u8], index: u8, suffix: &[u8]) -> (r: Vec<u8>)
    ensures
        r@ == composite_key(prefix@, index, suffix@),
{
    let mut k: Vec<u8> = Vec::new();
    k.extend_from_slice(prefix);
    let digits = crate::num::format_u8(index);
    k.extend_from_slice(digits.as_slice());
    k.extend_from_slice(suffix);
    proof {
        assert(k@ =~= composite_key(prefix@, index, suffix@));
    }
    k
}

/// An indexed key built from clean parts is clean.
pub proof fn lemma_indexed_key_clean(prefix: Seq<u8>, index: u8)
    requires
        clean_key(prefix),
    ensures
        clean_key(indexed_key(prefix, index)),
{
    lemma_clean_digits(index as nat);
    lemma_clean_concat(prefix, dec_digits(index as nat));
}

/// A composite key built from clean parts is clean.
pub proof fn lemma_composite_key_clean(prefix: Seq<u8>, index: u8, suffix: Seq<u8>)
    requires
        clean_key(prefix),
        clean_key(suffix),
    ensures
        clean_key(composite_key(prefix, index, suffix)),
{
    lemma_clean_digits(index as nat);
    lemma_clean_concat(prefix, dec_digits(index as nat));
    lemma_clean_concat(prefix + dec_digits(index as nat), suffix);
}

/// Write `prefix` + decimal `index` into the front of `out`.  Returns the
/// key length, or 0, leaving `out` unchanged, when it does not fit.
pub fn build_indexed_key(prefix: &[u8], index: u8, out: &mut Vec<u8>) -> (r: usize)
    ensures
        final(out)@.len() == old(out)@.len(),
        ({
            let k = indexed_key(prefix@, index);
            if k.len() <= old(out)@.len() {
                r == k.len() && final(out)@ == k + old(out)@.skip(k.len() as int)
            } else {
                r == 0 && final(out)@ == old(out)@
            }
        }),
{
    let k = make_indexed_key(prefix, index);
    put_at_front(k, out)
}

/// Write `prefix` + decimal `index` + `suffix` into the front of `out`.
/// Returns the key length, or 0, leaving `out` unchanged, when it does
/// not fit.
pub fn build_prop_key(prefix: &[u8], index: u8, suffix: &[u8], out: &mut Vec<u8>) -> (r: usize)
    ensures
        final(out)@.len() == old(out)@.len(),
        ({
            let k = composite_key(prefix@, index, suffix@);
            if k.len() <= old(out)@.len() {
                r == k.len() && final(out)@ == k + old(out)@.skip(k.len() as int)
            } else {
                r == 0 && final(out)@ == old(out)@
            }
        }),
{
    let k = make_composite_key(prefix, index, suffix);
    put_at_front(k, out)
}

/// Copy `src` over the front of `out`.  Returns its length, or 0,
/// leaving `out` unchanged, when it does not fit.
fn put_at_front(src: Vec<u8>, out: &mut Vec<u8>) -> (r: usize)
    ensures
        final(out)@.len() == old(out)@.len(),
        src@.len() <= old(out)@.len() ==> r == src@.len() && final(out)@ == src@ + old(
            out,
        )@.skip(src@.len() as int),
        src@.len() > old(out)@.len() ==> r == 0 && final(out)@ == old(out)@,
{
    if src.len() > out.len() {
        return 0;
    }
    let mut i: usize = 0;
    while i < src.len()
        invariant
            0 <= i <= src@.len() <= out@.len(),
            out@.len() == old(out)@.len(),
            forall|j: int| 0 <= j < i ==> out@[j] == src@[j],
            forall|j: int| i <= j < out@.len() ==> out@[j] == old(out)@[j],
        decreases src@.len() - i,
    {
        out[i] = src[i];
        i = i + 1;
    }
    proof {
        assert(out@ =~= src@ + old(out)@.skip(src@.len() as int));
    }
    src.len()
}


/// Composite keys with the same prefix and index but different suffixes
/// differ.
pub proof fn lemma_key_suffix_distinct(prefix: Seq<u8>, i: u8, s1: Seq<u8>, s2: Seq<u8>)
    requires
        s1 != s2,
    ensures
        composite_key(prefix, i, s1) != composite_key(prefix, i, s2),
{
    let d = dec_digits(i as nat);
    if composite_key(prefix, i, s1) == composite_key(prefix, i, s2) {
        assert(composite_key(prefix, i, s1).len() == composite_key(prefix, i, s2).len());
        assert(prefix.len() + d.len() + s1.len() == prefix.len() + d.len() + s2.len());
        assert(s1 =~= s2) by {
            assert forall|j: int| 0 <= j < s1.len() implies s1[j] == s2[j] by {
                assert(composite_key(prefix, i, s1)[prefix.len() + d.len() + j] == s1[j]);
                assert(composite_key(prefix, i, s2)[prefix.len() + d.len() + j] == s2[j]);
            }
        }
    }
}

/// The same-length field suffixes are pairwise distinct.
pub proof fn lemma_suffixes_distinct()
    ensures
        s_state() != s_start(),
        s_end() != s_for(),
        s_against() != s_abstain(),
        s_desc() != s_prop(),
        s_ready() != s_state(),
{
    assert(s_state() != s_start()) by {
        if s_state() == s_start() {
            assert(s_state()[4] == s_start()[4]);
        }
    }
    assert(s_end() != s_for()) by {
        if s_end() == s_for() {
            assert(s_end()[1] == s_for()[1]);
        }
    }
    assert(s_against() != s_abstain()) by {
        if s_against() == s_abstain() {
            assert(s_against()[2] == s_abstain()[2]);
        }
    }
    assert(s_desc() != s_prop()) by {
        if s_desc() == s_prop() {
            assert(s_desc()[1] == s_prop()[1]);
        }
    }
    assert(s_ready() != s_state()) by {
        if s_ready() == s_state() {
            assert(s_ready()[1] == s_state()[1]);
        }
    }
}

/// The `proposal_count` key differs from every proposal field key.
pub proof fn lemma_prop_count_key_distinct(i: u8, suffix: Seq<u8>)
    ensures
        k_proposal_count() != composite_key(p_prop(), i, suffix),
{
    let ck = composite_key(p_prop(), i, suffix);
    if k_proposal_count() == ck {
        assert(ck[4] == p_prop()[4]);
        assert(k_proposal_count()[4] == ck[4]);
    }
}

/// The `op_count` key differs from every operation field key.
pub proof fn lemma_op_count_key_distinct(i: u8, suffix: Seq<u8>)
    ensures
        k_op_count() != composite_key(p_op(), i, suffix),
{
    crate::num::lemma_dec_digits_all_digits(i as nat);
    let ck = composite_key(p_op(), i, suffix);
    if k_op_count() == ck {
        assert(ck[3] == dec_digits(i as nat)[0]);
        assert(crate::num::is_digit(dec_digits(i as nat)[0]));
        assert(k_op_count()[3] == ck[3]);
    }
}

} // verus!
