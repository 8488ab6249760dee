//! Vote casting and counting: three-way support, double-vote
//! prevention, tally bookkeeping, and quorum and majority evaluation.
//!
//! Vote records `vote_<p>_<n>=<40-hex-voter>:<support>:<weight>` are
//! append-only; the existence of a record for a voter is the sole
//! double-vote guard.  Quorum counts for plus abstain votes; a tie of
//! for and against is a defeat.

use vstd::prelude::*;
use crate::config::{
    ERR_ALREADY_VOTED, ERR_BAD_CONFIG, ERR_INVALID_VOTE, ERR_OVERFLOW, ERR_PROPOSAL_NOT_ACTIVE,
    MAX_MEMBERS, MAX_RECORD_SIZE, PROPOSAL_STATE_ACTIVE, VOTE_ABSTAIN, VOTE_AGAINST, VOTE_FOR,
};
use crate::governor::{
    get_proposal_state, prop_abstain, prop_against, prop_for, prop_key, proposal_state_spec,
};
use crate::hex::{bytes_to_hex, to_hex};
use crate::keys::{composite_key, lemma_clean_digits, lemma_composite_key_clean, p_prop, p_prop_bytes, p_vote, p_vote_bytes, s_abstain, s_abstain_bytes, s_against, s_against_bytes, s_for, s_for_bytes};
use crate::members::{quorum_spec, sat_add, COLON_BYTE};
use crate::num::{dec_digits, format_u64, format_u8, lemma_dec_digits_all_digits, lemma_dec_digits_value, parse_u64, parse_u64_spec};
use crate::record::{clean_key, clean_value, entry_of, field_u64, find_value, has_key, joined, lemma_entries_of_joined, lemma_entry_of, lemma_lookup_in_append, lemma_lookup_in_at, lemma_lookup_in_none, lemma_lookup_rewrite, lemma_push_wf, lemma_record_entries_wf, lemma_rewrite_wf, lookup, make_entry, range_eq, read_u64_field, record_entries, rewrite_all, rewrite_entries, seal_record, split_record, views};

verus! {

/// Key of vote record `n` on proposal `p`, e.g. `vote_3_0`.
pub open spec fn vote_key(p: u8, n: u8) -> Seq<u8> {
    p_vote() + dec_digits(p as nat) + seq![95u8] + dec_digits(n as nat)
}

/// Parse `<40-hex>:<support>:<weight>`; support must be a digit up to 2.
pub open spec fn parse_vote_spec(v: Seq<u8>) -> Option<(u8, u64)> {
    if v.len() < 42 {
        None
    } else if v[40] != COLON_BYTE {
        None
    } else if v[41] < 48 {
        None
    } else if v[41] - 48 > 2 {
        None
    } else if v.len() < 43 || v[42] != COLON_BYTE {
        None
    } else {
        match parse_u64_spec(v.skip(43)) {
            Some(w) => Some(((v[41] - 48) as u8, w)),
            None => None,
        }
    }
}

/// Serialized vote record value.
pub open spec fn vote_value_of(hex: Seq<u8>, support: u8, weight: u64) -> Seq<u8> {
    hex + seq![COLON_BYTE] + seq![(48 + support) as u8] + seq![COLON_BYTE] + dec_digits(
        weight as nat,
    )
}

/// Number of consecutive vote records on proposal `p` starting at `n`,
/// capped at the member limit.
pub open spec fn vote_count_from(data: Seq<u8>, p: u8, n: u8) -> u8
    decreases MAX_MEMBERS - n,
{
    if n >= MAX_MEMBERS as u8 {
        MAX_MEMBERS as u8
    } else if lookup(data, vote_key(p, n)) is Some {
        vote_count_from(data, p, (n + 1) as u8)
    } else {
        n
    }
}

/// Number of vote records on proposal `p`.
pub open spec fn vote_count(data: Seq<u8>, p: u8) -> u8 {
    vote_count_from(data, p, 0)
}

/// Vote slot `n` on proposal `p` was cast by the voter with this hex
/// encoding.
pub open spec fn vote_slot_is(data: Seq<u8>, p: u8, n: u8, hex: Seq<u8>) -> bool {
    match lookup(data, vote_key(p, n)) {
        Some(v) => v.len() >= 40 && v.take(40) == hex,
        None => false,
    }
}

/// The voter with this hex encoding has a vote record on proposal `p`.
pub open spec fn voted_spec(data: Seq<u8>, p: u8, hex: Seq<u8>) -> bool {
    exists|n: int|
        0 <= n < vote_count(data, p) && #[trigger] vote_slot_is(data, p, n as u8, hex)
}

/// First vote slot at or after `n` cast by `hex`, parsed.
pub open spec fn get_vote_from(data: Seq<u8>, p: u8, hex: Seq<u8>, n: u8) -> Option<(u8, u64)>
    decreases vote_count(data, p) - n,
{
    if n >= vote_count(data, p) {
        None
    } else if vote_slot_is(data, p, n, hex) {
        parse_vote_spec(lookup(data, vote_key(p, n))->0)
    } else {
        get_vote_from(data, p, hex, (n + 1) as u8)
    }
}

/// The recorded vote of `hex` on proposal `p`, if any.
pub open spec fn get_vote_spec(data: Seq<u8>, p: u8, hex: Seq<u8>) -> Option<(u8, u64)> {
    get_vote_from(data, p, hex, 0)
}

/// Vote keys are clean of the record delimiters.
proof fn lemma_vote_key_clean(p: u8, n: u8)
    ensures
        clean_key(vote_key(p, n)),
{
    let k = vote_key(p, n);
    lemma_clean_digits(p as nat);
    lemma_clean_digits(n as nat);
    assert forall|i: int| 0 <= i < k.len() implies #[trigger] k[i] != 59 && k[i] != 61 by {
        let a = p_vote().len() as int;
        let b = a + dec_digits(p as nat).len();
        if i < a {
            assert(k[i] == p_vote()[i]);
        } else if i < b {
            assert(k[i] == dec_digits(p as nat)[i - a]);
        } else if i == b {
            assert(k[i] == 95u8);
        } else {
            assert(k[i] == dec_digits(n as nat)[i - b - 1]);
        }
    }
}

/// Build the vote record key `vote_<p>_<n>`.
fn make_vote_key(p: u8, n: u8) -> (r: Vec<u8>)
    ensures
        r@ == vote_key(p, n),
        clean_key(r@),
{
    let mut k = p_vote_bytes();
    let dp = format_u8(p);
    k.extend_from_slice(dp.as_slice());
    k.push(95);
    let dn = format_u8(n);
    k.extend_from_slice(dn.as_slice());
    proof {
        assert(k@ =~= vote_key(p, n));
        lemma_vote_key_clean(p, n);
    }
    k
}

/// Count existing vote records on a proposal, scanning consecutive keys.
fn count_votes_for_proposal(data: &[u8], proposal_index: u8) -> (r: u8)
    ensures
        r == vote_count(data@, proposal_index),
{
    let mut n: u8 = 0;
    loop
        invariant
            0 <= n <= MAX_MEMBERS as u8,
            vote_count(data@, proposal_index) == vote_count_from(data@, proposal_index, n),
        decreases MAX_MEMBERS - n,
    {
        if n >= MAX_MEMBERS as u8 {
            return n;
        }
        let key = make_vote_key(proposal_index, n);
        if find_value(data, key.as_slice()).is_none() {
            return n;
        }
        n = n + 1;
    }
}

/// Has this account already voted on the proposal?
pub fn has_voted(data: &[u8], proposal_index: u8, voter: &[u8; 20]) -> (r: bool)
    ensures
        r == voted_spec(data@, proposal_index, bytes_to_hex(voter@)),
{
    let hex = to_hex(voter.as_slice());
    let count = count_votes_for_proposal(data, proposal_index);
    let mut n: u8 = 0;
    while n < count
        invariant
            count == vote_count(data@, proposal_index),
            0 <= n <= count,
            hex@ == bytes_to_hex(voter@),
            forall|j: int|
                0 <= j < n ==> !(#[trigger] vote_slot_is(data@, proposal_index, j as u8, hex@)),
        decreases count - n,
    {
        let key = make_vote_key(proposal_index, n);
        if let Some(v) = find_value(data, key.as_slice()) {
            if v.len() >= 40 && range_eq(v, 0, 40, hex.as_slice()) {
                proof {
                    assert(v@.subrange(0, 40) =~= v@.take(40));
                    assert(vote_slot_is(data@, proposal_index, (n as int) as u8, hex@));
                }
                return true;
            }
            proof {
                assert(v@.subrange(0, 40) =~= v@.take(40));
            }
        }
        n = n + 1;
    }
    false
}

/// Parse a vote record value into support and weight.
fn parse_vote_record(v: &[u8]) -> (r: Option<(u8, u64)>)
    ensures
        r == parse_vote_spec(v@),
{
    if v.len() < 42 {
        return None;
    }
    if v[40] != COLON_BYTE {
        return None;
    }
    if v[41] < 48 {
        return None;
    }
    let support = v[41] - 48;
    if support > 2 {
        return None;
    }
    if v.len() < 43 {
        return None;
    }
    if v[42] != COLON_BYTE {
        return None;
    }
    let w = parse_u64(vstd::slice::slice_subrange(v, 43, v.len()));
    proof {
        assert(v@.subrange(43, v@.len() as int) =~= v@.skip(43));
    }
    match w {
        Some(weight) => Some((support, weight)),
        None => None,
    }
}

/// The recorded vote (support, weight) of an account on a proposal.
pub fn get_vote(data: &[u8], proposal_index: u8, voter: &[u8; 20]) -> (r: Option<(u8, u64)>)
    ensures
        r == get_vote_spec(data@, proposal_index, bytes_to_hex(voter@)),
{
    let hex = to_hex(voter.as_slice());
    let count = count_votes_for_proposal(data, proposal_index);
    let mut n: u8 = 0;
    while n < count
        invariant
            count == vote_count(data@, proposal_index),
            0 <= n <= count,
            hex@ == bytes_to_hex(voter@),
            get_vote_spec(data@, proposal_index, hex@) == get_vote_from(
                data@,
                proposal_index,
                hex@,
                n,
            ),
        decreases count - n,
    {
        let key = make_vote_key(proposal_index, n);
        if let Some(v) = find_value(data, key.as_slice()) {
            if v.len() >= 40 && range_eq(v, 0, 40, hex.as_slice()) {
                proof {
                    assert(v@.subrange(0, 40) =~= v@.take(40));
                    assert(vote_slot_is(data@, proposal_index, n, hex@));
                }
                return parse_vote_record(v);
            }
            proof {
                assert(v@.subrange(0, 40) =~= v@.take(40));
                assert(!vote_slot_is(data@, proposal_index, n, hex@));
            }
        } else {
            proof {
                assert(!vote_slot_is(data@, proposal_index, n, hex@));
            }
        }
        n = n + 1;
    }
    None
}

/// The three tallies of a proposal: (for, against, abstain).
pub fn proposal_votes(data: &[u8], proposal_index: u8) -> (r: (u64, u64, u64))
    ensures
        r.0 == prop_for(data@, proposal_index),
        r.1 == prop_against(data@, proposal_index),
        r.2 == prop_abstain(data@, proposal_index),
{
    let fkey = crate::keys::make_composite_key(
        p_prop_bytes().as_slice(),
        proposal_index,
        s_for_bytes().as_slice(),
    );
    let f = read_u64_field(data, fkey.as_slice());
    let akey = crate::keys::make_composite_key(
        p_prop_bytes().as_slice(),
        proposal_index,
        s_against_bytes().as_slice(),
    );
    let a = read_u64_field(data, akey.as_slice());
    let bkey = crate::keys::make_composite_key(
        p_prop_bytes().as_slice(),
        proposal_index,
        s_abstain_bytes().as_slice(),
    );
    let b = read_u64_field(data, bkey.as_slice());
    (f, a, b)
}

/// Quorum is reached exactly when the for and abstain tallies together
/// (saturating) reach `floor(total/100) * QUORUM_PERCENTAGE`.
pub fn quorum_reached(data: &[u8], proposal_index: u8, total_voting_power: u64) -> (r: bool)
    ensures
        r == (sat_add(prop_for(data@, proposal_index), prop_abstain(data@, proposal_index))
            >= quorum_spec(total_voting_power)),
{
    let (f, _a, b) = proposal_votes(data, proposal_index);
    let required = crate::members::quorum(total_voting_power);
    f.saturating_add(b) >= required
}

/// The vote succeeded exactly when for strictly exceeds against; a tie
/// is a defeat.
pub fn vote_succeeded(data: &[u8], proposal_index: u8) -> (r: bool)
    ensures
        r == (prop_for(data@, proposal_index) > prop_against(data@, proposal_index)),
{
    let (f, a, _b) = proposal_votes(data, proposal_index);
    f > a
}


/// Distinct slots have distinct vote keys.
proof fn lemma_vote_key_injective(p: u8, a: u8, b: u8)
    requires
        a != b,
    ensures
        vote_key(p, a) != vote_key(p, b),
{
    let base = p_vote() + dec_digits(p as nat) + seq![95u8];
    if vote_key(p, a) == vote_key(p, b) {
        assert(vote_key(p, a).len() == vote_key(p, b).len());
        assert(base.len() + dec_digits(a as nat).len() == base.len() + dec_digits(b as nat).len());
        assert(dec_digits(a as nat) =~= dec_digits(b as nat)) by {
            assert forall|j: int| 0 <= j < dec_digits(a as nat).len() implies dec_digits(
                a as nat,
            )[j] == dec_digits(b as nat)[j] by {
                assert(vote_key(p, a)[base.len() + j] == dec_digits(a as nat)[j]);
                assert(vote_key(p, b)[base.len() + j] == dec_digits(b as nat)[j]);
            }
        }
        crate::num::lemma_dec_digits_injective(a as nat, b as nat);
    }
}

/// A vote key never equals a proposal field key.
proof fn lemma_vote_prop_distinct(i: u8, suffix: Seq<u8>, p: u8, n: u8)
    ensures
        composite_key(p_prop(), i, suffix) != vote_key(p, n),
{
    if composite_key(p_prop(), i, suffix) == vote_key(p, n) {
        assert(composite_key(p_prop(), i, suffix)[0] == p_prop()[0]);
        assert(vote_key(p, n)[0] == p_vote()[0]);
    }
}

/// Below the count every slot key is present; the slot at the count is
/// free (unless the cap was hit).
proof fn lemma_vote_count_props(data: Seq<u8>, p: u8, n: u8)
    requires
        n <= MAX_MEMBERS as u8,
    ensures
        ({
            let c = vote_count_from(data, p, n);
            &&& n <= c <= MAX_MEMBERS as u8
            &&& (c < MAX_MEMBERS as u8 ==> lookup(data, vote_key(p, c)) is None)
            &&& (forall|j: int|
                n <= j < c ==> #[trigger] lookup(data, vote_key(p, j as u8)) is Some)
        }),
    decreases MAX_MEMBERS - n,
{
    if n < MAX_MEMBERS as u8 && lookup(data, vote_key(p, n)) is Some {
        lemma_vote_count_props(data, p, (n + 1) as u8);
        let c = vote_count_from(data, p, n);
        assert forall|j: int| n <= j < c implies #[trigger] lookup(data, vote_key(p, j as u8))
            is Some by {
            if j == n {
            } else {
                assert(lookup(data, vote_key(p, j as u8)) is Some);
            }
        }
    }
}

/// If slots up to `k` are all present, the count exceeds `k`.
proof fn lemma_vote_count_at_least(data: Seq<u8>, p: u8, k: u8, n: u8)
    requires
        k < MAX_MEMBERS as u8,
        n <= k,
        forall|j: int| n <= j <= k ==> #[trigger] lookup(data, vote_key(p, j as u8)) is Some,
    ensures
        vote_count_from(data, p, n) > k,
    decreases MAX_MEMBERS - n,
{
    assert(lookup(data, vote_key(p, (n as int) as u8)) is Some);
    if n < k {
        lemma_vote_count_at_least(data, p, k, (n + 1) as u8);
    } else {
        lemma_vote_count_props(data, p, (n + 1) as u8);
    }
}

/// The tally suffix matching a support value.
pub open spec fn tally_suffix(support: u8) -> Seq<u8> {
    if support == VOTE_AGAINST {
        s_against()
    } else if support == VOTE_FOR {
        s_for()
    } else {
        s_abstain()
    }
}

/// Entry list after a successful vote: the matching tally rewritten,
/// then the fresh vote record appended.
pub open spec fn cast_vote_entries(
    data: Seq<u8>,
    i: u8,
    hex: Seq<u8>,
    support: u8,
    weight: u64,
) -> Seq<Seq<u8>> {
    let tk = prop_key(i, tally_suffix(support));
    let cur = field_u64(data, tk);
    rewrite_all(record_entries(data), tk, dec_digits((cur + weight) as nat)).push(
        entry_of(vote_key(i, vote_count(data, i)), vote_value_of(hex, support, weight)),
    )
}

/// Accepted-branch contract of [`cast_vote`]: the tally grows by the
/// weight (checked), the vote record is appended, everything else is
/// untouched.
pub open spec fn cast_vote_accepted(
    data: Seq<u8>,
    i: u8,
    hex: Seq<u8>,
    support: u8,
    weight: u64,
    r: Result<Vec<u8>, i32>,
) -> bool {
    let tk = prop_key(i, tally_suffix(support));
    let cur = field_u64(data, tk);
    let cnt = vote_count(data, i);
    let es1 = cast_vote_entries(data, i, hex, support, weight);
    &&& (cur + weight > u64::MAX ==> r == Err::<Vec<u8>, i32>(ERR_OVERFLOW))
    &&& (cur + weight <= u64::MAX ==> {
        &&& (r is Ok <==> joined(es1).len() <= MAX_RECORD_SIZE)
        &&& (r is Err ==> r->Err_0 == ERR_BAD_CONFIG)
        &&& (r is Ok ==> ({
            let nd = r->Ok_0@;
            &&& nd == joined(es1)
            &&& (has_key(record_entries(data), tk) ==> field_u64(nd, tk) == cur + weight)
            &&& (cnt < MAX_MEMBERS as u8 ==> voted_spec(nd, i, hex) && vote_count(nd, i) > cnt
                && lookup(nd, vote_key(i, cnt)) == Some(vote_value_of(hex, support, weight)))
            &&& (forall|q: Seq<u8>|
                q != tk && q != vote_key(i, cnt) ==> #[trigger] lookup(nd, q) == lookup(data, q))
        }))
    })
}

/// Contract of [`cast_vote`]: support must be valid, the proposal
/// active, and the voter fresh; then the vote is accepted as in
/// [`cast_vote_accepted`].  Each error comes exactly under its
/// condition, in this order.
pub open spec fn cast_vote_post(
    data: Seq<u8>,
    i: u8,
    voter: Seq<u8>,
    support: u8,
    weight: u64,
    now: u32,
    total: u64,
    r: Result<Vec<u8>, i32>,
) -> bool {
    let hex = bytes_to_hex(voter);
    let st = proposal_state_spec(data, i, now, total);
    &&& (support > VOTE_ABSTAIN ==> r == Err::<Vec<u8>, i32>(ERR_INVALID_VOTE))
    &&& (support <= VOTE_ABSTAIN && st != PROPOSAL_STATE_ACTIVE ==> r == Err::<Vec<u8>, i32>(
        ERR_PROPOSAL_NOT_ACTIVE,
    ))
    &&& (support <= VOTE_ABSTAIN && st == PROPOSAL_STATE_ACTIVE && voted_spec(data, i, hex) ==> r
        == Err::<Vec<u8>, i32>(ERR_ALREADY_VOTED))
    &&& (support <= VOTE_ABSTAIN && st == PROPOSAL_STATE_ACTIVE && !voted_spec(data, i, hex)
        ==> cast_vote_accepted(data, i, hex, support, weight, r))
}

/// Vote record values never contain the entry delimiter.
proof fn lemma_vote_value_clean(hex: Seq<u8>, support: u8, weight: u64)
    requires
        clean_value(hex),
        support <= 9,
    ensures
        clean_value(vote_value_of(hex, support, weight)),
{
    lemma_dec_digits_all_digits(weight as nat);
    let v = vote_value_of(hex, support, weight);
    let d = dec_digits(weight as nat);
    assert forall|i: int| 0 <= i < v.len() implies #[trigger] v[i] != 59 by {
        if i < hex.len() {
            assert(v[i] == hex[i]);
        } else if i == hex.len() {
            assert(v[i] == COLON_BYTE);
        } else if i == hex.len() + 1 {
            assert(v[i] == (48 + support) as u8);
        } else if i == hex.len() + 2 {
            assert(v[i] == COLON_BYTE);
        } else {
            assert(v[i] == d[i - hex.len() - 3]);
            assert(crate::num::is_digit(d[i - hex.len() - 3]));
        }
    }
}

/// Cast a vote on an active proposal.  Rejects an invalid support
/// value, an inactive proposal, a repeated voter, and a tally overflow;
/// otherwise the matching tally grows by `weight` and a vote record is
/// appended.
pub fn cast_vote(
    data: &[u8],
    proposal_index: u8,
    voter: &[u8; 20],
    support: u8,
    weight: u64,
    current_time: u32,
    total_voting_power: u64,
) -> (r: Result<Vec<u8>, i32>)
    ensures
        cast_vote_post(
            data@,
            proposal_index,
            voter@,
            support,
            weight,
            current_time,
            total_voting_power,
            r,
        ),
{
    if support > VOTE_ABSTAIN {
        return Err(ERR_INVALID_VOTE);
    }
    let state = get_proposal_state(data, proposal_index, current_time, total_voting_power);
    if state != PROPOSAL_STATE_ACTIVE {
        return Err(ERR_PROPOSAL_NOT_ACTIVE);
    }
    if has_voted(data, proposal_index, voter) {
        return Err(ERR_ALREADY_VOTED);
    }
    let hex = to_hex(voter.as_slice());
    let tsuffix = if support == VOTE_AGAINST {
        s_against_bytes()
    } else if support == VOTE_FOR {
        s_for_bytes()
    } else {
        s_abstain_bytes()
    };
    let tkey = crate::keys::make_composite_key(
        p_prop_bytes().as_slice(),
        proposal_index,
        tsuffix.as_slice(),
    );
    proof {
        assert(tkey@ == prop_key(proposal_index, tally_suffix(support)));
    }
    let current_tally = read_u64_field(data, tkey.as_slice());
    let new_tally = match current_tally.checked_add(weight) {
        Some(t) => t,
        None => {
            return Err(ERR_OVERFLOW);
        },
    };
    let cnt = count_votes_for_proposal(data, proposal_index);
    let ghost es0 = record_entries(data@);
    let ghost tk = prop_key(proposal_index, tally_suffix(support));
    let ghost vk = vote_key(proposal_index, cnt);
    let ghost vv = vote_value_of(hex@, support, weight);
    let ghost es1 = cast_vote_entries(data@, proposal_index, hex@, support, weight);

    let mut entries = split_record(data);
    let tally_val = format_u64(new_tally);
    rewrite_entries(&mut entries, tkey.as_slice(), tally_val.as_slice());
    let vkey = make_vote_key(proposal_index, cnt);
    let mut vval: Vec<u8> = Vec::new();
    vval.extend_from_slice(hex.as_slice());
    vval.push(COLON_BYTE);
    vval.push(48 + support);
    vval.push(COLON_BYTE);
    let wval = format_u64(weight);
    vval.extend_from_slice(wval.as_slice());
    proof {
        assert(vval@ =~= vv);
    }
    entries.push(make_entry(vkey.as_slice(), vval.as_slice()));
    proof {
        assert(views(entries@) =~= es1);
        lemma_composite_key_clean(p_prop(), proposal_index, tally_suffix(support));
        lemma_clean_digits(new_tally as nat);
        crate::members::lemma_hex_clean(voter@);
        lemma_vote_value_clean(hex@, support, weight);
        lemma_record_entries_wf(data@);
        lemma_rewrite_wf(es0, tk, dec_digits(new_tally as nat));
        lemma_entry_of(vk, vv);
        lemma_push_wf(rewrite_all(es0, tk, dec_digits(new_tally as nat)), entry_of(vk, vv));
    }
    match seal_record(&entries) {
        Ok(nd) => {
            proof {
                lemma_cast_vote_ok(data@, proposal_index, hex@, support, weight, nd@);
            }
            Ok(nd)
        },
        Err(e) => Err(e),
    }
}

/// Lookup and tally facts about a sealed vote record.
#[verifier::rlimit(60)]
proof fn lemma_cast_vote_ok(data: Seq<u8>, i: u8, hex: Seq<u8>, support: u8, weight: u64, nd: Seq<u8>)
    requires
        nd == joined(cast_vote_entries(data, i, hex, support, weight)),
        field_u64(data, prop_key(i, tally_suffix(support))) + weight <= u64::MAX,
        support <= 9,
        hex.len() == 40,
        clean_value(hex),
    ensures
        ({
            let tk = prop_key(i, tally_suffix(support));
            let cur = field_u64(data, tk);
            let cnt = vote_count(data, i);
            &&& (has_key(record_entries(data), tk) ==> field_u64(nd, tk) == cur + weight)
            &&& (cnt < MAX_MEMBERS as u8 ==> voted_spec(nd, i, hex) && vote_count(nd, i) > cnt
                && lookup(nd, vote_key(i, cnt)) == Some(vote_value_of(hex, support, weight)))
            &&& (forall|q: Seq<u8>|
                q != tk && q != vote_key(i, cnt) ==> #[trigger] lookup(nd, q) == lookup(data, q))
        }),
{
    let es0 = record_entries(data);
    let tk = prop_key(i, tally_suffix(support));
    let cur = field_u64(data, tk);
    let nv = dec_digits((cur + weight) as nat);
    let cnt = vote_count(data, i);
    let vk = vote_key(i, cnt);
    let vv = vote_value_of(hex, support, weight);
    let rw = rewrite_all(es0, tk, nv);
    let es1 = cast_vote_entries(data, i, hex, support, weight);
    lemma_composite_key_clean(p_prop(), i, tally_suffix(support));
    lemma_clean_digits((cur + weight) as nat);
    lemma_record_entries_wf(data);
    lemma_rewrite_wf(es0, tk, nv);
    lemma_vote_key_clean(i, cnt);
    lemma_vote_value_clean(hex, support, weight);
    lemma_entry_of(vk, vv);
    lemma_push_wf(rw, entry_of(vk, vv));
    lemma_entries_of_joined(es1);
    assert(es1 =~= rw + seq![entry_of(vk, vv)]);
    assert forall|q: Seq<u8>| true implies #[trigger] lookup(nd, q) == (if q == tk {
        if has_key(es0, tk) {
            Some(nv)
        } else if q == vk {
            Some(vv)
        } else {
            None
        }
    } else if lookup(data, q) is Some {
        lookup(data, q)
    } else if q == vk {
        Some(vv)
    } else {
        None
    }) by {
        lemma_lookup_in_append(rw, seq![entry_of(vk, vv)], q);
        lemma_lookup_rewrite(es0, tk, nv, q);
        if q == vk {
            lemma_lookup_in_at(seq![entry_of(vk, vv)], q, 0);
        } else {
            lemma_lookup_in_none(seq![entry_of(vk, vv)], q);
        }
    }
    lemma_vote_prop_distinct(i, tally_suffix(support), i, cnt);
    if has_key(es0, tk) {
        assert(lookup(nd, tk) == Some(nv));
        lemma_dec_digits_all_digits((cur + weight) as nat);
        lemma_dec_digits_value((cur + weight) as nat);
        assert(field_u64(nd, tk) == cur + weight);
    }
    lemma_vote_count_props(data, i, 0);
    if cnt < MAX_MEMBERS as u8 {
        assert(lookup(data, vk) is None);
        assert(lookup(nd, vk) == Some(vv));
        assert forall|j: int| 0 <= j <= cnt implies #[trigger] lookup(nd, vote_key(i, j as u8))
            is Some by {
            if j < cnt {
                lemma_vote_key_injective(i, j as u8, cnt);
                lemma_vote_prop_distinct(i, tally_suffix(support), i, j as u8);
                assert(lookup(data, vote_key(i, j as u8)) is Some);
            }
        }
        lemma_vote_count_at_least(nd, i, cnt, 0);
        assert(vv.take(40) =~= hex);
        assert(vote_slot_is(nd, i, (cnt as int) as u8, hex));
        assert(voted_spec(nd, i, hex));
    }
}

/// Law: a voter's vote is recorded at most once.  After a successful
/// vote, a second attempt by the same voter on the same proposal, with
/// any support value and while the proposal is still active, fails with
/// `ERR_ALREADY_VOTED`, leaving the record unchanged.
pub proof fn lemma_double_vote(
    data: Seq<u8>,
    i: u8,
    voter: Seq<u8>,
    support1: u8,
    weight1: u64,
    now1: u32,
    total1: u64,
    nd: Vec<u8>,
    support2: u8,
    weight2: u64,
    now2: u32,
    total2: u64,
    r2: Result<Vec<u8>, i32>,
)
    requires
        cast_vote_post(data, i, voter, support1, weight1, now1, total1, Ok(nd)),
        cast_vote_post(nd@, i, voter, support2, weight2, now2, total2, r2),
        support2 <= VOTE_ABSTAIN,
        proposal_state_spec(nd@, i, now2, total2) == PROPOSAL_STATE_ACTIVE,
        vote_count(data, i) < MAX_MEMBERS as u8,
    ensures
        r2 == Err::<Vec<u8>, i32>(ERR_ALREADY_VOTED),
{
    let hex = bytes_to_hex(voter);
    if support1 > VOTE_ABSTAIN {
        assert(Ok::<Vec<u8>, i32>(nd) == Err::<Vec<u8>, i32>(ERR_INVALID_VOTE));
    }
    if proposal_state_spec(data, i, now1, total1) != PROPOSAL_STATE_ACTIVE {
        assert(Ok::<Vec<u8>, i32>(nd) == Err::<Vec<u8>, i32>(ERR_PROPOSAL_NOT_ACTIVE));
    }
    if voted_spec(data, i, hex) {
        assert(Ok::<Vec<u8>, i32>(nd) == Err::<Vec<u8>, i32>(ERR_ALREADY_VOTED));
    }
    assert(voted_spec(nd@, i, hex));
}


/// A serialized vote value parses back to its support and weight.
proof fn lemma_parse_vote_value(hex: Seq<u8>, support: u8, weight: u64)
    requires
        hex.len() == 40,
        support <= 2,
    ensures
        parse_vote_spec(vote_value_of(hex, support, weight)) == Some((support, weight)),
        vote_value_of(hex, support, weight).len() >= 43,
        vote_value_of(hex, support, weight).take(40) == hex,
{
    let v = vote_value_of(hex, support, weight);
    let d = dec_digits(weight as nat);
    lemma_dec_digits_all_digits(weight as nat);
    lemma_dec_digits_value(weight as nat);
    assert(v.len() == 43 + d.len());
    assert(v[40] == COLON_BYTE);
    assert(v[41] == (48 + support) as u8);
    assert(v[42] == COLON_BYTE);
    assert(v.take(40) =~= hex);
    assert(v.skip(43) =~= d);
}

/// A matching slot below which nothing matches is where the scan reads.
proof fn lemma_get_vote_at_from(data: Seq<u8>, p: u8, hex: Seq<u8>, i: u8, j: u8)
    requires
        j <= i < vote_count(data, p),
        vote_slot_is(data, p, i, hex),
        forall|k: int| j <= k < i ==> !(#[trigger] vote_slot_is(data, p, k as u8, hex)),
    ensures
        get_vote_from(data, p, hex, j) == parse_vote_spec(lookup(data, vote_key(p, i))->0),
    decreases i - j,
{
    if j < i {
        assert(!vote_slot_is(data, p, (j as int) as u8, hex));
        lemma_get_vote_at_from(data, p, hex, i, (j + 1) as u8);
    }
}

/// Law: a successful vote reads back exactly.  After `cast_vote`
/// accepts a fresh voter on an active proposal, `get_vote` returns the
/// stored support and weight.
pub proof fn lemma_cast_vote_records(
    data: Seq<u8>,
    i: u8,
    voter: Seq<u8>,
    support: u8,
    weight: u64,
    now: u32,
    total: u64,
    nd: Vec<u8>,
)
    requires
        voter.len() == 20,
        support <= VOTE_ABSTAIN,
        proposal_state_spec(data, i, now, total) == PROPOSAL_STATE_ACTIVE,
        !voted_spec(data, i, bytes_to_hex(voter)),
        vote_count(data, i) < MAX_MEMBERS as u8,
        cast_vote_post(data, i, voter, support, weight, now, total, Ok(nd)),
    ensures
        get_vote_spec(nd@, i, bytes_to_hex(voter)) == Some((support, weight)),
{
    let hex = bytes_to_hex(voter);
    let cnt = vote_count(data, i);
    let tk = prop_key(i, tally_suffix(support));
    let vk = vote_key(i, cnt);
    let vv = vote_value_of(hex, support, weight);
    lemma_parse_vote_value(hex, support, weight);
    assert(lookup(nd@, vk) == Some(vv));
    assert(vote_slot_is(nd@, i, cnt, hex)) by {
        assert(vv.take(40) == hex);
    }
    assert forall|k: int| 0 <= k < cnt implies !(#[trigger] vote_slot_is(nd@, i, k as u8, hex)) by {
        lemma_vote_key_injective(i, k as u8, cnt);
        lemma_vote_prop_distinct(i, tally_suffix(support), i, k as u8);
        assert(lookup(nd@, vote_key(i, k as u8)) == lookup(data, vote_key(i, k as u8)));
        assert(!vote_slot_is(data, i, k as u8, hex));
    }
    assert(cnt < vote_count(nd@, i));
    lemma_get_vote_at_from(nd@, i, hex, cnt, 0);
}

} // verus!
