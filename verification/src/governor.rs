//! Proposal lifecycle: creation, time- and outcome-derived state, and
//! cancellation, plus the reentrancy flag guarding execution.
//!
//! A proposal's stored state is authoritative only for the explicit
//! states (canceled, queued, executed, expired); everything else is
//! derived from the clock and the tallies on every read.

use vstd::prelude::*;
use crate::config::{
    ERR_BAD_CONFIG, ERR_BELOW_THRESHOLD, ERR_MAX_PROPOSALS, ERR_NOT_PROPOSER,
    ERR_PROPOSAL_NOT_ACTIVE, ERR_PROPOSAL_NOT_FOUND, MAX_PROPOSALS, MAX_RECORD_SIZE,
    PROPOSAL_STATE_ACTIVE, PROPOSAL_STATE_CANCELED, PROPOSAL_STATE_DEFEATED,
    PROPOSAL_STATE_EXECUTED, PROPOSAL_STATE_EXPIRED, PROPOSAL_STATE_PENDING,
    PROPOSAL_STATE_QUEUED, PROPOSAL_STATE_SUCCEEDED, PROPOSAL_THRESHOLD, QUORUM_PERCENTAGE,
    VOTING_DELAY, VOTING_PERIOD,
};
use crate::hash::{hash_proposal, proposal_id_hash};
use crate::hex::{bytes_to_hex, to_hex};
use crate::keys::{
    composite_key, k_lock, k_lock_bytes, k_proposal_count, k_proposal_count_bytes,
    lemma_clean_digits, lemma_composite_key_clean, lemma_key_suffix_distinct,
    lemma_prop_count_key_distinct, lemma_suffixes_distinct, make_composite_key, p_prop,
    p_prop_bytes,
    s_abstain, s_abstain_bytes, s_against, s_against_bytes, s_desc, s_desc_bytes, s_end,
    s_end_bytes, s_for, s_for_bytes, s_id, s_id_bytes, s_proposer, s_proposer_bytes, s_start,
    s_start_bytes, s_state, s_state_bytes,
};
use crate::members::{quorum_spec, sat_add};
use crate::num::{dec_digits, format_u32, format_u8, lemma_dec_digits_all_digits, lemma_dec_digits_value};
use crate::record::{clean_key, clean_value, drop_entries, drop_key, entry_of, field_count, field_digit, field_u32, field_u64, find_value, has_key, joined, lemma_drop_wf, lemma_entries_of_joined, lemma_entry_of, lemma_lookup_drop, lemma_lookup_in_append, lemma_lookup_in_at, lemma_lookup_in_none, lemma_push_wf, lemma_record_entries_wf, lookup, lookup_in, make_entry, range_eq, read_count, read_digit_field, read_u32_field, read_u64_field, record_entries, rewrite_all, seal_record, split_record, upsert, upsert_record, views};

verus! {

/// Number of proposals in the record.
pub open spec fn prop_count_of(data: Seq<u8>) -> u8 {
    field_count(data, k_proposal_count())
}

/// Key of one proposal field, e.g. `prop_3_state`.
pub open spec fn prop_key(i: u8, suffix: Seq<u8>) -> Seq<u8> {
    composite_key(p_prop(), i, suffix)
}

/// Stored state digit of proposal `i`; pending when absent.
pub open spec fn prop_state_stored(data: Seq<u8>, i: u8) -> u8 {
    field_digit(data, prop_key(i, s_state()), PROPOSAL_STATE_PENDING)
}

/// Start of the voting window of proposal `i`.
pub open spec fn prop_start(data: Seq<u8>, i: u8) -> u32 {
    field_u32(data, prop_key(i, s_start()), 0)
}

/// End of the voting window of proposal `i`.
pub open spec fn prop_end(data: Seq<u8>, i: u8) -> u32 {
    field_u32(data, prop_key(i, s_end()), 0)
}

/// Tally of votes for proposal `i`.
pub open spec fn prop_for(data: Seq<u8>, i: u8) -> u64 {
    field_u64(data, prop_key(i, s_for()))
}

/// Tally of votes against proposal `i`.
pub open spec fn prop_against(data: Seq<u8>, i: u8) -> u64 {
    field_u64(data, prop_key(i, s_against()))
}

/// Tally of abstentions on proposal `i`.
pub open spec fn prop_abstain(data: Seq<u8>, i: u8) -> u64 {
    field_u64(data, prop_key(i, s_abstain()))
}

/// The stored state is one of the explicit states that always win over
/// time-derived ones.
pub open spec fn is_explicit_state(st: u8) -> bool {
    st == PROPOSAL_STATE_CANCELED || st == PROPOSAL_STATE_QUEUED || st == PROPOSAL_STATE_EXECUTED
        || st == PROPOSAL_STATE_EXPIRED
}

/// The state of proposal `i` at time `now` under `total` voting power:
/// an explicit stored state wins; otherwise the clock decides pending /
/// active, and after the voting window the quorum (for + abstain,
/// saturating, against `floor(total/100) * QUORUM_PERCENTAGE`) and the
/// for-versus-against majority decide; a tie is a defeat.
pub open spec fn proposal_state_spec(data: Seq<u8>, i: u8, now: u32, total: u64) -> u8 {
    let st = prop_state_stored(data, i);
    if is_explicit_state(st) {
        st
    } else if now < prop_start(data, i) {
        PROPOSAL_STATE_PENDING
    } else if now <= prop_end(data, i) {
        PROPOSAL_STATE_ACTIVE
    } else {
        let quorum_votes = sat_add(prop_for(data, i), prop_abstain(data, i));
        if quorum_votes < quorum_spec(total) {
            PROPOSAL_STATE_DEFEATED
        } else if prop_for(data, i) > prop_against(data, i) {
            PROPOSAL_STATE_SUCCEEDED
        } else {
            PROPOSAL_STATE_DEFEATED
        }
    }
}

/// Current state of a proposal.  Explicit stored states win; otherwise
/// the state is derived from the clock, the tallies, and the quorum.
pub fn get_proposal_state(data: &[u8], proposal_index: u8, current_time: u32, total_voting_power: u64) -> (r: u8)
    ensures
        r == proposal_state_spec(data@, proposal_index, current_time, total_voting_power),
{
    let skey = make_composite_key(p_prop_bytes().as_slice(), proposal_index, s_state_bytes().as_slice());
    let stored_state = read_digit_field(data, skey.as_slice(), PROPOSAL_STATE_PENDING);
    if stored_state == PROPOSAL_STATE_CANCELED || stored_state == PROPOSAL_STATE_QUEUED
        || stored_state == PROPOSAL_STATE_EXECUTED || stored_state == PROPOSAL_STATE_EXPIRED {
        return stored_state;
    }
    let stkey = make_composite_key(p_prop_bytes().as_slice(), proposal_index, s_start_bytes().as_slice());
    let vote_start = read_u32_field(data, stkey.as_slice(), 0);
    if current_time < vote_start {
        return PROPOSAL_STATE_PENDING;
    }
    let ekey = make_composite_key(p_prop_bytes().as_slice(), proposal_index, s_end_bytes().as_slice());
    let vote_end = read_u32_field(data, ekey.as_slice(), 0);
    if current_time <= vote_end {
        return PROPOSAL_STATE_ACTIVE;
    }
    let fkey = make_composite_key(p_prop_bytes().as_slice(), proposal_index, s_for_bytes().as_slice());
    let for_votes = read_u64_field(data, fkey.as_slice());
    let akey = make_composite_key(p_prop_bytes().as_slice(), proposal_index, s_against_bytes().as_slice());
    let against_votes = read_u64_field(data, akey.as_slice());
    let abkey = make_composite_key(p_prop_bytes().as_slice(), proposal_index, s_abstain_bytes().as_slice());
    let abstain_votes = read_u64_field(data, abkey.as_slice());
    proof {
        assert((total_voting_power as int / 100) * (QUORUM_PERCENTAGE as int) <= u64::MAX as int)
            by (nonlinear_arith);
    }
    let quorum_required = (total_voting_power / 100) * (QUORUM_PERCENTAGE as u64);
    let quorum_votes = for_votes.saturating_add(abstain_votes);
    if quorum_votes < quorum_required {
        return PROPOSAL_STATE_DEFEATED;
    }
    if for_votes > against_votes {
        PROPOSAL_STATE_SUCCEEDED
    } else {
        PROPOSAL_STATE_DEFEATED
    }
}

/// The reentrancy flag is set.
pub open spec fn locked_of(data: Seq<u8>) -> bool {
    lookup(data, k_lock()) == Some(seq![49u8])
}

/// Is the engine's reentrancy flag set?
pub fn is_locked(data: &[u8]) -> (r: bool)
    ensures
        r == locked_of(data@),
{
    match find_value(data, k_lock_bytes().as_slice()) {
        Some(v) => {
            let r = v.len() == 1 && v[0] == 49;
            proof {
                if r {
                    assert(v@ =~= seq![49u8]);
                } else {
                    assert(v@ != seq![49u8]);
                }
            }
            r
        },
        None => false,
    }
}

/// The serialized flag value: `1` when locked, `0` when not.
pub open spec fn lock_val(locked: bool) -> Seq<u8> {
    if locked {
        seq![49u8]
    } else {
        seq![48u8]
    }
}

/// Entry list after setting the reentrancy flag.
pub open spec fn set_lock_entries(data: Seq<u8>, locked: bool) -> Seq<Seq<u8>> {
    upsert(record_entries(data), k_lock(), lock_val(locked))
}

/// Set or clear the reentrancy flag; every other key is untouched.
pub fn set_lock(data: &[u8], locked: bool) -> (r: Result<Vec<u8>, i32>)
    ensures
        ({
            let es1 = set_lock_entries(data@, locked);
            &&& (r is Ok <==> joined(es1).len() <= MAX_RECORD_SIZE)
            &&& r is Ok ==> r->Ok_0@ == joined(es1) && locked_of(r->Ok_0@) == locked && (forall|
                q: Seq<u8>,
            |
                q != k_lock() ==> #[trigger] lookup(r->Ok_0@, q) == lookup(data@, q))
            &&& r is Err ==> r->Err_0 == ERR_BAD_CONFIG
        }),
{
    let lk = k_lock_bytes();
    let val: Vec<u8> = if locked {
        vec![49]
    } else {
        vec![48]
    };
    proof {
        assert(val@ =~= lock_val(locked));
    }
    let r = upsert_record(data, lk.as_slice(), val.as_slice());
    proof {
        if r is Ok {
            assert(lookup(r->Ok_0@, k_lock()) == Some(lock_val(locked)));
            if locked {
                assert(locked_of(r->Ok_0@));
            } else {
                assert(lock_val(false) != seq![49u8]) by {
                    if lock_val(false) == seq![49u8] {
                        assert(lock_val(false)[0] == seq![49u8][0]);
                    }
                }
                assert(!locked_of(r->Ok_0@));
            }
        }
    }
    r
}

/// Law: toggling the lock on and then off leaves every governance key
/// as it was, and leaves the flag clear.  The lock entry itself is the
/// only part of the record that may differ.
pub proof fn lemma_lock_toggle_preserves(data: Seq<u8>, q: Seq<u8>)
    requires
        q != k_lock(),
    ensures
        lookup(joined(set_lock_entries(joined(set_lock_entries(data, true)), false)), q) == lookup(
            data,
            q,
        ),
        !locked_of(joined(set_lock_entries(joined(set_lock_entries(data, true)), false))),
{
    let es0 = record_entries(data);
    let es1 = set_lock_entries(data, true);
    let d1 = joined(es1);
    lemma_record_entries_wf(data);
    lemma_upsert_lock_wf(es0, true);
    lemma_entries_of_joined(es1);
    let es2 = set_lock_entries(d1, false);
    let d2 = joined(es2);
    lemma_upsert_lock_wf(es1, false);
    lemma_entries_of_joined(es2);
    lemma_upsert_lock_lookup(es0, true, q);
    lemma_upsert_lock_lookup(es1, false, q);
    lemma_upsert_lock_lookup(es0, true, k_lock());
    lemma_upsert_lock_lookup(es1, false, k_lock());
    assert(lookup_in(es2, k_lock()) == Some(lock_val(false)));
    assert(lock_val(false) != seq![49u8]) by {
        if lock_val(false) == seq![49u8] {
            assert(lock_val(false)[0] == seq![49u8][0]);
        }
    }
}

/// The lock upsert preserves entry well-formedness.
proof fn lemma_upsert_lock_wf(es: Seq<Seq<u8>>, locked: bool)
    requires
        crate::record::all_wf(es),
    ensures
        crate::record::all_wf(upsert(es, k_lock(), lock_val(locked))),
{
    lemma_entry_of(k_lock(), lock_val(locked));
    if has_key(es, k_lock()) {
        crate::record::lemma_rewrite_wf(es, k_lock(), lock_val(locked));
    } else {
        lemma_push_wf(es, entry_of(k_lock(), lock_val(locked)));
    }
}

/// What the lock upsert does to lookups.
proof fn lemma_upsert_lock_lookup(es: Seq<Seq<u8>>, locked: bool, q: Seq<u8>)
    ensures
        q == k_lock() ==> lookup_in(upsert(es, k_lock(), lock_val(locked)), q) == Some(
            lock_val(locked),
        ),
        q != k_lock() ==> lookup_in(upsert(es, k_lock(), lock_val(locked)), q) == lookup_in(es, q),
{
    let key = k_lock();
    let value = lock_val(locked);
    lemma_entry_of(key, value);
    if has_key(es, key) {
        crate::record::lemma_lookup_rewrite(es, key, value, q);
    } else {
        let e = entry_of(key, value);
        assert(es.push(e) =~= es + seq![e]);
        lemma_lookup_in_append(es, seq![e], q);
        if q == key {
            lemma_lookup_in_at(seq![e], q, 0);
        } else {
            lemma_lookup_in_none(seq![e], q);
        }
    }
}


/// The ten entries appended by a successful `propose`, in order: the
/// bumped proposal count, then the new proposal's id, proposer, state,
/// window start and end, three zero tallies, and description hash.
pub open spec fn propose_tail(data: Seq<u8>, account: Seq<u8>, dh: u32, now: u32) -> Seq<Seq<u8>> {
    let n = prop_count_of(data);
    let id = proposal_id_hash(account, dh, now, n);
    let start = (now + VOTING_DELAY) as u32;
    let endt = (start + VOTING_PERIOD) as u32;
    seq![
        entry_of(k_proposal_count(), dec_digits((n + 1) as nat)),
        entry_of(prop_key(n, s_id()), dec_digits(id as nat)),
        entry_of(prop_key(n, s_proposer()), bytes_to_hex(account)),
        entry_of(prop_key(n, s_state()), seq![48u8]),
        entry_of(prop_key(n, s_start()), dec_digits(start as nat)),
        entry_of(prop_key(n, s_end()), dec_digits(endt as nat)),
        entry_of(prop_key(n, s_for()), seq![48u8]),
        entry_of(prop_key(n, s_against()), seq![48u8]),
        entry_of(prop_key(n, s_abstain()), seq![48u8]),
        entry_of(prop_key(n, s_desc()), dec_digits(dh as nat)),
    ]
}

/// Entry list after a successful `propose`: the old entries with the
/// proposal count dropped, then [`propose_tail`].
pub open spec fn propose_entries(data: Seq<u8>, account: Seq<u8>, dh: u32, now: u32) -> Seq<
    Seq<u8>,
> {
    drop_key(record_entries(data), k_proposal_count()) + propose_tail(data, account, dh, now)
}

/// No field of proposal slot `n` is present yet.
pub open spec fn prop_slot_fresh(data: Seq<u8>, n: u8) -> bool {
    &&& lookup(data, prop_key(n, s_id())) is None
    &&& lookup(data, prop_key(n, s_proposer())) is None
    &&& lookup(data, prop_key(n, s_state())) is None
    &&& lookup(data, prop_key(n, s_start())) is None
    &&& lookup(data, prop_key(n, s_end())) is None
    &&& lookup(data, prop_key(n, s_for())) is None
    &&& lookup(data, prop_key(n, s_against())) is None
    &&& lookup(data, prop_key(n, s_abstain())) is None
    &&& lookup(data, prop_key(n, s_desc())) is None
}

/// What [`propose_tail`] answers for each key.
proof fn lemma_propose_tail_lookup(data: Seq<u8>, account: Seq<u8>, dh: u32, now: u32, q: Seq<u8>)
    ensures
        ({
            let n = prop_count_of(data);
            let id = proposal_id_hash(account, dh, now, n);
            let start = (now + VOTING_DELAY) as u32;
            let endt = (start + VOTING_PERIOD) as u32;
            lookup_in(propose_tail(data, account, dh, now), q) == (if q == k_proposal_count() {
                Some(dec_digits((n + 1) as nat))
            } else if q == prop_key(n, s_id()) {
                Some(dec_digits(id as nat))
            } else if q == prop_key(n, s_proposer()) {
                Some(bytes_to_hex(account))
            } else if q == prop_key(n, s_state()) {
                Some(seq![48u8])
            } else if q == prop_key(n, s_start()) {
                Some(dec_digits(start as nat))
            } else if q == prop_key(n, s_end()) {
                Some(dec_digits(endt as nat))
            } else if q == prop_key(n, s_for()) {
                Some(seq![48u8])
            } else if q == prop_key(n, s_against()) {
                Some(seq![48u8])
            } else if q == prop_key(n, s_abstain()) {
                Some(seq![48u8])
            } else if q == prop_key(n, s_desc()) {
                Some(dec_digits(dh as nat))
            } else {
                None
            })
        }),
{
    let n = prop_count_of(data);
    let t = propose_tail(data, account, dh, now);
    lemma_propose_keys_clean(n);
    lemma_entry_of(k_proposal_count(), dec_digits((n + 1) as nat));
    lemma_entry_of(prop_key(n, s_id()), dec_digits(proposal_id_hash(account, dh, now, n) as nat));
    lemma_entry_of(prop_key(n, s_proposer()), bytes_to_hex(account));
    lemma_entry_of(prop_key(n, s_state()), seq![48u8]);
    lemma_entry_of(prop_key(n, s_start()), dec_digits(((now + VOTING_DELAY) as u32) as nat));
    lemma_entry_of(
        prop_key(n, s_end()),
        dec_digits(((((now + VOTING_DELAY) as u32) + VOTING_PERIOD) as u32) as nat),
    );
    lemma_entry_of(prop_key(n, s_for()), seq![48u8]);
    lemma_entry_of(prop_key(n, s_against()), seq![48u8]);
    lemma_entry_of(prop_key(n, s_abstain()), seq![48u8]);
    lemma_entry_of(prop_key(n, s_desc()), dec_digits(dh as nat));
    lemma_suffixes_distinct();
    lemma_key_suffix_distinct(p_prop(), n, s_id(), s_proposer());
    lemma_key_suffix_distinct(p_prop(), n, s_id(), s_state());
    lemma_key_suffix_distinct(p_prop(), n, s_id(), s_start());
    lemma_key_suffix_distinct(p_prop(), n, s_id(), s_end());
    lemma_key_suffix_distinct(p_prop(), n, s_id(), s_for());
    lemma_key_suffix_distinct(p_prop(), n, s_id(), s_against());
    lemma_key_suffix_distinct(p_prop(), n, s_id(), s_abstain());
    lemma_key_suffix_distinct(p_prop(), n, s_id(), s_desc());
    lemma_key_suffix_distinct(p_prop(), n, s_proposer(), s_state());
    lemma_key_suffix_distinct(p_prop(), n, s_proposer(), s_start());
    lemma_key_suffix_distinct(p_prop(), n, s_proposer(), s_end());
    lemma_key_suffix_distinct(p_prop(), n, s_proposer(), s_for());
    lemma_key_suffix_distinct(p_prop(), n, s_proposer(), s_against());
    lemma_key_suffix_distinct(p_prop(), n, s_proposer(), s_abstain());
    lemma_key_suffix_distinct(p_prop(), n, s_proposer(), s_desc());
    lemma_key_suffix_distinct(p_prop(), n, s_state(), s_start());
    lemma_key_suffix_distinct(p_prop(), n, s_state(), s_end());
    lemma_key_suffix_distinct(p_prop(), n, s_state(), s_for());
    lemma_key_suffix_distinct(p_prop(), n, s_state(), s_against());
    lemma_key_suffix_distinct(p_prop(), n, s_state(), s_abstain());
    lemma_key_suffix_distinct(p_prop(), n, s_state(), s_desc());
    lemma_key_suffix_distinct(p_prop(), n, s_start(), s_end());
    lemma_key_suffix_distinct(p_prop(), n, s_start(), s_for());
    lemma_key_suffix_distinct(p_prop(), n, s_start(), s_against());
    lemma_key_suffix_distinct(p_prop(), n, s_start(), s_abstain());
    lemma_key_suffix_distinct(p_prop(), n, s_start(), s_desc());
    lemma_key_suffix_distinct(p_prop(), n, s_end(), s_for());
    lemma_key_suffix_distinct(p_prop(), n, s_end(), s_against());
    lemma_key_suffix_distinct(p_prop(), n, s_end(), s_abstain());
    lemma_key_suffix_distinct(p_prop(), n, s_end(), s_desc());
    lemma_key_suffix_distinct(p_prop(), n, s_for(), s_against());
    lemma_key_suffix_distinct(p_prop(), n, s_for(), s_abstain());
    lemma_key_suffix_distinct(p_prop(), n, s_for(), s_desc());
    lemma_key_suffix_distinct(p_prop(), n, s_against(), s_abstain());
    lemma_key_suffix_distinct(p_prop(), n, s_against(), s_desc());
    lemma_key_suffix_distinct(p_prop(), n, s_abstain(), s_desc());
    lemma_prop_count_key_distinct(n, s_id());
    lemma_prop_count_key_distinct(n, s_proposer());
    lemma_prop_count_key_distinct(n, s_state());
    lemma_prop_count_key_distinct(n, s_start());
    lemma_prop_count_key_distinct(n, s_end());
    lemma_prop_count_key_distinct(n, s_for());
    lemma_prop_count_key_distinct(n, s_against());
    lemma_prop_count_key_distinct(n, s_abstain());
    lemma_prop_count_key_distinct(n, s_desc());
    if q == k_proposal_count() {
        lemma_lookup_in_at(t, q, 0);
    } else if q == prop_key(n, s_id()) {
        lemma_lookup_in_at(t, q, 1);
    } else if q == prop_key(n, s_proposer()) {
        lemma_lookup_in_at(t, q, 2);
    } else if q == prop_key(n, s_state()) {
        lemma_lookup_in_at(t, q, 3);
    } else if q == prop_key(n, s_start()) {
        lemma_lookup_in_at(t, q, 4);
    } else if q == prop_key(n, s_end()) {
        lemma_lookup_in_at(t, q, 5);
    } else if q == prop_key(n, s_for()) {
        lemma_lookup_in_at(t, q, 6);
    } else if q == prop_key(n, s_against()) {
        lemma_lookup_in_at(t, q, 7);
    } else if q == prop_key(n, s_abstain()) {
        lemma_lookup_in_at(t, q, 8);
    } else if q == prop_key(n, s_desc()) {
        lemma_lookup_in_at(t, q, 9);
    } else {
        lemma_lookup_in_none(t, q);
    }
}

/// The proposal field keys and count key are clean.
proof fn lemma_propose_keys_clean(n: u8)
    ensures
        clean_key(k_proposal_count()),
        clean_key(prop_key(n, s_id())),
        clean_key(prop_key(n, s_proposer())),
        clean_key(prop_key(n, s_state())),
        clean_key(prop_key(n, s_start())),
        clean_key(prop_key(n, s_end())),
        clean_key(prop_key(n, s_for())),
        clean_key(prop_key(n, s_against())),
        clean_key(prop_key(n, s_abstain())),
        clean_key(prop_key(n, s_desc())),
{
    lemma_composite_key_clean(p_prop(), n, s_id());
    lemma_composite_key_clean(p_prop(), n, s_proposer());
    lemma_composite_key_clean(p_prop(), n, s_state());
    lemma_composite_key_clean(p_prop(), n, s_start());
    lemma_composite_key_clean(p_prop(), n, s_end());
    lemma_composite_key_clean(p_prop(), n, s_for());
    lemma_composite_key_clean(p_prop(), n, s_against());
    lemma_composite_key_clean(p_prop(), n, s_abstain());
    lemma_composite_key_clean(p_prop(), n, s_desc());
}

/// Contract of [`propose`].
pub open spec fn propose_post(
    data: Seq<u8>,
    account: Seq<u8>,
    dh: u32,
    now: u32,
    votes: u64,
    r: Result<(Vec<u8>, u32), i32>,
) -> bool {
    let n = prop_count_of(data);
    let id = proposal_id_hash(account, dh, now, n);
    let es1 = propose_entries(data, account, dh, now);
    let start = (now + VOTING_DELAY) as u32;
    let endt = (start + VOTING_PERIOD) as u32;
    &&& (r == Err::<(Vec<u8>, u32), i32>(ERR_BELOW_THRESHOLD) <==> votes < PROPOSAL_THRESHOLD)
    &&& (r == Err::<(Vec<u8>, u32), i32>(ERR_MAX_PROPOSALS) <==> votes >= PROPOSAL_THRESHOLD
        && n as int >= MAX_PROPOSALS as int)
    &&& (r is Ok <==> votes >= PROPOSAL_THRESHOLD && (n as int) < MAX_PROPOSALS as int && joined(
        es1,
    ).len() <= MAX_RECORD_SIZE)
    &&& (r is Ok ==> ({
        let nd = r->Ok_0.0@;
        &&& r->Ok_0.1 == id
        &&& r->Ok_0.1 != 0
        &&& nd == joined(es1)
        &&& prop_count_of(nd) == n + 1
        &&& (prop_slot_fresh(data, n) ==> prop_state_stored(nd, n) == PROPOSAL_STATE_PENDING
            && prop_start(nd, n) == start && prop_end(nd, n) == endt && prop_for(nd, n) == 0
            && prop_against(nd, n) == 0 && prop_abstain(nd, n) == 0 && lookup(
            nd,
            prop_key(n, s_id()),
        ) == Some(dec_digits(id as nat)) && lookup(nd, prop_key(n, s_proposer())) == Some(
            bytes_to_hex(account),
        ))
        &&& (forall|q: Seq<u8>|
            !propose_touches(data, q) ==> #[trigger] lookup(nd, q) == lookup(data, q))
    }))
    &&& (r is Err ==> r->Err_0 == ERR_BELOW_THRESHOLD || r->Err_0 == ERR_MAX_PROPOSALS
        || r->Err_0 == ERR_BAD_CONFIG)
}

/// The keys a successful `propose` writes.
pub open spec fn propose_touches(data: Seq<u8>, q: Seq<u8>) -> bool {
    let n = prop_count_of(data);
    q == k_proposal_count() || q == prop_key(n, s_id()) || q == prop_key(n, s_proposer()) || q
        == prop_key(n, s_state()) || q == prop_key(n, s_start()) || q == prop_key(n, s_end()) || q
        == prop_key(n, s_for()) || q == prop_key(n, s_against()) || q == prop_key(n, s_abstain())
        || q == prop_key(n, s_desc())
}

/// Create a proposal.  Fails below the power threshold or at the
/// proposal cap; otherwise allocates the next index, derives the id
/// from the proposer, description hash, time and count, and initializes
/// the voting window and zero tallies.  The caller keeps the voting
/// window within the 32-bit clock.
pub fn propose(
    data: &[u8],
    proposer: &[u8; 20],
    description_hash: u32,
    current_time: u32,
    proposer_votes: u64,
) -> (r: Result<(Vec<u8>, u32), i32>)
    requires
        current_time + VOTING_DELAY + VOTING_PERIOD <= u32::MAX,
    ensures
        propose_post(data@, proposer@, description_hash, current_time, proposer_votes, r),
{
    if proposer_votes < PROPOSAL_THRESHOLD {
        return Err(ERR_BELOW_THRESHOLD);
    }
    let ck = k_proposal_count_bytes();
    let prop_count = read_count(data, ck.as_slice());
    if prop_count as usize >= MAX_PROPOSALS {
        return Err(ERR_MAX_PROPOSALS);
    }
    let proposal_id = hash_proposal(proposer, description_hash, current_time, prop_count);
    let ghost es0 = record_entries(data@);
    let ghost es1 = propose_entries(data@, proposer@, description_hash, current_time);
    let ghost tail = propose_tail(data@, proposer@, description_hash, current_time);
    let entries0 = split_record(data);
    let mut entries = drop_entries(&entries0, ck.as_slice());
    let n = prop_count;

    let count_val = format_u8(n + 1);
    entries.push(make_entry(ck.as_slice(), count_val.as_slice()));

    let id_key = make_composite_key(p_prop_bytes().as_slice(), n, s_id_bytes().as_slice());
    let id_val = format_u32(proposal_id);
    entries.push(make_entry(id_key.as_slice(), id_val.as_slice()));

    let pr_key = make_composite_key(p_prop_bytes().as_slice(), n, s_proposer_bytes().as_slice());
    let hexv = to_hex(proposer.as_slice());
    entries.push(make_entry(pr_key.as_slice(), hexv.as_slice()));

    let st_key = make_composite_key(p_prop_bytes().as_slice(), n, s_state_bytes().as_slice());
    let zero: Vec<u8> = vec![48];
    proof {
        assert(zero@ =~= seq![48u8]);
    }
    entries.push(make_entry(st_key.as_slice(), zero.as_slice()));

    let start_time = current_time + VOTING_DELAY;
    let sa_key = make_composite_key(p_prop_bytes().as_slice(), n, s_start_bytes().as_slice());
    let sa_val = format_u32(start_time);
    entries.push(make_entry(sa_key.as_slice(), sa_val.as_slice()));

    let end_time = start_time + VOTING_PERIOD;
    let en_key = make_composite_key(p_prop_bytes().as_slice(), n, s_end_bytes().as_slice());
    let en_val = format_u32(end_time);
    entries.push(make_entry(en_key.as_slice(), en_val.as_slice()));

    let fo_key = make_composite_key(p_prop_bytes().as_slice(), n, s_for_bytes().as_slice());
    entries.push(make_entry(fo_key.as_slice(), zero.as_slice()));
    let ag_key = make_composite_key(p_prop_bytes().as_slice(), n, s_against_bytes().as_slice());
    entries.push(make_entry(ag_key.as_slice(), zero.as_slice()));
    let ab_key = make_composite_key(p_prop_bytes().as_slice(), n, s_abstain_bytes().as_slice());
    entries.push(make_entry(ab_key.as_slice(), zero.as_slice()));

    let de_key = make_composite_key(p_prop_bytes().as_slice(), n, s_desc_bytes().as_slice());
    let de_val = format_u32(description_hash);
    entries.push(make_entry(de_key.as_slice(), de_val.as_slice()));

    proof {
        assert(views(entries@) =~= es1);
        lemma_record_entries_wf(data@);
        lemma_drop_wf(es0, k_proposal_count());
        lemma_propose_wf(data@, proposer@, description_hash, current_time);
    }
    match seal_record(&entries) {
        Ok(nd) => {
            proof {
                lemma_propose_ok(data@, proposer@, description_hash, current_time, nd@);
            }
            Ok((nd, proposal_id))
        },
        Err(e) => Err(e),
    }
}

/// The propose entry list is well formed.
proof fn lemma_propose_wf(data: Seq<u8>, account: Seq<u8>, dh: u32, now: u32)
    ensures
        crate::record::all_wf(propose_entries(data, account, dh, now)),
{
    let n = prop_count_of(data);
    let es0 = record_entries(data);
    let d1 = drop_key(es0, k_proposal_count());
    let t = propose_tail(data, account, dh, now);
    lemma_record_entries_wf(data);
    lemma_drop_wf(es0, k_proposal_count());
    lemma_propose_keys_clean(n);
    lemma_clean_digits((n + 1) as nat);
    lemma_clean_digits(proposal_id_hash(account, dh, now, n) as nat);
    lemma_clean_digits(((now + VOTING_DELAY) as u32) as nat);
    lemma_clean_digits(((((now + VOTING_DELAY) as u32) + VOTING_PERIOD) as u32) as nat);
    lemma_clean_digits(dh as nat);
    crate::members::lemma_hex_clean(account);
    assert(clean_value(seq![48u8]));
    lemma_entry_of(k_proposal_count(), dec_digits((n + 1) as nat));
    lemma_entry_of(prop_key(n, s_id()), dec_digits(proposal_id_hash(account, dh, now, n) as nat));
    lemma_entry_of(prop_key(n, s_proposer()), bytes_to_hex(account));
    lemma_entry_of(prop_key(n, s_state()), seq![48u8]);
    lemma_entry_of(prop_key(n, s_start()), dec_digits(((now + VOTING_DELAY) as u32) as nat));
    lemma_entry_of(
        prop_key(n, s_end()),
        dec_digits(((((now + VOTING_DELAY) as u32) + VOTING_PERIOD) as u32) as nat),
    );
    lemma_entry_of(prop_key(n, s_for()), seq![48u8]);
    lemma_entry_of(prop_key(n, s_against()), seq![48u8]);
    lemma_entry_of(prop_key(n, s_abstain()), seq![48u8]);
    lemma_entry_of(prop_key(n, s_desc()), dec_digits(dh as nat));
    assert forall|k: int|
        0 <= k < propose_entries(data, account, dh, now).len() implies crate::record::wf_entry(
        #[trigger] propose_entries(data, account, dh, now)[k],
    ) by {
        if k < d1.len() {
            assert(propose_entries(data, account, dh, now)[k] == d1[k]);
        } else {
            assert(propose_entries(data, account, dh, now)[k] == t[k - d1.len()]);
        }
    }
}

/// What the appended tail resolves `q` to, by key.
pub open spec fn propose_tail_map(
    data: Seq<u8>,
    account: Seq<u8>,
    dh: u32,
    now: u32,
    q: Seq<u8>,
) -> Option<Seq<u8>> {
    let n = prop_count_of(data);
    let id = proposal_id_hash(account, dh, now, n);
    let start = (now + VOTING_DELAY) as u32;
    let endt = (start + VOTING_PERIOD) as u32;
    if q == k_proposal_count() {
        Some(dec_digits((n + 1) as nat))
    } else if q == prop_key(n, s_id()) {
        Some(dec_digits(id as nat))
    } else if q == prop_key(n, s_proposer()) {
        Some(bytes_to_hex(account))
    } else if q == prop_key(n, s_state()) {
        Some(seq![48u8])
    } else if q == prop_key(n, s_start()) {
        Some(dec_digits(start as nat))
    } else if q == prop_key(n, s_end()) {
        Some(dec_digits(endt as nat))
    } else if q == prop_key(n, s_for()) {
        Some(seq![48u8])
    } else if q == prop_key(n, s_against()) {
        Some(seq![48u8])
    } else if q == prop_key(n, s_abstain()) {
        Some(seq![48u8])
    } else if q == prop_key(n, s_desc()) {
        Some(dec_digits(dh as nat))
    } else {
        None
    }
}

/// Every lookup on a sealed propose record: entries that survive from
/// the old record win; the appended tail answers for the new keys.
#[verifier::rlimit(60)]
proof fn lemma_propose_map(data: Seq<u8>, account: Seq<u8>, dh: u32, now: u32, nd: Seq<u8>)
    requires
        nd == joined(propose_entries(data, account, dh, now)),
    ensures
        forall|q: Seq<u8>| #[trigger]
            lookup(nd, q) == (if q != k_proposal_count() && lookup(data, q) is Some {
                lookup(data, q)
            } else {
                propose_tail_map(data, account, dh, now, q)
            }),
{
    let es0 = record_entries(data);
    let d1 = drop_key(es0, k_proposal_count());
    let t = propose_tail(data, account, dh, now);
    let es1 = propose_entries(data, account, dh, now);
    lemma_propose_wf(data, account, dh, now);
    lemma_entries_of_joined(es1);
    assert forall|q: Seq<u8>| #[trigger] lookup(nd, q) == (if q != k_proposal_count() && lookup(
        data,
        q,
    ) is Some {
        lookup(data, q)
    } else {
        propose_tail_map(data, account, dh, now, q)
    }) by {
        lemma_lookup_in_append(d1, t, q);
        lemma_lookup_drop(es0, k_proposal_count(), q);
        lemma_propose_tail_lookup(data, account, dh, now, q);
    }
}

/// Lookup and field facts about a sealed propose record.
#[verifier::rlimit(80)]
proof fn lemma_propose_ok(data: Seq<u8>, account: Seq<u8>, dh: u32, now: u32, nd: Seq<u8>)
    requires
        nd == joined(propose_entries(data, account, dh, now)),
        (prop_count_of(data) as int) < MAX_PROPOSALS as int,
    ensures
        ({
            let n = prop_count_of(data);
            let id = proposal_id_hash(account, dh, now, n);
            let start = (now + VOTING_DELAY) as u32;
            let endt = (start + VOTING_PERIOD) as u32;
            &&& prop_count_of(nd) == n + 1
            &&& (prop_slot_fresh(data, n) ==> prop_state_stored(nd, n) == PROPOSAL_STATE_PENDING
                && prop_start(nd, n) == start && prop_end(nd, n) == endt && prop_for(nd, n) == 0
                && prop_against(nd, n) == 0 && prop_abstain(nd, n) == 0 && lookup(
                nd,
                prop_key(n, s_id()),
            ) == Some(dec_digits(id as nat)) && lookup(nd, prop_key(n, s_proposer())) == Some(
                bytes_to_hex(account),
            ))
            &&& (forall|q: Seq<u8>|
                !propose_touches(data, q) ==> #[trigger] lookup(nd, q) == lookup(data, q))
        }),
{
    let n = prop_count_of(data);
    let id = proposal_id_hash(account, dh, now, n);
    let start = (now + VOTING_DELAY) as u32;
    let endt = (start + VOTING_PERIOD) as u32;
    lemma_propose_map(data, account, dh, now, nd);
    lemma_suffixes_distinct();
    lemma_prop_count_key_distinct(n, s_id());
    lemma_prop_count_key_distinct(n, s_proposer());
    lemma_prop_count_key_distinct(n, s_state());
    lemma_prop_count_key_distinct(n, s_start());
    lemma_prop_count_key_distinct(n, s_end());
    lemma_prop_count_key_distinct(n, s_for());
    lemma_prop_count_key_distinct(n, s_against());
    lemma_prop_count_key_distinct(n, s_abstain());
    lemma_prop_count_key_distinct(n, s_desc());
    lemma_key_suffix_distinct(p_prop(), n, s_id(), s_proposer());
    lemma_key_suffix_distinct(p_prop(), n, s_id(), s_state());
    lemma_key_suffix_distinct(p_prop(), n, s_id(), s_start());
    lemma_key_suffix_distinct(p_prop(), n, s_id(), s_end());
    lemma_key_suffix_distinct(p_prop(), n, s_id(), s_for());
    lemma_key_suffix_distinct(p_prop(), n, s_id(), s_against());
    lemma_key_suffix_distinct(p_prop(), n, s_id(), s_abstain());
    lemma_key_suffix_distinct(p_prop(), n, s_id(), s_desc());
    lemma_key_suffix_distinct(p_prop(), n, s_proposer(), s_state());
    lemma_key_suffix_distinct(p_prop(), n, s_proposer(), s_start());
    lemma_key_suffix_distinct(p_prop(), n, s_proposer(), s_end());
    lemma_key_suffix_distinct(p_prop(), n, s_proposer(), s_for());
    lemma_key_suffix_distinct(p_prop(), n, s_proposer(), s_against());
    lemma_key_suffix_distinct(p_prop(), n, s_proposer(), s_abstain());
    lemma_key_suffix_distinct(p_prop(), n, s_proposer(), s_desc());
    lemma_key_suffix_distinct(p_prop(), n, s_state(), s_start());
    lemma_key_suffix_distinct(p_prop(), n, s_state(), s_end());
    lemma_key_suffix_distinct(p_prop(), n, s_state(), s_for());
    lemma_key_suffix_distinct(p_prop(), n, s_state(), s_against());
    lemma_key_suffix_distinct(p_prop(), n, s_state(), s_abstain());
    lemma_key_suffix_distinct(p_prop(), n, s_state(), s_desc());
    lemma_key_suffix_distinct(p_prop(), n, s_start(), s_end());
    lemma_key_suffix_distinct(p_prop(), n, s_start(), s_for());
    lemma_key_suffix_distinct(p_prop(), n, s_start(), s_against());
    lemma_key_suffix_distinct(p_prop(), n, s_start(), s_abstain());
    lemma_key_suffix_distinct(p_prop(), n, s_start(), s_desc());
    lemma_key_suffix_distinct(p_prop(), n, s_end(), s_for());
    lemma_key_suffix_distinct(p_prop(), n, s_end(), s_against());
    lemma_key_suffix_distinct(p_prop(), n, s_end(), s_abstain());
    lemma_key_suffix_distinct(p_prop(), n, s_end(), s_desc());
    lemma_key_suffix_distinct(p_prop(), n, s_for(), s_against());
    lemma_key_suffix_distinct(p_prop(), n, s_for(), s_abstain());
    lemma_key_suffix_distinct(p_prop(), n, s_for(), s_desc());
    lemma_key_suffix_distinct(p_prop(), n, s_against(), s_abstain());
    lemma_key_suffix_distinct(p_prop(), n, s_against(), s_desc());
    lemma_key_suffix_distinct(p_prop(), n, s_abstain(), s_desc());
    assert(lookup(nd, k_proposal_count()) == Some(dec_digits((n + 1) as nat)));
    lemma_dec_digits_all_digits((n + 1) as nat);
    lemma_dec_digits_value((n + 1) as nat);
    assert(prop_count_of(nd) == n + 1);
    if prop_slot_fresh(data, n) {
        assert(lookup(nd, prop_key(n, s_state())) == Some(seq![48u8]));
        assert(crate::num::parse_digit_spec(seq![48u8]) == Some(0u8));
        assert(prop_state_stored(nd, n) == PROPOSAL_STATE_PENDING);
        assert(lookup(nd, prop_key(n, s_start())) == Some(dec_digits(start as nat)));
        lemma_dec_digits_all_digits(start as nat);
        lemma_dec_digits_value(start as nat);
        assert(prop_start(nd, n) == start);
        assert(lookup(nd, prop_key(n, s_end())) == Some(dec_digits(endt as nat)));
        lemma_dec_digits_all_digits(endt as nat);
        lemma_dec_digits_value(endt as nat);
        assert(prop_end(nd, n) == endt);
        assert(dec_digits(0) =~= seq![48u8]);
        lemma_dec_digits_value(0);
        lemma_dec_digits_all_digits(0);
        assert(crate::num::parse_u64_spec(seq![48u8]) == Some(0u64));
        assert(lookup(nd, prop_key(n, s_for())) == Some(seq![48u8]));
        assert(prop_for(nd, n) == 0);
        assert(lookup(nd, prop_key(n, s_against())) == Some(seq![48u8]));
        assert(prop_against(nd, n) == 0);
        assert(lookup(nd, prop_key(n, s_abstain())) == Some(seq![48u8]));
        assert(prop_abstain(nd, n) == 0);
        assert(lookup(nd, prop_key(n, s_id())) == Some(dec_digits(id as nat)));
        assert(lookup(nd, prop_key(n, s_proposer())) == Some(bytes_to_hex(account)));
    }
    assert forall|q: Seq<u8>| !propose_touches(data, q) implies #[trigger] lookup(nd, q) == lookup(
        data,
        q,
    ) by {
        assert(lookup(nd, q) == (if q != k_proposal_count() && lookup(data, q) is Some {
            lookup(data, q)
        } else {
            propose_tail_map(data, account, dh, now, q)
        }));
    }
}

/// First proposal slot at or after `i` whose stored id text is the
/// decimal encoding of `id`.
pub open spec fn find_prop_from(data: Seq<u8>, id: u32, i: u8) -> Option<u8>
    decreases prop_count_of(data) - i,
{
    if i >= prop_count_of(data) {
        None
    } else if lookup(data, prop_key(i, s_id())) == Some(dec_digits(id as nat)) {
        Some(i)
    } else {
        find_prop_from(data, id, (i + 1) as u8)
    }
}

/// The proposal slot holding `id`, if any.
pub open spec fn find_prop_spec(data: Seq<u8>, id: u32) -> Option<u8> {
    find_prop_from(data, id, 0)
}

/// Find a proposal index by its id, scanning slots in order.
pub fn find_proposal_by_id(data: &[u8], proposal_id: u32) -> (r: Result<u8, i32>)
    ensures
        r is Ok <==> find_prop_spec(data@, proposal_id) is Some,
        r is Ok ==> r->Ok_0 == find_prop_spec(data@, proposal_id)->0,
        r is Err ==> r->Err_0 == ERR_PROPOSAL_NOT_FOUND,
{
    let ck = k_proposal_count_bytes();
    let prop_count = read_count(data, ck.as_slice());
    let id_val = format_u32(proposal_id);
    let mut i: u8 = 0;
    while i < prop_count
        invariant
            prop_count == prop_count_of(data@),
            0 <= i <= prop_count,
            id_val@ == dec_digits(proposal_id as nat),
            find_prop_spec(data@, proposal_id) == find_prop_from(data@, proposal_id, i),
        decreases prop_count - i,
    {
        let key = make_composite_key(p_prop_bytes().as_slice(), i, s_id_bytes().as_slice());
        match find_value(data, key.as_slice()) {
            Some(stored) => {
                if stored.len() == id_val.len() && range_eq(stored, 0, stored.len(), id_val.as_slice()) {
                    proof {
                        assert(stored@.subrange(0, stored@.len() as int) =~= stored@);
                    }
                    return Ok(i);
                }
                proof {
                    assert(stored@.subrange(0, stored@.len() as int) =~= stored@);
                    assert(lookup(data@, prop_key(i, s_id())) != Some(dec_digits(proposal_id as nat)));
                }
            },
            None => {
                proof {
                    assert(lookup(data@, prop_key(i, s_id())) != Some(dec_digits(proposal_id as nat)));
                }
            },
        }
        i = i + 1;
    }
    Err(ERR_PROPOSAL_NOT_FOUND)
}

/// Rewrite one field of a proposal.  Fails with `ERR_PROPOSAL_NOT_FOUND`
/// when the field is absent, and fails closed on capacity.
pub fn update_proposal_field(data: &[u8], proposal_index: u8, field_suffix: &[u8], new_value: &[u8]) -> (r: Result<Vec<u8>, i32>)
    requires
        clean_key(field_suffix@),
        clean_value(new_value@),
    ensures
        ({
            let key = prop_key(proposal_index, field_suffix@);
            let es0 = record_entries(data@);
            let es1 = rewrite_all(es0, key, new_value@);
            &&& (r is Ok <==> has_key(es0, key) && joined(es1).len() <= MAX_RECORD_SIZE)
            &&& r is Ok ==> r->Ok_0@ == joined(es1) && lookup(r->Ok_0@, key) == Some(new_value@)
                && (forall|q: Seq<u8>|
                q != key ==> #[trigger] lookup(r->Ok_0@, q) == lookup(data@, q))
            &&& (!has_key(es0, key) ==> r == Err::<Vec<u8>, i32>(ERR_PROPOSAL_NOT_FOUND))
            &&& (has_key(es0, key) && joined(es1).len() > MAX_RECORD_SIZE ==> r == Err::<
                Vec<u8>,
                i32,
            >(ERR_BAD_CONFIG))
        }),
{
    let key = make_composite_key(p_prop_bytes().as_slice(), proposal_index, field_suffix);
    proof {
        lemma_composite_key_clean(p_prop(), proposal_index, field_suffix@);
    }
    crate::record::update_record(data, key.as_slice(), new_value, ERR_PROPOSAL_NOT_FOUND)
}

/// Contract of [`cancel_proposal`]: only the stored proposer may cancel,
/// only while the derived state is still pending; on success exactly the
/// stored state changes to canceled.
pub open spec fn cancel_post(
    data: Seq<u8>,
    i: u8,
    caller: Seq<u8>,
    now: u32,
    total: u64,
    r: Result<Vec<u8>, i32>,
) -> bool {
    let stored = lookup(data, prop_key(i, s_proposer()));
    let hex = bytes_to_hex(caller);
    let st = proposal_state_spec(data, i, now, total);
    let skey = prop_key(i, s_state());
    let es0 = record_entries(data);
    let es1 = rewrite_all(es0, skey, seq![50u8]);
    &&& (stored is None ==> r == Err::<Vec<u8>, i32>(ERR_PROPOSAL_NOT_FOUND))
    &&& (stored is Some && stored->0 != hex ==> r == Err::<Vec<u8>, i32>(ERR_NOT_PROPOSER))
    &&& (stored == Some(hex) && st != PROPOSAL_STATE_PENDING ==> r == Err::<Vec<u8>, i32>(
        ERR_PROPOSAL_NOT_ACTIVE,
    ))
    &&& (stored == Some(hex) && st == PROPOSAL_STATE_PENDING ==> {
        &&& (r is Ok <==> has_key(es0, skey) && joined(es1).len() <= MAX_RECORD_SIZE)
        &&& (r is Ok ==> r->Ok_0@ == joined(es1) && prop_state_stored(r->Ok_0@, i)
            == PROPOSAL_STATE_CANCELED && (forall|q: Seq<u8>|
            q != skey ==> #[trigger] lookup(r->Ok_0@, q) == lookup(data, q)))
        &&& (!has_key(es0, skey) ==> r == Err::<Vec<u8>, i32>(ERR_PROPOSAL_NOT_FOUND))
    })
}

/// Cancel a proposal: allowed only for its proposer and only while the
/// derived state is still pending; sets the stored state to canceled.
pub fn cancel_proposal(data: &[u8], proposal_index: u8, caller: &[u8; 20], current_time: u32, total_voting_power: u64) -> (r: Result<Vec<u8>, i32>)
    ensures
        cancel_post(data@, proposal_index, caller@, current_time, total_voting_power, r),
{
    let pkey = make_composite_key(p_prop_bytes().as_slice(), proposal_index, s_proposer_bytes().as_slice());
    let stored_proposer = match find_value(data, pkey.as_slice()) {
        Some(v) => v,
        None => {
            return Err(ERR_PROPOSAL_NOT_FOUND);
        },
    };
    let caller_hex = to_hex(caller.as_slice());
    if !(stored_proposer.len() == caller_hex.len() && range_eq(
        stored_proposer,
        0,
        stored_proposer.len(),
        caller_hex.as_slice(),
    )) {
        proof {
            assert(stored_proposer@.subrange(0, stored_proposer@.len() as int) =~= stored_proposer@);
        }
        return Err(ERR_NOT_PROPOSER);
    }
    proof {
        assert(stored_proposer@.subrange(0, stored_proposer@.len() as int) =~= stored_proposer@);
    }
    let state = get_proposal_state(data, proposal_index, current_time, total_voting_power);
    if state != PROPOSAL_STATE_PENDING {
        return Err(ERR_PROPOSAL_NOT_ACTIVE);
    }
    let two: Vec<u8> = vec![50];
    proof {
        assert(two@ =~= seq![50u8]);
        assert(clean_value(seq![50u8]));
    }
    let r = update_proposal_field(data, proposal_index, s_state_bytes().as_slice(), two.as_slice());
    proof {
        if r is Ok {
            assert(lookup(r->Ok_0@, prop_key(proposal_index, s_state())) == Some(seq![50u8]));
            assert(crate::num::parse_digit_spec(seq![50u8]) == Some(2u8));
        }
    }
    r
}

} // verus!
