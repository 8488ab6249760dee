//! Voting-power delegation and point-in-time snapshots.
//!
//! A delegation entry `delegate_<voter-hex>=<delegate-hex>` redirects a
//! member's power; absence means self-delegation, and delegation is
//! single-level by design: a delegate's own delegation is not followed.
//! Snapshots `snap_<id>_<account-hex>=<power>` are append-only copies of
//! effective power that later delegation changes never alter.

use vstd::prelude::*;
use crate::config::{ERR_BAD_CONFIG, MAX_RECORD_SIZE};
use crate::hex::{bytes_to_hex, decode_hex, hex_to_bytes, lemma_hex_round_trip, to_hex, valid_hex};
use crate::keys::{lemma_clean_concat, lemma_clean_digits, p_delegate, p_delegate_bytes, p_snap, p_snap_bytes};
use crate::members::{find_member, lemma_hex_clean, member_count_of, member_value, sat_add, votes_of};
use crate::num::{dec_digits, format_u32, format_u64, lemma_dec_digits_all_digits,
    lemma_dec_digits_value};
use crate::record::{clean_key, drop_entries, drop_key, entry_of, field_u64, find_value, joined, lemma_drop_wf, lemma_entries_of_joined, lemma_lookup_drop, lemma_record_entries_wf, lookup, range_eq, read_count, record_entries, seal_record, split_record, upsert, upsert_record, views};

verus! {

/// The delegation key for a voter's hex encoding.
pub open spec fn delegate_key(hex: Seq<u8>) -> Seq<u8> {
    p_delegate() + hex
}

/// The snapshot key for a proposal id and an account's hex encoding.
pub open spec fn snap_key(id: u32, hex: Seq<u8>) -> Seq<u8> {
    p_snap() + dec_digits(id as nat) + seq![95u8] + hex
}

/// Where a voter's power goes: the stored delegate when its entry holds
/// a well-formed 40-character hex account, the voter itself otherwise.
pub open spec fn delegate_of(data: Seq<u8>, voter: Seq<u8>) -> Seq<u8> {
    match lookup(data, delegate_key(bytes_to_hex(voter))) {
        Some(v) => if v.len() == 40 && valid_hex(v) {
            hex_to_bytes(v)
        } else {
            voter
        },
        None => voter,
    }
}

/// Contribution of member slot `i` to the effective power of `account`:
/// its parsed power when it is a different, decodable account whose
/// delegation resolves to `account`; zero otherwise.
pub open spec fn member_share(data: Seq<u8>, account: Seq<u8>, i: u8) -> u64 {
    match member_value(data, i) {
        Some(v) => if v.len() >= 40 && v.take(40) != bytes_to_hex(account) && v.take(40).len() == 40
            && valid_hex(v.take(40)) {
            let mid = hex_to_bytes(v.take(40));
            if delegate_of(data, mid) == account {
                votes_of(data, mid)
            } else {
                0
            }
        } else {
            0
        },
        None => 0,
    }
}

/// Saturating sum of the delegated contributions of member slots below
/// `i`.
pub open spec fn delegated_upto(data: Seq<u8>, account: Seq<u8>, i: u8) -> u64
    decreases i,
{
    if i == 0 {
        0
    } else {
        sat_add(
            delegated_upto(data, account, (i - 1) as u8),
            member_share(data, account, (i - 1) as u8),
        )
    }
}

/// Effective voting power: the account's own power when self-delegated,
/// plus every other member's power whose delegation resolves to it,
/// saturating.  Single-level only.
pub open spec fn effective_votes_of(data: Seq<u8>, account: Seq<u8>) -> u64 {
    sat_add(
        if delegate_of(data, account) == account {
            votes_of(data, account)
        } else {
            0
        },
        delegated_upto(data, account, member_count_of(data)),
    )
}

/// Stored snapshot of an account's power for a proposal; zero if none.
pub open spec fn snap_votes_of(data: Seq<u8>, id: u32, account: Seq<u8>) -> u64 {
    field_u64(data, snap_key(id, bytes_to_hex(account)))
}

/// Build the delegation key for a voter hex.
fn make_delegate_key(hex: &Vec<u8>) -> (r: Vec<u8>)
    ensures
        r@ == delegate_key(hex@),
{
    let mut k = p_delegate_bytes();
    k.extend_from_slice(hex.as_slice());
    proof {
        assert(k@ =~= delegate_key(hex@));
    }
    k
}

/// Build the snapshot key for a proposal id and account hex.
fn make_snap_key(id: u32, hex: &Vec<u8>) -> (r: Vec<u8>)
    ensures
        r@ == snap_key(id, hex@),
{
    let mut k = p_snap_bytes();
    let d = format_u32(id);
    k.extend_from_slice(d.as_slice());
    k.push(95);
    k.extend_from_slice(hex.as_slice());
    proof {
        assert(k@ =~= snap_key(id, hex@));
    }
    k
}

/// The delegate an account's power currently resolves to; the account
/// itself when no well-formed delegation entry exists.
pub fn get_delegate(data: &[u8], voter: &[u8; 20]) -> (r: Vec<u8>)
    ensures
        r@ == delegate_of(data@, voter@),
        r@.len() == 20,
{
    let hex = to_hex(voter.as_slice());
    let key = make_delegate_key(&hex);
    match find_value(data, key.as_slice()) {
        Some(v) => {
            if v.len() == 40 {
                let mut out: Vec<u8> = vec![0; 20];
                if decode_hex(v, &mut out) {
                    proof {
                        assert(out@ =~= hex_to_bytes(v@));
                    }
                    return out;
                }
            }
            proof {
                assert(!(v@.len() == 40 && valid_hex(v@)));
            }
            vstd::slice::slice_to_vec(voter.as_slice())
        },
        None => vstd::slice::slice_to_vec(voter.as_slice()),
    }
}

/// Effective voting power of an account: its own power when
/// self-delegated plus all power delegated to it, saturating.
pub fn get_effective_votes(data: &[u8], account: &[u8]) -> (r: u64)
    requires
        account@.len() == 20,
    ensures
        r == effective_votes_of(data@, account@),
{
    let account_hex = to_hex(account);
    let dkey = make_delegate_key(&account_hex);
    let self_delegated: bool = match find_value(data, dkey.as_slice()) {
        Some(v) => {
            if v.len() == 40 {
                let mut out: Vec<u8> = vec![0; 20];
                if decode_hex(v, &mut out) {
                    proof {
                        assert(out@ =~= hex_to_bytes(v@));
                    }
                    let same = range_eq(out.as_slice(), 0, out.len(), account);
                    proof {
                        assert(out@.subrange(0, out@.len() as int) =~= out@);
                    }
                    same
                } else {
                    proof {
                        assert(!(v@.len() == 40 && valid_hex(v@)));
                    }
                    true
                }
            } else {
                true
            }
        },
        None => true,
    };
    let mut total: u64 = 0;
    if self_delegated {
        total = match find_member(data, &account_hex) {
            Some(m) => m.1,
            None => 0,
        };
    }
    let ghost self_part: u64 = if delegate_of(data@, account@) == account@ {
        votes_of(data@, account@)
    } else {
        0
    };
    proof {
        assert(total == self_part);
    }
    let count = read_count(data, crate::keys::k_member_count_bytes().as_slice());
    let mut i: u8 = 0;
    while i < count
        invariant
            count == member_count_of(data@),
            0 <= i <= count,
            account_hex@ == bytes_to_hex(account@),
            account@.len() == 20,
            self_part == (if delegate_of(data@, account@) == account@ {
                votes_of(data@, account@)
            } else {
                0
            }),
            total == sat_add(self_part, delegated_upto(data@, account@, i)),
        decreases count - i,
    {
        let key = crate::keys::make_indexed_key(crate::keys::p_member_bytes().as_slice(), i);
        let share: u64 = match find_value(data, key.as_slice()) {
            Some(v) => {
                if v.len() >= 40 {
                    let same_hex = range_eq(v, 0, 40, account_hex.as_slice());
                    proof {
                        assert(v@.subrange(0, 40) =~= v@.take(40));
                    }
                    if same_hex {
                        0
                    } else {
                        let hexpart = vstd::slice::slice_subrange(v, 0, 40);
                        let mut mid: Vec<u8> = vec![0; 20];
                        if decode_hex(hexpart, &mut mid) {
                            proof {
                                assert(mid@ =~= hex_to_bytes(v@.take(40)));
                            }
                            let d = get_delegate_slice(data, &mid);
                            let to_account = range_eq(d.as_slice(), 0, d.len(), account);
                            proof {
                                assert(d@.subrange(0, d@.len() as int) =~= d@);
                            }
                            if to_account {
                                let mhex = to_hex(mid.as_slice());
                                match find_member(data, &mhex) {
                                    Some(m) => m.1,
                                    None => 0,
                                }
                            } else {
                                0
                            }
                        } else {
                            proof {
                                assert(!valid_hex(v@.take(40)));
                            }
                            0
                        }
                    }
                } else {
                    0
                }
            },
            None => 0,
        };
        proof {
            assert(share == member_share(data@, account@, i));
        }
        total = total.saturating_add(share);
        i = i + 1;
    }
    total
}

/// [`get_delegate`] over a vector-held account.
fn get_delegate_slice(data: &[u8], voter: &Vec<u8>) -> (r: Vec<u8>)
    requires
        voter@.len() == 20,
    ensures
        r@ == delegate_of(data@, voter@),
        r@.len() == 20,
{
    let hex = to_hex(voter.as_slice());
    let key = make_delegate_key(&hex);
    match find_value(data, key.as_slice()) {
        Some(v) => {
            if v.len() == 40 {
                let mut out: Vec<u8> = vec![0; 20];
                if decode_hex(v, &mut out) {
                    proof {
                        assert(out@ =~= hex_to_bytes(v@));
                    }
                    return out;
                }
            }
            proof {
                assert(!(v@.len() == 40 && valid_hex(v@)));
            }
            vstd::slice::slice_to_vec(voter.as_slice())
        },
        None => vstd::slice::slice_to_vec(voter.as_slice()),
    }
}

/// Contract of [`delegate`]: explicit self-delegation removes the
/// voter's delegation entry; anything else stores the delegate's hex
/// under the voter's key.  Every other key is untouched.
pub open spec fn delegate_post(
    data: Seq<u8>,
    voter: Seq<u8>,
    target: Seq<u8>,
    r: Result<Vec<u8>, i32>,
) -> bool {
    let dk = delegate_key(bytes_to_hex(voter));
    let es0 = record_entries(data);
    let es1 = if voter == target {
        drop_key(es0, dk)
    } else {
        upsert(es0, dk, bytes_to_hex(target))
    };
    &&& (r is Ok <==> joined(es1).len() <= MAX_RECORD_SIZE)
    &&& (r is Err ==> r->Err_0 == ERR_BAD_CONFIG)
    &&& (r is Ok ==> ({
        let nd = r->Ok_0@;
        &&& nd == joined(es1)
        &&& (voter == target ==> lookup(nd, dk) is None)
        &&& (voter != target ==> lookup(nd, dk) == Some(bytes_to_hex(target)))
        &&& (target.len() == 20 ==> delegate_of(nd, voter) == target)
        &&& (forall|q: Seq<u8>| q != dk ==> #[trigger] lookup(nd, q) == lookup(data, q))
    }))
}

/// Delegate the voter's power.  Self-delegation removes any stored
/// delegation; otherwise the delegation entry is stored or replaced.
pub fn delegate(data: &[u8], voter: &[u8; 20], delegate_to: &[u8; 20]) -> (r: Result<Vec<u8>, i32>)
    ensures
        delegate_post(data@, voter@, delegate_to@, r),
{
    let voter_hex = to_hex(voter.as_slice());
    let dkey = make_delegate_key(&voter_hex);
    let is_self = range_eq(voter.as_slice(), 0, voter.len(), delegate_to.as_slice());
    proof {
        assert(voter@.subrange(0, voter@.len() as int) =~= voter@);
        lemma_hex_clean(voter@);
        assert(clean_key(delegate_key(bytes_to_hex(voter@)))) by {
            lemma_clean_concat(p_delegate(), bytes_to_hex(voter@));
        }
    }
    if is_self {
        let ghost es0 = record_entries(data@);
        let ghost dk = delegate_key(bytes_to_hex(voter@));
        let entries0 = split_record(data);
        let entries = drop_entries(&entries0, dkey.as_slice());
        proof {
            lemma_record_entries_wf(data@);
            lemma_drop_wf(es0, dk);
        }
        match seal_record(&entries) {
            Ok(nd) => {
                proof {
                    lemma_entries_of_joined(drop_key(es0, dk));
                    assert forall|q: Seq<u8>| true implies #[trigger] lookup(nd@, q) == (if q == dk {
                        None
                    } else {
                        lookup(data@, q)
                    }) by {
                        lemma_lookup_drop(es0, dk, q);
                    }
                }
                Ok(nd)
            },
            Err(e) => Err(e),
        }
    } else {
        let target_hex = to_hex(delegate_to.as_slice());
        proof {
            lemma_hex_clean(delegate_to@);
        }
        let r = upsert_record(data, dkey.as_slice(), target_hex.as_slice());
        proof {
            if r is Ok {
                lemma_hex_round_trip(delegate_to@);
            }
        }
        r
    }
}

/// Law: a delegation change never touches any snapshot entry.
pub proof fn lemma_delegate_preserves_snapshots(
    data: Seq<u8>,
    voter: Seq<u8>,
    target: Seq<u8>,
    nd: Vec<u8>,
    id: u32,
    account: Seq<u8>,
)
    requires
        delegate_post(data, voter, target, Ok(nd)),
    ensures
        lookup(nd@, snap_key(id, bytes_to_hex(account))) == lookup(
            data,
            snap_key(id, bytes_to_hex(account)),
        ),
{
    let dk = delegate_key(bytes_to_hex(voter));
    let sk = snap_key(id, bytes_to_hex(account));
    assert(sk != dk) by {
        if sk == dk {
            assert(sk[0] == p_snap()[0]);
            assert(dk[0] == p_delegate()[0]);
        }
    }
}

/// Contract of [`snapshot_voting_power`]: one snapshot entry is
/// appended; an existing snapshot under the same key keeps priority, so
/// a snapshot, once readable, never changes.
pub open spec fn snapshot_post(
    data: Seq<u8>,
    id: u32,
    account: Seq<u8>,
    r: Result<Vec<u8>, i32>,
) -> bool {
    let sk = snap_key(id, bytes_to_hex(account));
    let power = effective_votes_of(data, account);
    let es1 = record_entries(data).push(entry_of(sk, dec_digits(power as nat)));
    &&& (r is Ok <==> joined(es1).len() <= MAX_RECORD_SIZE)
    &&& (r is Err ==> r->Err_0 == ERR_BAD_CONFIG)
    &&& (r is Ok ==> ({
        let nd = r->Ok_0@;
        &&& nd == joined(es1)
        &&& (lookup(data, sk) is None ==> lookup(nd, sk) == Some(dec_digits(power as nat))
            && snap_votes_of(nd, id, account) == power)
        &&& (lookup(data, sk) is Some ==> lookup(nd, sk) == lookup(data, sk))
        &&& (forall|q: Seq<u8>| q != sk ==> #[trigger] lookup(nd, q) == lookup(data, q))
    }))
}

/// Record the account's current effective power as the immutable
/// snapshot for a proposal.  An already-present snapshot stays in
/// force.
pub fn snapshot_voting_power(data: &[u8], proposal_id: u32, account: &[u8; 20]) -> (r: Result<
    Vec<u8>,
    i32,
>)
    ensures
        snapshot_post(data@, proposal_id, account@, r),
{
    let power = get_effective_votes(data, account.as_slice());
    let hex = to_hex(account.as_slice());
    let skey = make_snap_key(proposal_id, &hex);
    let val = format_u64(power);
    let ghost es0 = record_entries(data@);
    let ghost sk = snap_key(proposal_id, bytes_to_hex(account@));
    let ghost e = entry_of(sk, dec_digits(power as nat));
    let mut entries = split_record(data);
    entries.push(crate::record::make_entry(skey.as_slice(), val.as_slice()));
    proof {
        assert(views(entries@) =~= es0.push(e));
        lemma_record_entries_wf(data@);
        lemma_hex_clean(account@);
        lemma_clean_digits(proposal_id as nat);
        lemma_dec_digits_all_digits(proposal_id as nat);
        assert(clean_key(sk)) by {
            let k = sk;
            assert forall|j: int| 0 <= j < k.len() implies #[trigger] k[j] != 59 && k[j] != 61 by {
                let a = p_snap().len() as int;
                let b = a + dec_digits(proposal_id as nat).len();
                if j < a {
                    assert(k[j] == p_snap()[j]);
                } else if j < b {
                    assert(k[j] == dec_digits(proposal_id as nat)[j - a]);
                    assert(crate::num::is_digit(dec_digits(proposal_id as nat)[j - a]));
                } else if j == b {
                    assert(k[j] == 95u8);
                } else {
                    assert(k[j] == bytes_to_hex(account@)[j - b - 1]);
                }
            }
        }
        lemma_clean_digits(power as nat);
        crate::record::lemma_entry_of(sk, dec_digits(power as nat));
        crate::record::lemma_push_wf(es0, e);
    }
    match seal_record(&entries) {
        Ok(nd) => {
            proof {
                lemma_entries_of_joined(es0.push(e));
                assert(es0.push(e) =~= es0 + seq![e]);
                assert forall|q: Seq<u8>| true implies #[trigger] lookup(nd@, q) == (if lookup(
                    data@,
                    q,
                ) is Some {
                    lookup(data@, q)
                } else if q == sk {
                    Some(dec_digits(power as nat))
                } else {
                    None
                }) by {
                    crate::record::lemma_lookup_in_append(es0, seq![e], q);
                    if q == sk {
                        crate::record::lemma_lookup_in_at(seq![e], q, 0);
                    } else {
                        crate::record::lemma_lookup_in_none(seq![e], q);
                    }
                }
                if lookup(data@, sk) is None {
                    lemma_dec_digits_all_digits(power as nat);
                    lemma_dec_digits_value(power as nat);
                }
            }
            Ok(nd)
        },
        Err(e2) => Err(e2),
    }
}

/// The stored snapshot of an account's power for a proposal; zero when
/// none was taken.
pub fn get_snapshot_votes(data: &[u8], proposal_id: u32, account: &[u8; 20]) -> (r: u64)
    ensures
        r == snap_votes_of(data@, proposal_id, account@),
{
    let hex = to_hex(account.as_slice());
    let skey = make_snap_key(proposal_id, &hex);
    crate::record::read_u64_field(data, skey.as_slice())
}

} // verus!
