//! Vote-by-signature framework: the signed message binds the domain,
//! the proposal, the support value, and the voter, and a signed intent
//! can be recorded in the ledger until the host can verify signatures.
//!
//! Replay is already prevented by the vote records themselves.

use vstd::prelude::*;
use crate::config::{ERR_BAD_CONFIG, ERR_INVALID_VOTE, MAX_RECORD_SIZE};
use crate::hash::{avalanche, fnv_mix, FNV_OFFSET_BASIS};
use crate::hex::{bytes_to_hex, to_hex};
use crate::keys::{lemma_clean_digits, p_sigvote, p_sigvote_bytes};
use crate::members::{lemma_hex_clean, COLON_BYTE};
use crate::num::{dec_digits, format_u32, lemma_dec_digits_all_digits};
use crate::record::{
    clean_key, clean_value, entry_of, joined, lookup, record_entries, seal_record, split_record,
    views,
};

verus! {

/// Size in bytes of a secp256k1 signature (r, s, and the recovery byte).
pub const SIGNATURE_SIZE: usize = 65;

/// The message domain prefix, the text `xrpl-dao:vote:`.
pub open spec fn msg_prefix() -> Seq<u8> {
    seq![120u8, 114, 112, 108, 45, 100, 97, 111, 58, 118, 111, 116, 101, 58]
}

/// The signed vote message: domain, proposal id, support, and voter hex,
/// colon-separated.
pub open spec fn vote_message_of(proposal_id: u32, support: u8, voter: Seq<u8>) -> Seq<u8> {
    msg_prefix() + dec_digits(proposal_id as nat) + seq![COLON_BYTE] + seq![(48 + support) as u8]
        + seq![COLON_BYTE] + bytes_to_hex(voter)
}

/// Hash of a byte message: FNV-1a absorption with the avalanche
/// finalizer, truncated to 32 bits.
pub open spec fn vote_message_hash(s: Seq<u8>) -> u32 {
    (avalanche(fnv_mix(FNV_OFFSET_BASIS, s)) & 0xffff_ffff) as u32
}

/// A well-formed vote-by-signature request: a valid support value, a
/// nonzero proposal id, and a nonzero voter account.
pub open spec fn valid_vote_message(proposal_id: u32, support: u8, voter: Seq<u8>) -> bool {
    support <= 2 && proposal_id != 0 && exists|i: int| 0 <= i < voter.len() && voter[i] != 0
}

/// The key of a recorded signature-vote intent.
pub open spec fn sigvote_key(proposal_id: u32, hex: Seq<u8>) -> Seq<u8> {
    p_sigvote() + dec_digits(proposal_id as nat) + seq![95u8] + hex
}

/// Build the message a voter signs: `xrpl-dao:vote:<id>:<support>:<hex>`.
pub fn build_vote_message(proposal_id: u32, support: u8, voter: &[u8; 20]) -> (r: Vec<u8>)
    requires
        support <= 9,
    ensures
        r@ == vote_message_of(proposal_id, support, voter@),
{
    let mut m: Vec<u8> = vec![120, 114, 112, 108, 45, 100, 97, 111, 58, 118, 111, 116, 101, 58];
    proof {
        assert(m@ =~= msg_prefix());
    }
    let d = format_u32(proposal_id);
    m.extend_from_slice(d.as_slice());
    m.push(COLON_BYTE);
    m.push(48 + support);
    m.push(COLON_BYTE);
    let hex = to_hex(voter.as_slice());
    m.extend_from_slice(hex.as_slice());
    proof {
        assert(m@ =~= vote_message_of(proposal_id, support, voter@));
    }
    m
}

/// Hash the first `message_len` bytes of a vote message.
pub fn hash_vote_message(message: &[u8], message_len: usize) -> (r: u32)
    requires
        message_len <= message@.len(),
    ensures
        r == vote_message_hash(message@.take(message_len as int)),
{
    let h = crate::hash::finalize(
        crate::hash::mix_bytes(
            FNV_OFFSET_BASIS,
            vstd::slice::slice_subrange(message, 0, message_len),
        ),
    );
    proof {
        assert(message@.subrange(0, message_len as int) =~= message@.take(message_len as int));
    }
    (h & 0xffff_ffff) as u32
}

/// Validate a vote-by-signature request: the support value, the
/// proposal id, and the voter account must all be meaningful.
pub fn validate_vote_message(proposal_id: u32, support: u8, voter: &[u8; 20]) -> (r: bool)
    ensures
        r == valid_vote_message(proposal_id, support, voter@),
{
    if support > 2 {
        return false;
    }
    if proposal_id == 0 {
        return false;
    }
    let mut i: usize = 0;
    while i < 20
        invariant
            support <= 2,
            proposal_id != 0,
            0 <= i <= 20,
            voter@.len() == 20,
            forall|j: int| 0 <= j < i ==> voter@[j] == 0,
        decreases 20 - i,
    {
        if voter[i] != 0 {
            proof {
                assert(voter@[i as int] != 0);
            }
            return true;
        }
        i = i + 1;
    }
    false
}

/// Contract of [`record_sig_vote_intent`]: an invalid request is
/// refused; otherwise one intent entry is appended, leaving everything
/// else untouched.
pub open spec fn sig_vote_post(
    data: Seq<u8>,
    proposal_id: u32,
    support: u8,
    voter: Seq<u8>,
    r: Result<Vec<u8>, i32>,
) -> bool {
    let sk = sigvote_key(proposal_id, bytes_to_hex(voter));
    let es1 = record_entries(data).push(entry_of(sk, seq![(48 + support) as u8]));
    &&& (!valid_vote_message(proposal_id, support, voter) <==> r == Err::<Vec<u8>, i32>(
        ERR_INVALID_VOTE,
    ))
    &&& (r is Ok <==> valid_vote_message(proposal_id, support, voter) && joined(es1).len()
        <= MAX_RECORD_SIZE)
    &&& (r is Ok ==> ({
        let nd = r->Ok_0@;
        &&& nd == joined(es1)
        &&& (lookup(data, sk) is None ==> lookup(nd, sk) == Some(seq![(48 + support) as u8]))
        &&& (forall|q: Seq<u8>| q != sk ==> #[trigger] lookup(nd, q) == lookup(data, q))
    }))
    &&& (r is Err ==> r->Err_0 == ERR_INVALID_VOTE || r->Err_0 == ERR_BAD_CONFIG)
}

/// Record a signature-based vote intent as
/// `sigvote_<id>_<voter-hex>=<support>`, to be processed once the host
/// exposes signature verification.
pub fn record_sig_vote_intent(data: &[u8], proposal_id: u32, support: u8, voter: &[u8; 20]) -> (r:
    Result<Vec<u8>, i32>)
    ensures
        sig_vote_post(data@, proposal_id, support, voter@, r),
{
    if !validate_vote_message(proposal_id, support, voter) {
        return Err(ERR_INVALID_VOTE);
    }
    let hex = to_hex(voter.as_slice());
    let mut key = p_sigvote_bytes();
    let d = format_u32(proposal_id);
    key.extend_from_slice(d.as_slice());
    key.push(95);
    key.extend_from_slice(hex.as_slice());
    let ghost sk = sigvote_key(proposal_id, bytes_to_hex(voter@));
    proof {
        assert(key@ =~= sk);
    }
    let val: Vec<u8> = vec![48 + support];
    proof {
        assert(val@ =~= seq![(48 + support) as u8]);
    }
    let ghost es0 = record_entries(data@);
    let ghost e = entry_of(sk, seq![(48 + support) as u8]);
    let mut entries = split_record(data);
    entries.push(crate::record::make_entry(key.as_slice(), val.as_slice()));
    proof {
        assert(views(entries@) =~= es0.push(e));
        crate::record::lemma_record_entries_wf(data@);
        lemma_hex_clean(voter@);
        lemma_clean_digits(proposal_id as nat);
        lemma_dec_digits_all_digits(proposal_id as nat);
        assert(clean_key(sk)) by {
            assert forall|j: int| 0 <= j < sk.len() implies #[trigger] sk[j] != 59 && sk[j]
                != 61 by {
                let a = p_sigvote().len() as int;
                let b = a + dec_digits(proposal_id as nat).len();
                if j < a {
                    assert(sk[j] == p_sigvote()[j]);
                } else if j < b {
                    assert(sk[j] == dec_digits(proposal_id as nat)[j - a]);
                    assert(crate::num::is_digit(dec_digits(proposal_id as nat)[j - a]));
                } else if j == b {
                    assert(sk[j] == 95u8);
                } else {
                    assert(sk[j] == bytes_to_hex(voter@)[j - b - 1]);
                }
            }
        }
        assert(clean_value(seq![(48 + support) as u8]));
        crate::record::lemma_entry_of(sk, seq![(48 + support) as u8]);
        crate::record::lemma_push_wf(es0, e);
    }
    match seal_record(&entries) {
        Ok(nd) => {
            proof {
                crate::record::lemma_entries_of_joined(es0.push(e));
                assert(es0.push(e) =~= es0 + seq![e]);
                assert forall|q: Seq<u8>| true implies #[trigger] lookup(nd@, q) == (if lookup(
                    data@,
                    q,
                ) is Some {
                    lookup(data@, q)
                } else if q == sk {
                    Some(seq![(48 + support) as u8])
                } else {
                    None
                }) by {
                    crate::record::lemma_lookup_in_append(es0, seq![e], q);
                    if q == sk {
                        crate::record::lemma_lookup_in_at(seq![e], q, 0);
                    } else {
                        crate::record::lemma_lookup_in_none(seq![e], q);
                    }
                }
            }
            Ok(nd)
        },
        Err(e2) => Err(e2),
    }
}

} // verus!
