//! Deterministic identifier derivation for proposals and timelock
//! operations.
//!
//! A 64-bit FNV-1a accumulator absorbs the bound fields in a fixed order;
//! a three-round avalanche finalizer then folds it to 32 bits.  Proposal
//! and operation identifiers force the low bit to 1 so they are never zero.
//! The construction is deterministic and collision-resistant for benign
//! inputs, but not cryptographically secure.

use vstd::prelude::*;

verus! {

/// FNV-1a offset basis.
pub const FNV_OFFSET_BASIS: u64 = 0xcbf29ce484222325;

/// FNV-1a prime.
pub const FNV_PRIME: u64 = 0x100000001b3;

/// One FNV-1a absorption step: xor the byte in, multiply by the prime.
pub open spec fn fnv_step(h: u64, b: u8) -> u64 {
    vstd::wrapping::u64_specs::wrapping_mul(h ^ (b as u64), FNV_PRIME)
}

/// Absorb `bytes` left to right, starting from accumulator `h`.
pub open spec fn fnv_mix(h: u64, bytes: Seq<u8>) -> u64
    decreases bytes.len(),
{
    if bytes.len() == 0 {
        h
    } else {
        fnv_step(fnv_mix(h, bytes.drop_last()), bytes.last())
    }
}

/// Three-round avalanche finalizer: xorshift by 33 interleaved with two
/// 64-bit multiplicative constants.
pub open spec fn avalanche(h: u64) -> u64 {
    let h1 = h ^ (h >> 33);
    let h2 = vstd::wrapping::u64_specs::wrapping_mul(h1, 0xff51afd7ed558ccd);
    let h3 = h2 ^ (h2 >> 33);
    let h4 = vstd::wrapping::u64_specs::wrapping_mul(h3, 0xc4ceb9fe1a85ec53);
    h4 ^ (h4 >> 33)
}

/// Big-endian byte decomposition of a 32-bit value.
pub open spec fn be_bytes_u32(x: u32) -> Seq<u8> {
    seq![
        ((x >> 24) & 0xff) as u8,
        ((x >> 16) & 0xff) as u8,
        ((x >> 8) & 0xff) as u8,
        (x & 0xff) as u8,
    ]
}

/// The bytes absorbed for a proposal identifier, in order: the proposer
/// account, the description hash, the creation time, then the nonce.
pub open spec fn proposal_id_bytes(
    proposer: Seq<u8>,
    description_hash: u32,
    current_time: u32,
    nonce: u8,
) -> Seq<u8> {
    proposer + be_bytes_u32(description_hash) + be_bytes_u32(current_time) + seq![nonce]
}

/// Proposal identifier: absorb, avalanche, truncate, force the low bit.
pub open spec fn proposal_id_hash(
    proposer: Seq<u8>,
    description_hash: u32,
    current_time: u32,
    nonce: u8,
) -> u32 {
    let h = avalanche(
        fnv_mix(FNV_OFFSET_BASIS, proposal_id_bytes(proposer, description_hash, current_time, nonce)),
    );
    (((h & 0xffff_ffff) as u32) | 1) as u32
}

/// The bytes absorbed for an operation identifier, in order: the linked
/// proposal identifier, the schedule time, then the nonce.
pub open spec fn operation_id_bytes(proposal_id: u32, schedule_time: u32, nonce: u8) -> Seq<u8> {
    be_bytes_u32(proposal_id) + be_bytes_u32(schedule_time) + seq![nonce]
}

/// Operation identifier: absorb, avalanche, truncate, force the low bit.
pub open spec fn operation_id_hash(proposal_id: u32, schedule_time: u32, nonce: u8) -> u32 {
    let h = avalanche(fnv_mix(FNV_OFFSET_BASIS, operation_id_bytes(proposal_id, schedule_time, nonce)));
    (((h & 0xffff_ffff) as u32) | 1) as u32
}

/// Identifiers with the low bit forced are never zero.
pub proof fn lemma_forced_low_bit_nonzero(w: u32)
    ensures
        w | 1 != 0,
{
    assert(w | 1 != 0) by (bit_vector);
}

/// Push the big-endian bytes of `x` onto `bytes`.
fn push_be_bytes_u32(bytes: &mut Vec<u8>, x: u32)
    ensures
        final(bytes)@ == old(bytes)@ + be_bytes_u32(x),
{
    bytes.push(((x >> 24) & 0xff) as u8);
    bytes.push(((x >> 16) & 0xff) as u8);
    bytes.push(((x >> 8) & 0xff) as u8);
    bytes.push((x & 0xff) as u8);
    proof {
        assert(bytes@ =~= old(bytes)@ + be_bytes_u32(x));
    }
}

/// Absorb `bytes` into the accumulator `h`, left to right.
pub(crate) fn mix_bytes(h: u64, bytes: &[u8]) -> (r: u64)
    ensures
        r == fnv_mix(h, bytes@),
{
    let mut acc = h;
    let mut i: usize = 0;
    while i < bytes.len()
        invariant
            0 <= i <= bytes@.len(),
            acc == fnv_mix(h, bytes@.take(i as int)),
        decreases bytes@.len() - i,
    {
        proof {
            assert(bytes@.take(i + 1).drop_last() =~= bytes@.take(i as int));
            assert(bytes@.take(i + 1).last() == bytes@[i as int]);
        }
        acc = (acc ^ (bytes[i] as u64)).wrapping_mul(FNV_PRIME);
        i = i + 1;
    }
    proof {
        assert(bytes@.take(bytes@.len() as int) =~= bytes@);
    }
    acc
}

/// Apply the avalanche finalizer.
pub(crate) fn finalize(h: u64) -> (r: u64)
    ensures
        r == avalanche(h),
{
    let h1 = h ^ (h >> 33);
    let h2 = h1.wrapping_mul(0xff51afd7ed558ccd);
    let h3 = h2 ^ (h2 >> 33);
    let h4 = h3.wrapping_mul(0xc4ceb9fe1a85ec53);
    h4 ^ (h4 >> 33)
}

/// Derive a proposal identifier from the proposer account, the description
/// hash, the creation time, and the proposal-count nonce.  The result is a
/// pure function of these inputs and is never zero.
pub fn hash_proposal(
    proposer: &[u8; 20],
    description_hash: u32,
    current_time: u32,
    proposal_nonce: u8,
) -> (r: u32)
    ensures
        r == proposal_id_hash(proposer@, description_hash, current_time, proposal_nonce),
        r != 0,
{
    let mut bytes: Vec<u8> = Vec::new();
    bytes.extend_from_slice(proposer.as_slice());
    push_be_bytes_u32(&mut bytes, description_hash);
    push_be_bytes_u32(&mut bytes, current_time);
    bytes.push(proposal_nonce);
    proof {
        assert(bytes@ =~= proposal_id_bytes(
            proposer@,
            description_hash,
            current_time,
            proposal_nonce,
        ));
    }
    let h = finalize(mix_bytes(FNV_OFFSET_BASIS, bytes.as_slice()));
    let w = (h & 0xffff_ffff) as u32;
    proof {
        lemma_forced_low_bit_nonzero(w);
    }
    w | 1
}

/// Derive a timelock operation identifier from the linked proposal
/// identifier, the schedule time, and the operation-count nonce.  The
/// result is a pure function of these inputs and is never zero.
pub fn hash_operation(proposal_id: u32, schedule_time: u32, op_nonce: u8) -> (r: u32)
    ensures
        r == operation_id_hash(proposal_id, schedule_time, op_nonce),
        r != 0,
{
    let mut bytes: Vec<u8> = Vec::new();
    push_be_bytes_u32(&mut bytes, proposal_id);
    push_be_bytes_u32(&mut bytes, schedule_time);
    bytes.push(op_nonce);
    proof {
        assert(bytes@ =~= operation_id_bytes(proposal_id, schedule_time, op_nonce));
    }
    let h = finalize(mix_bytes(FNV_OFFSET_BASIS, bytes.as_slice()));
    let w = (h & 0xffff_ffff) as u32;
    proof {
        lemma_forced_low_bit_nonzero(w);
    }
    w | 1
}

} // verus!
