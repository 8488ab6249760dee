//! Plain-value views of the entities stored in the ledger record.
//!
//! These carry a decoded proposal, member, timelock operation, or vote
//! record between calls; the record itself remains the source of truth.

use vstd::prelude::*;
use crate::config::{OP_STATE_UNSET, PROPOSAL_STATE_PENDING};
use crate::members::sat_add;

verus! {

/// A governance proposal.
#[derive(Clone, Copy)]
pub struct Proposal {
    /// Unique nonzero proposal identifier.
    pub id: u32,
    /// Account of the proposer.
    pub proposer: [u8; 20],
    /// Time when voting starts.
    pub vote_start: u32,
    /// Time when voting ends.
    pub vote_end: u32,
    /// Stored state of the proposal.
    pub state: u8,
    /// Votes for.
    pub for_votes: u64,
    /// Votes against.
    pub against_votes: u64,
    /// Abstentions.
    pub abstain_votes: u64,
    /// Timelock execution timestamp, zero when not queued.
    pub eta: u32,
    /// Hash of the proposal description.
    pub description_hash: u32,
}

impl Proposal {
    /// A zeroed, pending proposal.
    pub fn new() -> (r: Proposal)
        ensures
            r.id == 0,
            r.proposer@ =~= Seq::new(20, |i: int| 0u8),
            r.vote_start == 0,
            r.vote_end == 0,
            r.state == PROPOSAL_STATE_PENDING,
            r.for_votes == 0,
            r.against_votes == 0,
            r.abstain_votes == 0,
            r.eta == 0,
            r.description_hash == 0,
    {
        let r = Proposal {
            id: 0,
            proposer: [0u8; 20],
            vote_start: 0,
            vote_end: 0,
            state: PROPOSAL_STATE_PENDING,
            for_votes: 0,
            against_votes: 0,
            abstain_votes: 0,
            eta: 0,
            description_hash: 0,
        };
        proof {
            assert(r.proposer@ =~= Seq::new(20, |i: int| 0u8));
        }
        r
    }

    /// Total votes cast: for plus against plus abstain, saturating at
    /// `u64::MAX` as every aggregate over historical tallies does.
    pub fn total_votes(&self) -> (r: u64)
        ensures
            r == sat_add(sat_add(self.for_votes, self.against_votes), self.abstain_votes),
    {
        self.for_votes.saturating_add(self.against_votes).saturating_add(self.abstain_votes)
    }

    /// The vote succeeded: strictly more for than against.
    pub fn vote_succeeded(&self) -> (r: bool)
        ensures
            r == (self.for_votes > self.against_votes),
    {
        self.for_votes > self.against_votes
    }
}

/// A member with voting power and roles.
#[derive(Clone, Copy)]
pub struct Member {
    /// Account of the member.
    pub account: [u8; 20],
    /// Base voting power.
    pub voting_power: u64,
    /// Role bitmask.
    pub roles: u8,
}

impl Member {
    /// A zeroed member.
    pub fn new() -> (r: Member)
        ensures
            r.account@ =~= Seq::new(20, |i: int| 0u8),
            r.voting_power == 0,
            r.roles == 0,
    {
        let r = Member { account: [0u8; 20], voting_power: 0, roles: 0 };
        proof {
            assert(r.account@ =~= Seq::new(20, |i: int| 0u8));
        }
        r
    }

    /// Does the member hold the given role bit?
    pub fn has_role(&self, role: u8) -> (r: bool)
        ensures
            r == (self.roles & role != 0),
    {
        self.roles & role != 0
    }
}

/// A timelock operation.
#[derive(Clone, Copy)]
pub struct TimelockOp {
    /// Unique nonzero operation identifier.
    pub id: u32,
    /// The linked proposal's identifier.
    pub proposal_id: u32,
    /// Time when the operation becomes executable.
    pub ready_at: u32,
    /// Stored state of the operation.
    pub state: u8,
}

impl TimelockOp {
    /// A zeroed, unset operation.
    pub fn new() -> (r: TimelockOp)
        ensures
            r.id == 0,
            r.proposal_id == 0,
            r.ready_at == 0,
            r.state == OP_STATE_UNSET,
    {
        TimelockOp { id: 0, proposal_id: 0, ready_at: 0, state: OP_STATE_UNSET }
    }
}

/// One account's vote on one proposal.
#[derive(Clone, Copy)]
pub struct VoteRecord {
    /// Account of the voter.
    pub voter: [u8; 20],
    /// The proposal's identifier.
    pub proposal_id: u32,
    /// Support value: against, for, or abstain.
    pub support: u8,
    /// Weight of the vote.
    pub weight: u64,
}

} // verus!
