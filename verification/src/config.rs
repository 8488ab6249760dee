//! Governance settings, state and role constants, and error codes.

use vstd::prelude::*;

verus! {

/// Size of an account identifier in bytes.
pub const ACCOUNT_ID_SIZE: usize = 20;

/// Maximum number of members tracked in the record.
pub const MAX_MEMBERS: usize = 20;

/// Maximum proposals that can exist simultaneously.
pub const MAX_PROPOSALS: usize = 10;

/// Maximum operations in a single timelock batch.
pub const MAX_BATCH_OPS: usize = 5;

/// Capacity of the serialized ledger record in bytes.
pub const MAX_RECORD_SIZE: usize = 4096;

/// Delay in seconds after proposal creation before voting starts.
pub const VOTING_DELAY: u32 = 300;

/// Duration in seconds that voting remains open.
pub const VOTING_PERIOD: u32 = 259200;

/// Minimum voting power required to create a proposal.
pub const PROPOSAL_THRESHOLD: u64 = 100_000_000;

/// Quorum: percentage of total voting power required (0-100).
pub const QUORUM_PERCENTAGE: u8 = 4;

/// Minimum delay in seconds before a queued operation can be executed.
pub const TIMELOCK_MIN_DELAY: u32 = 172800;

/// Grace period after an operation becomes ready; past
/// `ready_at + TIMELOCK_GRACE_PERIOD` the operation expires.
pub const TIMELOCK_GRACE_PERIOD: u32 = 1_209_600;

/// Initial voting power for self-registered members.
pub const SELF_REGISTER_INITIAL_POWER: u64 = 0;

// Proposal states.

/// Voting has not started yet (within the voting delay).
pub const PROPOSAL_STATE_PENDING: u8 = 0;
/// Voting is open.
pub const PROPOSAL_STATE_ACTIVE: u8 = 1;
/// Proposal was canceled by its proposer.
pub const PROPOSAL_STATE_CANCELED: u8 = 2;
/// Voting ended without reaching quorum or majority.
pub const PROPOSAL_STATE_DEFEATED: u8 = 3;
/// Voting ended with quorum and majority reached.
pub const PROPOSAL_STATE_SUCCEEDED: u8 = 4;
/// Proposal queued in the timelock.
pub const PROPOSAL_STATE_QUEUED: u8 = 5;
/// Timelock expired without execution.
pub const PROPOSAL_STATE_EXPIRED: u8 = 6;
/// Proposal executed.
pub const PROPOSAL_STATE_EXECUTED: u8 = 7;

// Vote support values.

/// Vote against the proposal.
pub const VOTE_AGAINST: u8 = 0;
/// Vote for the proposal.
pub const VOTE_FOR: u8 = 1;
/// Abstain: counts toward quorum but neither for nor against.
pub const VOTE_ABSTAIN: u8 = 2;

// Role bits.

/// Accounts that can create proposals.
pub const ROLE_PROPOSER: u8 = 1;
/// Accounts that can execute operations.
pub const ROLE_EXECUTOR: u8 = 2;
/// The admin role: can grant and revoke roles.
pub const ROLE_ADMIN: u8 = 4;

// Timelock operation states.

/// Operation not scheduled.
pub const OP_STATE_UNSET: u8 = 0;
/// Operation scheduled, timer not expired.
pub const OP_STATE_PENDING: u8 = 1;
/// Operation scheduled, timer expired, ready to execute.
pub const OP_STATE_READY: u8 = 2;
/// Operation has been executed.
pub const OP_STATE_DONE: u8 = 3;
/// Operation has expired past its grace period.
pub const OP_STATE_EXPIRED: u8 = 4;

// Return codes.

pub const SUCCESS: i32 = 1;
pub const ERR_WRONG_ACCOUNT: i32 = -1;
pub const ERR_TOO_EARLY: i32 = -2;
pub const ERR_NOT_APPROVED: i32 = -3;
pub const ERR_DATA_READ: i32 = -4;
pub const ERR_HOST_CALL: i32 = -5;
pub const ERR_BAD_CONFIG: i32 = -6;
pub const ERR_ALREADY_VOTED: i32 = -7;
pub const ERR_PROPOSAL_NOT_ACTIVE: i32 = -8;
pub const ERR_BELOW_THRESHOLD: i32 = -9;
pub const ERR_MAX_PROPOSALS: i32 = -10;
pub const ERR_NOT_PROPOSER: i32 = -11;
pub const ERR_NOT_EXECUTOR: i32 = -12;
pub const ERR_OP_NOT_READY: i32 = -13;
pub const ERR_OP_ALREADY_QUEUED: i32 = -14;
pub const ERR_PROPOSAL_NOT_FOUND: i32 = -15;
pub const ERR_INVALID_VOTE: i32 = -16;
pub const ERR_QUORUM_NOT_MET: i32 = -17;
pub const ERR_NOT_ADMIN: i32 = -18;
pub const ERR_OVERFLOW: i32 = -19;
pub const ERR_REENTRANT: i32 = -20;
pub const ERR_OP_EXPIRED: i32 = -21;
pub const ERR_CALLER_VERIFICATION: i32 = -22;

} // verus!
