//! Whole governance transactions, composed from the parts: queueing a
//! succeeded proposal into the timelock, and executing a queued
//! proposal under the reentrancy flag.
//!
//! Each is a pure function from the current record to the next; every
//! error leaves the caller's record untouched.

use vstd::prelude::*;
use crate::config::{ERR_NOT_EXECUTOR, ERR_PROPOSAL_NOT_ACTIVE, ERR_PROPOSAL_NOT_FOUND, ERR_REENTRANT, MAX_RECORD_SIZE, OP_STATE_EXPIRED, OP_STATE_READY, PROPOSAL_STATE_SUCCEEDED, ROLE_EXECUTOR, TIMELOCK_MIN_DELAY};
use crate::governor::{
    find_prop_spec, find_proposal_by_id, is_locked, locked_of, prop_key, proposal_state_spec,
    set_lock, set_lock_entries,
};
use crate::keys::{lemma_composite_key_clean, make_composite_key, p_prop, p_prop_bytes, s_state,
    s_state_bytes};
use crate::members::{has_role, roles_of};
use crate::record::{clean_value, joined, lookup, record_entries, rewrite_all, rewrite_entries, seal_record, split_record, views};
use crate::timelock::{
    find_op_spec, find_operation_by_proposal, live_op_spec, op_count_of, operation_state_spec,
    schedule, schedule_entries,
};

verus! {

/// Rewrite the stored state of proposal `i` to `digit`, leaving a
/// record whose entries are exactly the rewritten list.  A missing
/// state field is left missing, as the transaction wrappers do.
fn rewrite_prop_state(data: &[u8], i: u8, digit: u8) -> (r: Result<Vec<u8>, i32>)
    requires
        48 <= digit <= 57,
    ensures
        ({
            let es1 = rewrite_all(record_entries(data@), prop_key(i, s_state()), seq![digit]);
            &&& (r is Ok <==> joined(es1).len() <= MAX_RECORD_SIZE)
            &&& (r is Ok ==> r->Ok_0@ == joined(es1) && (forall|q: Seq<u8>|
                q != prop_key(i, s_state()) ==> #[trigger] lookup(r->Ok_0@, q) == lookup(
                    data@,
                    q,
                )))
            &&& (r is Err ==> r->Err_0 == crate::config::ERR_BAD_CONFIG)
        }),
{
    let skey = make_composite_key(p_prop_bytes().as_slice(), i, s_state_bytes().as_slice());
    let val: Vec<u8> = vec![digit];
    let ghost es0 = record_entries(data@);
    let ghost es1 = rewrite_all(es0, prop_key(i, s_state()), seq![digit]);
    let mut entries = split_record(data);
    rewrite_entries(&mut entries, skey.as_slice(), val.as_slice());
    proof {
        assert(val@ =~= seq![digit]);
        assert(views(entries@) == es1);
        lemma_composite_key_clean(p_prop(), i, s_state());
        assert(clean_value(seq![digit]));
        crate::record::lemma_rewrite_wf(es0, prop_key(i, s_state()), seq![digit]);
    }
    match seal_record(&entries) {
        Ok(nd) => {
            proof {
                crate::record::lemma_entries_of_joined(es1);
                assert forall|q: Seq<u8>|
                    q != prop_key(i, s_state()) implies #[trigger] lookup(nd@, q) == lookup(
                    data@,
                    q,
                ) by {
                    crate::record::lemma_lookup_rewrite(
                        es0,
                        prop_key(i, s_state()),
                        seq![digit],
                        q,
                    );
                }
            }
            Ok(nd)
        },
        Err(e) => Err(e),
    }
}

/// Contract of [`queue_proposal`]: the proposal must exist and have
/// succeeded; it is then scheduled with the minimum delay and its
/// stored state set to queued.  Success is owed exactly when no live
/// (pending or ready) operation is already linked and both rebuilt
/// records fit.
pub open spec fn queue_post(
    data: Seq<u8>,
    proposal_id: u32,
    now: u32,
    total: u64,
    r: Result<Vec<u8>, i32>,
) -> bool {
    match find_prop_spec(data, proposal_id) {
        None => r == Err::<Vec<u8>, i32>(ERR_PROPOSAL_NOT_FOUND),
        Some(idx) => {
            if proposal_state_spec(data, idx, now, total) != PROPOSAL_STATE_SUCCEEDED {
                r == Err::<Vec<u8>, i32>(ERR_PROPOSAL_NOT_ACTIVE)
            } else {
                let sd = joined(schedule_entries(data, proposal_id, now, TIMELOCK_MIN_DELAY));
                let es2 = rewrite_all(record_entries(sd), prop_key(idx, s_state()), seq![53u8]);
                &&& (r is Ok <==> live_op_spec(data, proposal_id, now) is None && sd.len()
                    <= MAX_RECORD_SIZE && joined(es2).len() <= MAX_RECORD_SIZE)
                &&& (r is Ok ==> r->Ok_0@ == joined(es2))
                &&& (r is Err ==> r->Err_0 == crate::config::ERR_OP_ALREADY_QUEUED || r->Err_0
                    == crate::config::ERR_BAD_CONFIG)
                &&& (live_op_spec(data, proposal_id, now) is Some ==> r == Err::<Vec<u8>, i32>(
                    crate::config::ERR_OP_ALREADY_QUEUED,
                ))
                &&& (live_op_spec(data, proposal_id, now) is None && r is Err ==> r->Err_0
                    == crate::config::ERR_BAD_CONFIG)
            }
        },
    }
}

/// Queue a succeeded proposal: schedule a timelock operation for it
/// with the minimum delay and mark the proposal queued.
pub fn queue_proposal(data: &[u8], proposal_id: u32, current_time: u32, total_voting_power: u64) -> (r: Result<Vec<u8>, i32>)
    requires
        current_time + TIMELOCK_MIN_DELAY <= u32::MAX,
        op_count_of(data@) < 255,
    ensures
        queue_post(data@, proposal_id, current_time, total_voting_power, r),
{
    let prop_idx = match find_proposal_by_id(data, proposal_id) {
        Ok(idx) => idx,
        Err(e) => {
            return Err(e);
        },
    };
    let state = crate::governor::get_proposal_state(data, prop_idx, current_time, total_voting_power);
    if state != PROPOSAL_STATE_SUCCEEDED {
        return Err(ERR_PROPOSAL_NOT_ACTIVE);
    }
    let (scheduled, _op_id) = match schedule(data, proposal_id, current_time, TIMELOCK_MIN_DELAY) {
        Ok(p) => p,
        Err(e) => {
            return Err(e);
        },
    };
    rewrite_prop_state(scheduled.as_slice(), prop_idx, 53)
}

/// The record after the linked operation's stored state is set to done.
pub open spec fn exec_done_record(d1: Seq<u8>, op_idx: u8) -> Seq<u8> {
    joined(
        rewrite_all(
            record_entries(d1),
            crate::timelock::op_key(op_idx, s_state()),
            seq![51u8],
        ),
    )
}

/// The record after the proposal, where found, is marked executed.
pub open spec fn exec_marked_record(d2: Seq<u8>, proposal_id: u32) -> Seq<u8> {
    match find_prop_spec(d2, proposal_id) {
        Some(pi) => joined(rewrite_all(record_entries(d2), prop_key(pi, s_state()), seq![55u8])),
        None => d2,
    }
}

/// An operation key never equals a proposal key.
proof fn lemma_op_prop_keys_distinct(a: u8, s1: Seq<u8>, b: u8, s2: Seq<u8>)
    ensures
        crate::timelock::op_key(a, s1) != prop_key(b, s2),
{
    if crate::timelock::op_key(a, s1) == prop_key(b, s2) {
        assert(crate::timelock::op_key(a, s1)[0] == crate::keys::p_op()[0]);
        assert(prop_key(b, s2)[0] == p_prop()[0]);
    }
}

/// An operation key never equals the reentrancy flag's key.
proof fn lemma_op_key_not_lock(a: u8, s1: Seq<u8>)
    ensures
        crate::timelock::op_key(a, s1) != crate::keys::k_lock(),
{
    if crate::timelock::op_key(a, s1) == crate::keys::k_lock() {
        assert(crate::timelock::op_key(a, s1)[0] == crate::keys::p_op()[0]);
        assert(crate::keys::k_lock()[0] == 95u8);
    }
}

/// A pending or ready operation has its stored state field present.
proof fn lemma_live_state_key_present(data: Seq<u8>, i: u8, now: u32)
    requires
        operation_state_spec(data, i, now) == OP_STATE_READY || operation_state_spec(
            data,
            i,
            now,
        ) == crate::config::OP_STATE_PENDING,
    ensures
        crate::record::has_key(
            record_entries(data),
            crate::timelock::op_key(i, s_state()),
        ),
{
    if lookup(data, crate::timelock::op_key(i, s_state())) is None {
        assert(crate::timelock::op_state_stored(data, i) == crate::config::OP_STATE_UNSET);
    }
}

/// Contract of [`execute_proposal`]: the caller must hold the executor
/// role and the engine must not be re-entered; the linked operation,
/// looked up under the taken flag, must be ready.  On success the
/// result is exactly the locked record with the operation marked done,
/// the proposal (where its slot is found) marked executed, and the
/// flag cleared again; success is owed exactly when each of the four
/// rebuilt records fits the capacity.
pub open spec fn execute_proposal_post(
    data: Seq<u8>,
    caller: Seq<u8>,
    proposal_id: u32,
    now: u32,
    r: Result<Vec<u8>, i32>,
) -> bool {
    let is_executor = roles_of(data, caller) & ROLE_EXECUTOR != 0;
    let d1 = joined(set_lock_entries(data, true));
    &&& (!is_executor ==> r == Err::<Vec<u8>, i32>(ERR_NOT_EXECUTOR))
    &&& (is_executor && locked_of(data) ==> r == Err::<Vec<u8>, i32>(ERR_REENTRANT))
    &&& (is_executor && !locked_of(data) ==> match find_op_spec(d1, proposal_id) {
        None => r == Err::<Vec<u8>, i32>(
            if d1.len() <= MAX_RECORD_SIZE {
                ERR_PROPOSAL_NOT_FOUND
            } else {
                crate::config::ERR_BAD_CONFIG
            },
        ),
        Some(op_idx) => {
            let st = operation_state_spec(d1, op_idx, now);
            &&& (st == OP_STATE_EXPIRED ==> r == Err::<Vec<u8>, i32>(
                if d1.len() <= MAX_RECORD_SIZE {
                    crate::config::ERR_OP_EXPIRED
                } else {
                    crate::config::ERR_BAD_CONFIG
                },
            ))
            &&& (st != OP_STATE_EXPIRED && st != OP_STATE_READY ==> r == Err::<Vec<u8>, i32>(
                if d1.len() <= MAX_RECORD_SIZE {
                    crate::config::ERR_OP_NOT_READY
                } else {
                    crate::config::ERR_BAD_CONFIG
                },
            ))
            &&& (st == OP_STATE_READY ==> ({
                let d2 = exec_done_record(d1, op_idx);
                let d3 = exec_marked_record(d2, proposal_id);
                let d4 = joined(set_lock_entries(d3, false));
                &&& (r is Ok <==> d1.len() <= MAX_RECORD_SIZE && d2.len() <= MAX_RECORD_SIZE
                    && d3.len() <= MAX_RECORD_SIZE && d4.len() <= MAX_RECORD_SIZE)
                &&& (r is Ok ==> r->Ok_0@ == d4 && crate::timelock::op_state_stored(
                    r->Ok_0@,
                    op_idx,
                ) == crate::config::OP_STATE_DONE && !locked_of(r->Ok_0@))
                &&& (r is Err ==> r->Err_0 == crate::config::ERR_BAD_CONFIG)
            }))
        },
    })
}

/// Execute a queued proposal: the caller must be an executor and the
/// engine unlocked; the flag is taken, the linked operation executed,
/// the proposal marked executed, and the flag released on the way out.
pub fn execute_proposal(data: &[u8], caller: &[u8; 20], proposal_id: u32, current_time: u32) -> (r:
    Result<Vec<u8>, i32>)
    ensures
        execute_proposal_post(data@, caller@, proposal_id, current_time, r),
{
    if !has_role(data, caller, ROLE_EXECUTOR) {
        return Err(ERR_NOT_EXECUTOR);
    }
    if is_locked(data) {
        return Err(ERR_REENTRANT);
    }
    let ghost d1 = joined(set_lock_entries(data@, true));
    let locked = match set_lock(data, true) {
        Ok(d) => d,
        Err(e) => {
            return Err(e);
        },
    };
    proof {
        assert(locked@ == d1);
    }
    let op_idx = match find_operation_by_proposal(locked.as_slice(), proposal_id) {
        Ok(idx) => idx,
        Err(e) => {
            return Err(e);
        },
    };
    let ghost st = operation_state_spec(d1, op_idx, current_time);
    let ghost d2 = exec_done_record(d1, op_idx);
    let ghost d3 = exec_marked_record(d2, proposal_id);
    let ghost d4 = joined(set_lock_entries(d3, false));
    proof {
        if st == OP_STATE_READY {
            lemma_live_state_key_present(d1, op_idx, current_time);
        }
    }
    let executed = match crate::timelock::execute(locked.as_slice(), op_idx, current_time) {
        Ok(d) => d,
        Err(e) => {
            return Err(e);
        },
    };
    proof {
        assert(executed@ == d2);
    }
    let marked = match find_proposal_by_id(executed.as_slice(), proposal_id) {
        Ok(prop_idx) => match rewrite_prop_state(executed.as_slice(), prop_idx, 55) {
            Ok(d) => d,
            Err(e) => {
                return Err(e);
            },
        },
        Err(_) => executed,
    };
    proof {
        assert(marked@ == d3);
        lemma_op_key_not_lock(op_idx, s_state());
        match find_prop_spec(d2, proposal_id) {
            Some(pi) => {
                lemma_op_prop_keys_distinct(op_idx, s_state(), pi, s_state());
                assert(lookup(d3, crate::timelock::op_key(op_idx, s_state())) == lookup(
                    d2,
                    crate::timelock::op_key(op_idx, s_state()),
                ));
            },
            None => {},
        }
        assert(crate::timelock::op_state_stored(d3, op_idx) == crate::config::OP_STATE_DONE);
    }
    match set_lock(marked.as_slice(), false) {
        Ok(d) => {
            proof {
                assert(d@ == d4);
                assert(lookup(d@, crate::timelock::op_key(op_idx, s_state())) == lookup(
                    d3,
                    crate::timelock::op_key(op_idx, s_state()),
                ));
                assert(crate::timelock::op_state_stored(d@, op_idx)
                    == crate::config::OP_STATE_DONE);
            }
            Ok(d)
        },
        Err(e) => Err(e),
    }
}

} // verus!
