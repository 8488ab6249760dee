//! Predecessor dependencies between timelock operations.
//!
//! A scheduled operation may record one predecessor operation id (zero
//! meaning none); execution then additionally requires that predecessor
//! to have reached the done state.  Chains are single-level: a
//! predecessor's own predecessor is not checked transitively.

use vstd::prelude::*;
use crate::config::{
    ERR_BAD_CONFIG, ERR_OP_ALREADY_QUEUED, ERR_OP_NOT_READY, ERR_TOO_EARLY, MAX_RECORD_SIZE,
    OP_STATE_DONE, TIMELOCK_MIN_DELAY,
};
use crate::hash::operation_id_hash;
use crate::keys::{
    lemma_composite_key_clean, make_composite_key, p_op, p_op_bytes, s_id, s_id_bytes,
    s_predecessor, s_predecessor_bytes,
};
use crate::num::{dec_digits, format_u32};
use crate::record::{
    field_u32, find_value, joined, lookup, range_eq, read_count, read_u32_field, record_entries,
    upsert, upsert_record,
};
use crate::timelock::{
    execute, execute_post, live_op_spec, op_count_of, op_key, op_state_stored, schedule,
    schedule_entries,
};

verus! {

/// The stored predecessor id of operation `i`; zero when absent.
pub open spec fn predecessor_of(data: Seq<u8>, i: u8) -> u32 {
    field_u32(data, op_key(i, s_predecessor()), 0)
}

/// The stored predecessor operation id for an operation; zero means no
/// predecessor.
pub fn get_predecessor(data: &[u8], operation_index: u8) -> (r: u32)
    ensures
        r == predecessor_of(data@, operation_index),
{
    let key = make_composite_key(
        p_op_bytes().as_slice(),
        operation_index,
        s_predecessor_bytes().as_slice(),
    );
    read_u32_field(data, key.as_slice(), 0)
}

/// First operation slot at or after `i` whose stored id text is the
/// decimal encoding of `id`.
pub open spec fn find_op_by_id_from(data: Seq<u8>, id: u32, i: u8) -> Option<u8>
    decreases op_count_of(data) - i,
{
    if i >= op_count_of(data) {
        None
    } else if lookup(data, op_key(i, s_id())) == Some(dec_digits(id as nat)) {
        Some(i)
    } else {
        find_op_by_id_from(data, id, (i + 1) as u8)
    }
}

/// The predecessor with this id exists and has reached the done state.
pub open spec fn predecessor_done_spec(data: Seq<u8>, id: u32) -> bool {
    match find_op_by_id_from(data, id, 0) {
        Some(j) => op_state_stored(data, j) == OP_STATE_DONE,
        None => false,
    }
}

/// Check whether the operation with the given id is done.
fn is_predecessor_done(data: &[u8], predecessor_op_id: u32) -> (r: bool)
    ensures
        r == predecessor_done_spec(data@, predecessor_op_id),
{
    let ck = crate::keys::k_op_count_bytes();
    let op_count = read_count(data, ck.as_slice());
    let id_val = format_u32(predecessor_op_id);
    let mut i: u8 = 0;
    while i < op_count
        invariant
            op_count == op_count_of(data@),
            0 <= i <= op_count,
            id_val@ == dec_digits(predecessor_op_id as nat),
            find_op_by_id_from(data@, predecessor_op_id, 0) == find_op_by_id_from(
                data@,
                predecessor_op_id,
                i,
            ),
        decreases op_count - i,
    {
        let key = make_composite_key(p_op_bytes().as_slice(), i, s_id_bytes().as_slice());
        match find_value(data, key.as_slice()) {
            Some(stored) => {
                if stored.len() == id_val.len() && range_eq(
                    stored,
                    0,
                    stored.len(),
                    id_val.as_slice(),
                ) {
                    proof {
                        assert(stored@.subrange(0, stored@.len() as int) =~= stored@);
                    }
                    return crate::timelock::is_operation_done(data, i);
                }
                proof {
                    assert(stored@.subrange(0, stored@.len() as int) =~= stored@);
                    assert(lookup(data@, op_key(i, s_id())) != Some(
                        dec_digits(predecessor_op_id as nat),
                    ));
                }
            },
            None => {
                proof {
                    assert(lookup(data@, op_key(i, s_id())) != Some(
                        dec_digits(predecessor_op_id as nat),
                    ));
                }
            },
        }
        i = i + 1;
    }
    false
}

/// Contract of [`schedule_with_predecessor`]: the operation is
/// scheduled as by `schedule`, then the predecessor id is stored under
/// the new operation's slot; every other key of the scheduled record is
/// untouched.
pub open spec fn schedule_with_pred_post(
    data: Seq<u8>,
    proposal_id: u32,
    pred: u32,
    now: u32,
    delay: u32,
    r: Result<(Vec<u8>, u32), i32>,
) -> bool {
    let n = op_count_of(data);
    let pk = op_key(n, s_predecessor());
    let sd = joined(schedule_entries(data, proposal_id, now, delay));
    let es2 = upsert(record_entries(sd), pk, dec_digits(pred as nat));
    &&& (r == Err::<(Vec<u8>, u32), i32>(ERR_TOO_EARLY) <==> delay < TIMELOCK_MIN_DELAY)
    &&& (r == Err::<(Vec<u8>, u32), i32>(ERR_OP_ALREADY_QUEUED) <==> delay >= TIMELOCK_MIN_DELAY
        && live_op_spec(data, proposal_id, now) is Some)
    &&& (r is Ok <==> delay >= TIMELOCK_MIN_DELAY && live_op_spec(data, proposal_id, now) is None
        && joined(schedule_entries(data, proposal_id, now, delay)).len() <= MAX_RECORD_SIZE
        && joined(es2).len() <= MAX_RECORD_SIZE)
    &&& (r is Ok ==> ({
        let p = r->Ok_0;
        &&& p.1 == operation_id_hash(proposal_id, now, n)
        &&& p.1 != 0
        &&& p.0@ == joined(es2)
        &&& lookup(p.0@, pk) == Some(dec_digits(pred as nat))
        &&& (forall|q: Seq<u8>| q != pk ==> #[trigger] lookup(p.0@, q) == lookup(sd, q))
    }))
    &&& (r is Err ==> r->Err_0 == ERR_TOO_EARLY || r->Err_0 == ERR_OP_ALREADY_QUEUED || r->Err_0
        == ERR_BAD_CONFIG)
}

/// Schedule an operation with a predecessor dependency: schedule it,
/// then store the predecessor id under the new operation's slot.
pub fn schedule_with_predecessor(
    data: &[u8],
    proposal_id: u32,
    predecessor_op_id: u32,
    current_time: u32,
    delay: u32,
) -> (r: Result<(Vec<u8>, u32), i32>)
    requires
        current_time + delay <= u32::MAX,
        op_count_of(data@) < 255,
    ensures
        schedule_with_pred_post(data@, proposal_id, predecessor_op_id, current_time, delay, r),
{
    let ck = crate::keys::k_op_count_bytes();
    let n = read_count(data, ck.as_slice());
    let (scheduled, op_id) = match schedule(data, proposal_id, current_time, delay) {
        Ok(p) => p,
        Err(e) => {
            return Err(e);
        },
    };
    let pk = make_composite_key(p_op_bytes().as_slice(), n, s_predecessor_bytes().as_slice());
    let pv = format_u32(predecessor_op_id);
    proof {
        lemma_composite_key_clean(p_op(), n, s_predecessor());
        crate::keys::lemma_clean_digits(predecessor_op_id as nat);
        crate::keys::lemma_clean_key_value(dec_digits(predecessor_op_id as nat));
    }
    match upsert_record(scheduled.as_slice(), pk.as_slice(), pv.as_slice()) {
        Ok(nd) => Ok((nd, op_id)),
        Err(e) => Err(e),
    }
}

/// Contract of [`execute_with_predecessor_check`]: a nonzero stored
/// predecessor must be done, then execution proceeds as by `execute`.
pub open spec fn execute_with_pred_post(
    data: Seq<u8>,
    i: u8,
    now: u32,
    r: Result<Vec<u8>, i32>,
) -> bool {
    let pred = predecessor_of(data, i);
    &&& (pred != 0 && !predecessor_done_spec(data, pred) ==> r == Err::<Vec<u8>, i32>(
        ERR_OP_NOT_READY,
    ))
    &&& ((pred == 0 || predecessor_done_spec(data, pred)) ==> execute_post(data, i, now, r))
}

/// Execute an operation after checking its predecessor, if one is
/// recorded: a nonzero predecessor id must name an operation in the
/// done state.
pub fn execute_with_predecessor_check(data: &[u8], operation_index: u8, current_time: u32) -> (r:
    Result<Vec<u8>, i32>)
    ensures
        execute_with_pred_post(data@, operation_index, current_time, r),
{
    let pred_id = get_predecessor(data, operation_index);
    if pred_id != 0 {
        if !is_predecessor_done(data, pred_id) {
            return Err(ERR_OP_NOT_READY);
        }
    }
    execute(data, operation_index, current_time)
}

} // verus!
