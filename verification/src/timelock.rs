//! Timelock scheduler: operations linked one-to-one to proposals, with a
//! minimum delay, a grace-period expiry, and explicit execution and
//! cancellation.
//!
//! A stored pending state is re-derived on every read: before `ready_at`
//! the operation is pending, within the grace period it is ready, and
//! past `ready_at + TIMELOCK_GRACE_PERIOD` it has expired.

use vstd::prelude::*;
use crate::config::{
    ERR_BAD_CONFIG, ERR_OP_ALREADY_QUEUED, ERR_OP_EXPIRED, ERR_OP_NOT_READY,
    ERR_PROPOSAL_NOT_FOUND, ERR_TOO_EARLY, MAX_RECORD_SIZE, OP_STATE_DONE, OP_STATE_EXPIRED,
    OP_STATE_PENDING, OP_STATE_READY, OP_STATE_UNSET, TIMELOCK_GRACE_PERIOD, TIMELOCK_MIN_DELAY,
};
use crate::hash::{hash_operation, operation_id_hash};
use crate::keys::{
    composite_key, k_op_count, k_op_count_bytes, lemma_clean_digits, lemma_composite_key_clean,
    lemma_key_suffix_distinct, lemma_op_count_key_distinct, lemma_suffixes_distinct,
    make_composite_key, p_op, p_op_bytes, s_id, s_id_bytes, s_prop, s_prop_bytes, s_ready,
    s_ready_bytes, s_state, s_state_bytes,
};
use crate::num::{
    dec_digits, format_u32, format_u8, lemma_dec_digits_all_digits, lemma_dec_digits_value,
};
use crate::record::{clean_key, clean_value, drop_entries, drop_key, entry_of, field_count, field_digit, field_u32, find_value, has_key, joined, lemma_drop_wf, lemma_entries_of_joined, lemma_entry_of, lemma_lookup_drop, lemma_lookup_in_append, lemma_lookup_in_at, lemma_lookup_in_none, lemma_record_entries_wf, lookup, lookup_in, make_entry, range_eq, read_count, read_digit_field, read_u32_field, record_entries, rewrite_all, seal_record, split_record, views};

verus! {

/// Number of operations in the record.
pub open spec fn op_count_of(data: Seq<u8>) -> u8 {
    field_count(data, k_op_count())
}

/// Key of one operation field, e.g. `op_0_state`.
pub open spec fn op_key(i: u8, suffix: Seq<u8>) -> Seq<u8> {
    composite_key(p_op(), i, suffix)
}

/// Stored state digit of operation `i`; unset when absent.
pub open spec fn op_state_stored(data: Seq<u8>, i: u8) -> u8 {
    field_digit(data, op_key(i, s_state()), OP_STATE_UNSET)
}

/// When operation `i` becomes executable; the maximum when absent.
pub open spec fn op_ready_at(data: Seq<u8>, i: u8) -> u32 {
    field_u32(data, op_key(i, s_ready()), u32::MAX)
}

/// Saturating addition on `u32`.
pub open spec fn sat_add32(a: u32, b: u32) -> u32 {
    if a + b > u32::MAX {
        u32::MAX
    } else {
        (a + b) as u32
    }
}

/// The state of operation `i` at time `now`: any stored state other
/// than pending is returned as-is; a stored pending state is derived
/// from the clock against `ready_at` and the grace period.
pub open spec fn operation_state_spec(data: Seq<u8>, i: u8, now: u32) -> u8 {
    let st = op_state_stored(data, i);
    if st != OP_STATE_PENDING {
        st
    } else if now < op_ready_at(data, i) {
        OP_STATE_PENDING
    } else if now > sat_add32(op_ready_at(data, i), TIMELOCK_GRACE_PERIOD) {
        OP_STATE_EXPIRED
    } else {
        OP_STATE_READY
    }
}

/// Current state of an operation, grace-period expiry included.
pub fn get_operation_state(data: &[u8], operation_index: u8, current_time: u32) -> (r: u8)
    ensures
        r == operation_state_spec(data@, operation_index, current_time),
{
    let skey = make_composite_key(p_op_bytes().as_slice(), operation_index, s_state_bytes().as_slice());
    let stored = read_digit_field(data, skey.as_slice(), OP_STATE_UNSET);
    if stored != OP_STATE_PENDING {
        return stored;
    }
    let rkey = make_composite_key(p_op_bytes().as_slice(), operation_index, s_ready_bytes().as_slice());
    let ready_at = read_u32_field(data, rkey.as_slice(), u32::MAX);
    if current_time < ready_at {
        return OP_STATE_PENDING;
    }
    let expiry = ready_at.saturating_add(TIMELOCK_GRACE_PERIOD);
    if current_time > expiry {
        return OP_STATE_EXPIRED;
    }
    OP_STATE_READY
}

/// Is the operation pending at `now`?
pub fn is_operation_pending(data: &[u8], operation_index: u8, current_time: u32) -> (r: bool)
    ensures
        r == (operation_state_spec(data@, operation_index, current_time) == OP_STATE_PENDING),
{
    get_operation_state(data, operation_index, current_time) == OP_STATE_PENDING
}

/// Is the operation ready at `now`?
pub fn is_operation_ready(data: &[u8], operation_index: u8, current_time: u32) -> (r: bool)
    ensures
        r == (operation_state_spec(data@, operation_index, current_time) == OP_STATE_READY),
{
    get_operation_state(data, operation_index, current_time) == OP_STATE_READY
}

/// Has the operation been executed?  Reads the stored state only.
pub fn is_operation_done(data: &[u8], operation_index: u8) -> (r: bool)
    ensures
        r == (op_state_stored(data@, operation_index) == OP_STATE_DONE),
{
    let skey = make_composite_key(p_op_bytes().as_slice(), operation_index, s_state_bytes().as_slice());
    read_digit_field(data, skey.as_slice(), OP_STATE_UNSET) == OP_STATE_DONE
}

/// Has the operation expired past its grace period at `now`?
pub fn is_operation_expired(data: &[u8], operation_index: u8, current_time: u32) -> (r: bool)
    ensures
        r == (operation_state_spec(data@, operation_index, current_time) == OP_STATE_EXPIRED),
{
    get_operation_state(data, operation_index, current_time) == OP_STATE_EXPIRED
}

/// The `ready_at` timestamp of an operation; zero when absent.
pub fn get_timestamp(data: &[u8], operation_index: u8) -> (r: u32)
    ensures
        r == field_u32(data@, op_key(operation_index, s_ready()), 0),
{
    let rkey = make_composite_key(p_op_bytes().as_slice(), operation_index, s_ready_bytes().as_slice());
    read_u32_field(data, rkey.as_slice(), 0)
}

/// First operation slot at or after `i` whose stored linked-proposal
/// text is the decimal encoding of `id`.
pub open spec fn find_op_from(data: Seq<u8>, id: u32, i: u8) -> Option<u8>
    decreases op_count_of(data) - i,
{
    if i >= op_count_of(data) {
        None
    } else if lookup(data, op_key(i, s_prop())) == Some(dec_digits(id as nat)) {
        Some(i)
    } else {
        find_op_from(data, id, (i + 1) as u8)
    }
}

/// The operation slot linked to proposal `id`, if any.
pub open spec fn find_op_spec(data: Seq<u8>, id: u32) -> Option<u8> {
    find_op_from(data, id, 0)
}

/// Find an operation index by its linked proposal id.
pub fn find_operation_by_proposal(data: &[u8], proposal_id: u32) -> (r: Result<u8, i32>)
    ensures
        r is Ok <==> find_op_spec(data@, proposal_id) is Some,
        r is Ok ==> r->Ok_0 == find_op_spec(data@, proposal_id)->0,
        r is Err ==> r->Err_0 == ERR_PROPOSAL_NOT_FOUND,
{
    let ck = k_op_count_bytes();
    let op_count = read_count(data, ck.as_slice());
    let id_val = format_u32(proposal_id);
    let mut i: u8 = 0;
    while i < op_count
        invariant
            op_count == op_count_of(data@),
            0 <= i <= op_count,
            id_val@ == dec_digits(proposal_id as nat),
            find_op_spec(data@, proposal_id) == find_op_from(data@, proposal_id, i),
        decreases op_count - i,
    {
        let key = make_composite_key(p_op_bytes().as_slice(), i, s_prop_bytes().as_slice());
        match find_value(data, key.as_slice()) {
            Some(stored) => {
                if stored.len() == id_val.len() && range_eq(stored, 0, stored.len(), id_val.as_slice()) {
                    proof {
                        assert(stored@.subrange(0, stored@.len() as int) =~= stored@);
                    }
                    return Ok(i);
                }
                proof {
                    assert(stored@.subrange(0, stored@.len() as int) =~= stored@);
                    assert(lookup(data@, op_key(i, s_prop())) != Some(dec_digits(proposal_id as nat)));
                }
            },
            None => {
                proof {
                    assert(lookup(data@, op_key(i, s_prop())) != Some(dec_digits(proposal_id as nat)));
                }
            },
        }
        i = i + 1;
    }
    Err(ERR_PROPOSAL_NOT_FOUND)
}

/// First operation slot at or after `i` that is linked to `id` and
/// still live at `now`: derived state pending or ready.  Done, unset,
/// and expired operations are terminal and do not count.
pub open spec fn live_op_from(data: Seq<u8>, id: u32, now: u32, i: u8) -> Option<u8>
    decreases op_count_of(data) - i,
{
    if i >= op_count_of(data) {
        None
    } else if lookup(data, op_key(i, s_prop())) == Some(dec_digits(id as nat)) && (
    operation_state_spec(data, i, now) == OP_STATE_PENDING || operation_state_spec(data, i, now)
        == OP_STATE_READY) {
        Some(i)
    } else {
        live_op_from(data, id, now, (i + 1) as u8)
    }
}

/// The live (pending or ready) operation linked to proposal `id`, if
/// any.
pub open spec fn live_op_spec(data: Seq<u8>, id: u32, now: u32) -> Option<u8> {
    live_op_from(data, id, now, 0)
}

/// Find an operation linked to the proposal that is still live at
/// `now`: derived state pending or ready.
fn find_live_operation(data: &[u8], proposal_id: u32, now: u32) -> (r: Option<u8>)
    ensures
        r == live_op_spec(data@, proposal_id, now),
{
    let ck = k_op_count_bytes();
    let op_count = read_count(data, ck.as_slice());
    let id_val = format_u32(proposal_id);
    let mut i: u8 = 0;
    while i < op_count
        invariant
            op_count == op_count_of(data@),
            0 <= i <= op_count,
            id_val@ == dec_digits(proposal_id as nat),
            live_op_spec(data@, proposal_id, now) == live_op_from(data@, proposal_id, now, i),
        decreases op_count - i,
    {
        let key = make_composite_key(p_op_bytes().as_slice(), i, s_prop_bytes().as_slice());
        match find_value(data, key.as_slice()) {
            Some(stored) => {
                if stored.len() == id_val.len() && range_eq(stored, 0, stored.len(), id_val.as_slice()) {
                    proof {
                        assert(stored@.subrange(0, stored@.len() as int) =~= stored@);
                    }
                    let st = get_operation_state(data, i, now);
                    if st == OP_STATE_PENDING || st == OP_STATE_READY {
                        return Some(i);
                    }
                } else {
                    proof {
                        assert(stored@.subrange(0, stored@.len() as int) =~= stored@);
                        assert(lookup(data@, op_key(i, s_prop())) != Some(
                            dec_digits(proposal_id as nat),
                        ));
                    }
                }
            },
            None => {
                proof {
                    assert(lookup(data@, op_key(i, s_prop())) != Some(
                        dec_digits(proposal_id as nat),
                    ));
                }
            },
        }
        i = i + 1;
    }
    None
}

/// The five entries appended by a successful `schedule`: the bumped
/// operation count, then the operation's id, linked proposal, ready
/// time, and pending state.
pub open spec fn schedule_tail(data: Seq<u8>, proposal_id: u32, now: u32, delay: u32) -> Seq<
    Seq<u8>,
> {
    let n = op_count_of(data);
    let id = operation_id_hash(proposal_id, now, n);
    let ready = (now + delay) as u32;
    seq![
        entry_of(k_op_count(), dec_digits((n + 1) as nat)),
        entry_of(op_key(n, s_id()), dec_digits(id as nat)),
        entry_of(op_key(n, s_prop()), dec_digits(proposal_id as nat)),
        entry_of(op_key(n, s_ready()), dec_digits(ready as nat)),
        entry_of(op_key(n, s_state()), seq![49u8]),
    ]
}

/// Entry list after a successful `schedule`.
pub open spec fn schedule_entries(data: Seq<u8>, proposal_id: u32, now: u32, delay: u32) -> Seq<
    Seq<u8>,
> {
    drop_key(record_entries(data), k_op_count()) + schedule_tail(data, proposal_id, now, delay)
}

/// What the appended schedule tail resolves `q` to.
pub open spec fn schedule_tail_map(
    data: Seq<u8>,
    proposal_id: u32,
    now: u32,
    delay: u32,
    q: Seq<u8>,
) -> Option<Seq<u8>> {
    let n = op_count_of(data);
    let id = operation_id_hash(proposal_id, now, n);
    let ready = (now + delay) as u32;
    if q == k_op_count() {
        Some(dec_digits((n + 1) as nat))
    } else if q == op_key(n, s_id()) {
        Some(dec_digits(id as nat))
    } else if q == op_key(n, s_prop()) {
        Some(dec_digits(proposal_id as nat))
    } else if q == op_key(n, s_ready()) {
        Some(dec_digits(ready as nat))
    } else if q == op_key(n, s_state()) {
        Some(seq![49u8])
    } else {
        None
    }
}

/// No field of operation slot `n` is present yet.
pub open spec fn op_slot_fresh(data: Seq<u8>, n: u8) -> bool {
    &&& lookup(data, op_key(n, s_id())) is None
    &&& lookup(data, op_key(n, s_prop())) is None
    &&& lookup(data, op_key(n, s_ready())) is None
    &&& lookup(data, op_key(n, s_state())) is None
}

/// The keys a successful `schedule` writes.
pub open spec fn schedule_touches(data: Seq<u8>, q: Seq<u8>) -> bool {
    let n = op_count_of(data);
    q == k_op_count() || q == op_key(n, s_id()) || q == op_key(n, s_prop()) || q == op_key(
        n,
        s_ready(),
    ) || q == op_key(n, s_state())
}

/// What the schedule tail answers, entry by entry.
proof fn lemma_schedule_tail_lookup(data: Seq<u8>, proposal_id: u32, now: u32, delay: u32, q: Seq<u8>)
    ensures
        lookup_in(schedule_tail(data, proposal_id, now, delay), q) == schedule_tail_map(
            data,
            proposal_id,
            now,
            delay,
            q,
        ),
{
    let n = op_count_of(data);
    let t = schedule_tail(data, proposal_id, now, delay);
    let id = operation_id_hash(proposal_id, now, n);
    let ready = (now + delay) as u32;
    lemma_schedule_keys_clean(n);
    lemma_entry_of(k_op_count(), dec_digits((n + 1) as nat));
    lemma_entry_of(op_key(n, s_id()), dec_digits(id as nat));
    lemma_entry_of(op_key(n, s_prop()), dec_digits(proposal_id as nat));
    lemma_entry_of(op_key(n, s_ready()), dec_digits(ready as nat));
    lemma_entry_of(op_key(n, s_state()), seq![49u8]);
    lemma_suffixes_distinct();
    lemma_key_suffix_distinct(p_op(), n, s_id(), s_prop());
    lemma_key_suffix_distinct(p_op(), n, s_id(), s_ready());
    lemma_key_suffix_distinct(p_op(), n, s_id(), s_state());
    lemma_key_suffix_distinct(p_op(), n, s_prop(), s_ready());
    lemma_key_suffix_distinct(p_op(), n, s_prop(), s_state());
    lemma_key_suffix_distinct(p_op(), n, s_ready(), s_state());
    lemma_op_count_key_distinct(n, s_id());
    lemma_op_count_key_distinct(n, s_prop());
    lemma_op_count_key_distinct(n, s_ready());
    lemma_op_count_key_distinct(n, s_state());
    if q == k_op_count() {
        lemma_lookup_in_at(t, q, 0);
    } else if q == op_key(n, s_id()) {
        lemma_lookup_in_at(t, q, 1);
    } else if q == op_key(n, s_prop()) {
        lemma_lookup_in_at(t, q, 2);
    } else if q == op_key(n, s_ready()) {
        lemma_lookup_in_at(t, q, 3);
    } else if q == op_key(n, s_state()) {
        lemma_lookup_in_at(t, q, 4);
    } else {
        lemma_lookup_in_none(t, q);
    }
}

/// The operation field keys and count key are clean.
proof fn lemma_schedule_keys_clean(n: u8)
    ensures
        clean_key(k_op_count()),
        clean_key(op_key(n, s_id())),
        clean_key(op_key(n, s_prop())),
        clean_key(op_key(n, s_ready())),
        clean_key(op_key(n, s_state())),
{
    lemma_composite_key_clean(p_op(), n, s_id());
    lemma_composite_key_clean(p_op(), n, s_prop());
    lemma_composite_key_clean(p_op(), n, s_ready());
    lemma_composite_key_clean(p_op(), n, s_state());
}

/// The schedule entry list is well formed.
proof fn lemma_schedule_wf(data: Seq<u8>, proposal_id: u32, now: u32, delay: u32)
    ensures
        crate::record::all_wf(schedule_entries(data, proposal_id, now, delay)),
{
    let n = op_count_of(data);
    let es0 = record_entries(data);
    let d1 = drop_key(es0, k_op_count());
    let t = schedule_tail(data, proposal_id, now, delay);
    let es1 = schedule_entries(data, proposal_id, now, delay);
    let id = operation_id_hash(proposal_id, now, n);
    let ready = (now + delay) as u32;
    lemma_record_entries_wf(data);
    lemma_drop_wf(es0, k_op_count());
    lemma_schedule_keys_clean(n);
    lemma_clean_digits((n + 1) as nat);
    lemma_clean_digits(id as nat);
    lemma_clean_digits(proposal_id as nat);
    lemma_clean_digits(ready as nat);
    assert(clean_value(seq![49u8]));
    lemma_entry_of(k_op_count(), dec_digits((n + 1) as nat));
    lemma_entry_of(op_key(n, s_id()), dec_digits(id as nat));
    lemma_entry_of(op_key(n, s_prop()), dec_digits(proposal_id as nat));
    lemma_entry_of(op_key(n, s_ready()), dec_digits(ready as nat));
    lemma_entry_of(op_key(n, s_state()), seq![49u8]);
    assert forall|k: int| 0 <= k < es1.len() implies crate::record::wf_entry(
        #[trigger] es1[k],
    ) by {
        if k < d1.len() {
            assert(es1[k] == d1[k]);
        } else {
            assert(es1[k] == t[k - d1.len()]);
        }
    }
}

/// Every lookup on a sealed schedule record.
#[verifier::rlimit(60)]
proof fn lemma_schedule_map(data: Seq<u8>, proposal_id: u32, now: u32, delay: u32, nd: Seq<u8>)
    requires
        nd == joined(schedule_entries(data, proposal_id, now, delay)),
    ensures
        forall|q: Seq<u8>| #[trigger]
            lookup(nd, q) == (if q != k_op_count() && lookup(data, q) is Some {
                lookup(data, q)
            } else {
                schedule_tail_map(data, proposal_id, now, delay, q)
            }),
{
    let es0 = record_entries(data);
    let d1 = drop_key(es0, k_op_count());
    let t = schedule_tail(data, proposal_id, now, delay);
    let es1 = schedule_entries(data, proposal_id, now, delay);
    lemma_schedule_wf(data, proposal_id, now, delay);
    lemma_entries_of_joined(es1);
    assert forall|q: Seq<u8>| #[trigger] lookup(nd, q) == (if q != k_op_count() && lookup(data, q)
        is Some {
        lookup(data, q)
    } else {
        schedule_tail_map(data, proposal_id, now, delay, q)
    }) by {
        lemma_lookup_in_append(d1, t, q);
        lemma_lookup_drop(es0, k_op_count(), q);
        lemma_schedule_tail_lookup(data, proposal_id, now, delay, q);
    }
}

/// Contract of [`schedule`].
pub open spec fn schedule_post(
    data: Seq<u8>,
    proposal_id: u32,
    now: u32,
    delay: u32,
    r: Result<(Vec<u8>, u32), i32>,
) -> bool {
    let n = op_count_of(data);
    let id = operation_id_hash(proposal_id, now, n);
    let es1 = schedule_entries(data, proposal_id, now, delay);
    let ready = (now + delay) as u32;
    &&& (r == Err::<(Vec<u8>, u32), i32>(ERR_TOO_EARLY) <==> delay < TIMELOCK_MIN_DELAY)
    &&& (r == Err::<(Vec<u8>, u32), i32>(ERR_OP_ALREADY_QUEUED) <==> delay >= TIMELOCK_MIN_DELAY
        && live_op_spec(data, proposal_id, now) is Some)
    &&& (r is Ok <==> delay >= TIMELOCK_MIN_DELAY && live_op_spec(data, proposal_id, now) is None
        && joined(es1).len() <= MAX_RECORD_SIZE)
    &&& (r is Ok ==> ({
        let nd = r->Ok_0.0@;
        &&& r->Ok_0.1 == id
        &&& r->Ok_0.1 != 0
        &&& nd == joined(es1)
        &&& op_count_of(nd) == n + 1
        &&& (op_slot_fresh(data, n) ==> op_state_stored(nd, n) == OP_STATE_PENDING && op_ready_at(
            nd,
            n,
        ) == ready && lookup(nd, op_key(n, s_prop())) == Some(dec_digits(proposal_id as nat))
            && lookup(nd, op_key(n, s_id())) == Some(dec_digits(id as nat)))
        &&& (forall|q: Seq<u8>|
            !schedule_touches(data, q) ==> #[trigger] lookup(nd, q) == lookup(data, q))
    }))
    &&& (r is Err ==> r->Err_0 == ERR_TOO_EARLY || r->Err_0 == ERR_OP_ALREADY_QUEUED || r->Err_0
        == ERR_BAD_CONFIG)
}

/// Schedule an operation for the proposal.  The delay must reach the
/// minimum, and no live (pending or ready) operation may already be
/// linked to the same proposal -- a done, canceled, or expired one does
/// not block rescheduling; `ready_at` becomes `now + delay`.  The caller keeps the
/// ready time within the 32-bit clock and the operation count within
/// its byte.
pub fn schedule(data: &[u8], proposal_id: u32, current_time: u32, delay: u32) -> (r: Result<
    (Vec<u8>, u32),
    i32,
>)
    requires
        current_time + delay <= u32::MAX,
        op_count_of(data@) < 255,
    ensures
        schedule_post(data@, proposal_id, current_time, delay, r),
{
    if delay < TIMELOCK_MIN_DELAY {
        return Err(ERR_TOO_EARLY);
    }
    if find_live_operation(data, proposal_id, current_time).is_some() {
        return Err(ERR_OP_ALREADY_QUEUED);
    }
    let ck = k_op_count_bytes();
    let op_count = read_count(data, ck.as_slice());
    let op_id = hash_operation(proposal_id, current_time, op_count);
    let ghost es1 = schedule_entries(data@, proposal_id, current_time, delay);
    let entries0 = split_record(data);
    let mut entries = drop_entries(&entries0, ck.as_slice());
    let n = op_count;

    let count_val = format_u8(n + 1);
    entries.push(make_entry(ck.as_slice(), count_val.as_slice()));

    let id_key = make_composite_key(p_op_bytes().as_slice(), n, s_id_bytes().as_slice());
    let id_val = format_u32(op_id);
    entries.push(make_entry(id_key.as_slice(), id_val.as_slice()));

    let pr_key = make_composite_key(p_op_bytes().as_slice(), n, s_prop_bytes().as_slice());
    let pr_val = format_u32(proposal_id);
    entries.push(make_entry(pr_key.as_slice(), pr_val.as_slice()));

    let ready_at = current_time + delay;
    let rd_key = make_composite_key(p_op_bytes().as_slice(), n, s_ready_bytes().as_slice());
    let rd_val = format_u32(ready_at);
    entries.push(make_entry(rd_key.as_slice(), rd_val.as_slice()));

    let st_key = make_composite_key(p_op_bytes().as_slice(), n, s_state_bytes().as_slice());
    let one: Vec<u8> = vec![49];
    proof {
        assert(one@ =~= seq![49u8]);
    }
    entries.push(make_entry(st_key.as_slice(), one.as_slice()));

    proof {
        assert(views(entries@) =~= es1);
        lemma_schedule_wf(data@, proposal_id, current_time, delay);
    }
    match seal_record(&entries) {
        Ok(nd) => {
            proof {
                lemma_schedule_ok(data@, proposal_id, current_time, delay, nd@);
            }
            Ok((nd, op_id))
        },
        Err(e) => Err(e),
    }
}

/// Count and field facts about a sealed schedule record.
#[verifier::rlimit(80)]
proof fn lemma_schedule_ok(data: Seq<u8>, proposal_id: u32, now: u32, delay: u32, nd: Seq<u8>)
    requires
        nd == joined(schedule_entries(data, proposal_id, now, delay)),
        op_count_of(data) < 255,
    ensures
        ({
            let n = op_count_of(data);
            let id = operation_id_hash(proposal_id, now, n);
            let ready = (now + delay) as u32;
            &&& op_count_of(nd) == n + 1
            &&& (op_slot_fresh(data, n) ==> op_state_stored(nd, n) == OP_STATE_PENDING
                && op_ready_at(nd, n) == ready && lookup(nd, op_key(n, s_prop())) == Some(
                dec_digits(proposal_id as nat),
            ) && lookup(nd, op_key(n, s_id())) == Some(dec_digits(id as nat)))
            &&& (forall|q: Seq<u8>|
                !schedule_touches(data, q) ==> #[trigger] lookup(nd, q) == lookup(data, q))
        }),
{
    let n = op_count_of(data);
    let id = operation_id_hash(proposal_id, now, n);
    let ready = (now + delay) as u32;
    lemma_schedule_map(data, proposal_id, now, delay, nd);
    lemma_suffixes_distinct();
    lemma_key_suffix_distinct(p_op(), n, s_id(), s_prop());
    lemma_key_suffix_distinct(p_op(), n, s_id(), s_ready());
    lemma_key_suffix_distinct(p_op(), n, s_id(), s_state());
    lemma_key_suffix_distinct(p_op(), n, s_prop(), s_ready());
    lemma_key_suffix_distinct(p_op(), n, s_prop(), s_state());
    lemma_key_suffix_distinct(p_op(), n, s_ready(), s_state());
    lemma_op_count_key_distinct(n, s_id());
    lemma_op_count_key_distinct(n, s_prop());
    lemma_op_count_key_distinct(n, s_ready());
    lemma_op_count_key_distinct(n, s_state());
    assert(lookup(nd, k_op_count()) == Some(dec_digits((n + 1) as nat)));
    lemma_dec_digits_all_digits((n + 1) as nat);
    lemma_dec_digits_value((n + 1) as nat);
    assert(op_count_of(nd) == n + 1);
    if op_slot_fresh(data, n) {
        assert(lookup(nd, op_key(n, s_state())) == Some(seq![49u8]));
        assert(crate::num::parse_digit_spec(seq![49u8]) == Some(1u8));
        assert(op_state_stored(nd, n) == OP_STATE_PENDING);
        assert(lookup(nd, op_key(n, s_ready())) == Some(dec_digits(ready as nat)));
        lemma_dec_digits_all_digits(ready as nat);
        lemma_dec_digits_value(ready as nat);
        assert(op_ready_at(nd, n) == ready);
        assert(lookup(nd, op_key(n, s_prop())) == Some(dec_digits(proposal_id as nat)));
        assert(lookup(nd, op_key(n, s_id())) == Some(dec_digits(id as nat)));
    }
    assert forall|q: Seq<u8>| !schedule_touches(data, q) implies #[trigger] lookup(nd, q) == lookup(
        data,
        q,
    ) by {
        assert(lookup(nd, q) == (if q != k_op_count() && lookup(data, q) is Some {
            lookup(data, q)
        } else {
            schedule_tail_map(data, proposal_id, now, delay, q)
        }));
    }
}

/// Rewrite one field of an operation.
fn update_op_field(data: &[u8], op_index: u8, field_suffix: &[u8], new_value: &[u8]) -> (r: Result<
    Vec<u8>,
    i32,
>)
    requires
        clean_key(field_suffix@),
        clean_value(new_value@),
    ensures
        ({
            let key = op_key(op_index, field_suffix@);
            let es0 = record_entries(data@);
            let es1 = rewrite_all(es0, key, new_value@);
            &&& (r is Ok <==> has_key(es0, key) && joined(es1).len() <= MAX_RECORD_SIZE)
            &&& r is Ok ==> r->Ok_0@ == joined(es1) && lookup(r->Ok_0@, key) == Some(new_value@)
                && (forall|q: Seq<u8>|
                q != key ==> #[trigger] lookup(r->Ok_0@, q) == lookup(data@, q))
            &&& (!has_key(es0, key) ==> r == Err::<Vec<u8>, i32>(ERR_PROPOSAL_NOT_FOUND))
            &&& (has_key(es0, key) && joined(es1).len() > MAX_RECORD_SIZE ==> r == Err::<
                Vec<u8>,
                i32,
            >(ERR_BAD_CONFIG))
        }),
{
    let key = make_composite_key(p_op_bytes().as_slice(), op_index, field_suffix);
    proof {
        lemma_composite_key_clean(p_op(), op_index, field_suffix@);
    }
    crate::record::update_record(data, key.as_slice(), new_value, ERR_PROPOSAL_NOT_FOUND)
}

/// Contract of [`execute`]: only a ready operation may run; its stored
/// state becomes done and nothing else changes.
pub open spec fn execute_post(data: Seq<u8>, i: u8, now: u32, r: Result<Vec<u8>, i32>) -> bool {
    let st = operation_state_spec(data, i, now);
    let skey = op_key(i, s_state());
    let es0 = record_entries(data);
    let es1 = rewrite_all(es0, skey, seq![51u8]);
    &&& (st == OP_STATE_EXPIRED ==> r == Err::<Vec<u8>, i32>(ERR_OP_EXPIRED))
    &&& (st != OP_STATE_EXPIRED && st != OP_STATE_READY ==> r == Err::<Vec<u8>, i32>(
        ERR_OP_NOT_READY,
    ))
    &&& (st == OP_STATE_READY ==> {
        &&& (r is Ok <==> has_key(es0, skey) && joined(es1).len() <= MAX_RECORD_SIZE)
        &&& (r is Ok ==> r->Ok_0@ == joined(es1) && op_state_stored(r->Ok_0@, i) == OP_STATE_DONE
            && (forall|q: Seq<u8>|
            q != skey ==> #[trigger] lookup(r->Ok_0@, q) == lookup(data, q)))
        &&& (r is Err ==> r->Err_0 == ERR_PROPOSAL_NOT_FOUND || r->Err_0 == ERR_BAD_CONFIG)
        &&& (r is Err && has_key(es0, skey) ==> r->Err_0 == ERR_BAD_CONFIG)
    })
}

/// Execute a ready operation: its stored state becomes done.  An
/// expired operation is refused with its own error.
pub fn execute(data: &[u8], operation_index: u8, current_time: u32) -> (r: Result<Vec<u8>, i32>)
    ensures
        execute_post(data@, operation_index, current_time, r),
{
    let state = get_operation_state(data, operation_index, current_time);
    if state == OP_STATE_EXPIRED {
        return Err(ERR_OP_EXPIRED);
    }
    if state != OP_STATE_READY {
        return Err(ERR_OP_NOT_READY);
    }
    let three: Vec<u8> = vec![51];
    proof {
        assert(three@ =~= seq![51u8]);
        assert(clean_value(seq![51u8]));
    }
    let r = update_op_field(data, operation_index, s_state_bytes().as_slice(), three.as_slice());
    proof {
        if r is Ok {
            assert(lookup(r->Ok_0@, op_key(operation_index, s_state())) == Some(seq![51u8]));
            assert(crate::num::parse_digit_spec(seq![51u8]) == Some(3u8));
        }
    }
    r
}

/// Contract of [`cancel`]: only a pending or ready operation may be
/// canceled; its stored state returns to unset.
pub open spec fn cancel_op_post(data: Seq<u8>, i: u8, now: u32, r: Result<Vec<u8>, i32>) -> bool {
    let st = operation_state_spec(data, i, now);
    let skey = op_key(i, s_state());
    let es0 = record_entries(data);
    let es1 = rewrite_all(es0, skey, seq![48u8]);
    &&& (st != OP_STATE_PENDING && st != OP_STATE_READY ==> r == Err::<Vec<u8>, i32>(
        ERR_OP_NOT_READY,
    ))
    &&& (st == OP_STATE_PENDING || st == OP_STATE_READY ==> {
        &&& (r is Ok <==> has_key(es0, skey) && joined(es1).len() <= MAX_RECORD_SIZE)
        &&& (r is Ok ==> r->Ok_0@ == joined(es1) && op_state_stored(r->Ok_0@, i) == OP_STATE_UNSET
            && (forall|q: Seq<u8>|
            q != skey ==> #[trigger] lookup(r->Ok_0@, q) == lookup(data, q)))
        &&& (r is Err ==> r->Err_0 == ERR_PROPOSAL_NOT_FOUND || r->Err_0 == ERR_BAD_CONFIG)
    })
}

/// Cancel a pending or ready operation: its stored state returns to
/// unset.
pub fn cancel(data: &[u8], operation_index: u8, current_time: u32) -> (r: Result<Vec<u8>, i32>)
    ensures
        cancel_op_post(data@, operation_index, current_time, r),
{
    let state = get_operation_state(data, operation_index, current_time);
    if state != OP_STATE_PENDING && state != OP_STATE_READY {
        return Err(ERR_OP_NOT_READY);
    }
    let zero: Vec<u8> = vec![48];
    proof {
        assert(zero@ =~= seq![48u8]);
        assert(clean_value(seq![48u8]));
    }
    let r = update_op_field(data, operation_index, s_state_bytes().as_slice(), zero.as_slice());
    proof {
        if r is Ok {
            assert(lookup(r->Ok_0@, op_key(operation_index, s_state())) == Some(seq![48u8]));
            assert(crate::num::parse_digit_spec(seq![48u8]) == Some(0u8));
        }
    }
    r
}

} // verus!
