//! Timelock scheduling, state derivation, execution, cancellation.

use token_dao::config::{
    ERR_OP_ALREADY_QUEUED, ERR_PROPOSAL_NOT_FOUND, ERR_TOO_EARLY, OP_STATE_DONE,
    OP_STATE_PENDING, OP_STATE_READY, OP_STATE_UNSET, ROLE_ADMIN, ROLE_EXECUTOR, ROLE_PROPOSER,
    TIMELOCK_MIN_DELAY,
};
use token_dao::hex::to_hex;
use token_dao::keys::{build_indexed_key, build_prop_key};
use token_dao::num::{format_u32, format_u64, format_u8};
use token_dao::record::{write_entry, write_separator};
use token_dao::timelock::{
    cancel, execute, find_operation_by_proposal, get_operation_state, get_timestamp,
    is_operation_done, is_operation_pending, is_operation_ready, schedule,
};

fn mock_account(seed: u8) -> [u8; 20] {
    let mut account = [0u8; 20];
    account[0] = seed;
    account[19] = seed;
    account
}

fn alice() -> [u8; 20] {
    mock_account(0xAA)
}

fn bob() -> [u8; 20] {
    mock_account(0xBB)
}

fn carol() -> [u8; 20] {
    mock_account(0xCC)
}

fn build_dao_data(members: &[(&[u8; 20], u64, u8)]) -> Vec<u8> {
    let mut data = vec![0u8; 4096];
    let count_val = format_u8(members.len() as u8);
    let mut pos = write_entry(&mut data, 0, b"member_count", &count_val);
    for (i, (account, power, roles)) in members.iter().enumerate() {
        pos = write_separator(&mut data, pos);
        let mut key = vec![0u8; 16];
        let klen = build_indexed_key(b"member_", i as u8, &mut key);
        let mut val: Vec<u8> = Vec::new();
        val.extend_from_slice(&to_hex(&account[..]));
        val.push(b':');
        val.extend_from_slice(&format_u64(*power));
        val.push(b':');
        val.push(b'0' + roles);
        pos = write_entry(&mut data, pos, &key[..klen], &val);
    }
    data.truncate(pos);
    data
}

fn build_dao_with_proposal(
    members: &[(&[u8; 20], u64, u8)],
    proposal_id: u32,
    proposer: &[u8; 20],
    vote_start: u32,
    vote_end: u32,
    state: u8,
) -> Vec<u8> {
    let base = build_dao_data(members);
    let mut data = vec![0u8; 4096];
    data[..base.len()].copy_from_slice(&base);
    let mut pos = base.len();
    pos = write_separator(&mut data, pos);
    pos = write_entry(&mut data, pos, b"proposal_count", b"1");
    let mut key_buf = vec![0u8; 32];

    pos = write_separator(&mut data, pos);
    let klen = build_prop_key(b"prop_", 0, b"_id", &mut key_buf);
    let idv = format_u32(proposal_id);
    pos = write_entry(&mut data, pos, &key_buf[..klen], &idv);

    pos = write_separator(&mut data, pos);
    let klen = build_prop_key(b"prop_", 0, b"_proposer", &mut key_buf);
    let hexv = to_hex(&proposer[..]);
    pos = write_entry(&mut data, pos, &key_buf[..klen], &hexv);

    pos = write_separator(&mut data, pos);
    let klen = build_prop_key(b"prop_", 0, b"_state", &mut key_buf);
    let state_val = [b'0' + state];
    pos = write_entry(&mut data, pos, &key_buf[..klen], &state_val);

    pos = write_separator(&mut data, pos);
    let klen = build_prop_key(b"prop_", 0, b"_start", &mut key_buf);
    let sv = format_u32(vote_start);
    pos = write_entry(&mut data, pos, &key_buf[..klen], &sv);

    pos = write_separator(&mut data, pos);
    let klen = build_prop_key(b"prop_", 0, b"_end", &mut key_buf);
    let ev = format_u32(vote_end);
    pos = write_entry(&mut data, pos, &key_buf[..klen], &ev);

    for suffix in [b"_for" as &[u8], b"_against", b"_abstain"] {
        pos = write_separator(&mut data, pos);
        let klen = build_prop_key(b"prop_", 0, suffix, &mut key_buf);
        pos = write_entry(&mut data, pos, &key_buf[..klen], b"0");
    }

    pos = write_separator(&mut data, pos);
    let klen = build_prop_key(b"prop_", 0, b"_desc", &mut key_buf);
    let dv = format_u32(12345);
    pos = write_entry(&mut data, pos, &key_buf[..klen], &dv);

    data.truncate(pos);
    data
}

fn build_dao_with_operation(
    members: &[(&[u8; 20], u64, u8)],
    proposal_id: u32,
    op_id: u32,
    ready_at: u32,
    op_state: u8,
) -> Vec<u8> {
    let base = build_dao_data(members);
    let mut data = vec![0u8; 4096];
    data[..base.len()].copy_from_slice(&base);
    let mut pos = base.len();

    let mut key_buf = vec![0u8; 32];

    pos = write_separator(&mut data, pos);
    pos = write_entry(&mut data, pos, b"op_count", b"1");

    pos = write_separator(&mut data, pos);
    let klen = build_prop_key(b"op_", 0, b"_id", &mut key_buf);
    let v = format_u32(op_id);
    pos = write_entry(&mut data, pos, &key_buf[..klen], &v);

    pos = write_separator(&mut data, pos);
    let klen = build_prop_key(b"op_", 0, b"_prop", &mut key_buf);
    let v = format_u32(proposal_id);
    pos = write_entry(&mut data, pos, &key_buf[..klen], &v);

    pos = write_separator(&mut data, pos);
    let klen = build_prop_key(b"op_", 0, b"_ready", &mut key_buf);
    let v = format_u32(ready_at);
    pos = write_entry(&mut data, pos, &key_buf[..klen], &v);

    pos = write_separator(&mut data, pos);
    let klen = build_prop_key(b"op_", 0, b"_state", &mut key_buf);
    let state_val = [b'0' + op_state];
    pos = write_entry(&mut data, pos, &key_buf[..klen], &state_val);

    data.truncate(pos);
    data
}

#[test]
fn test_schedule_success() {
    let data = build_dao_data(&[(&alice(), 200_000_000, ROLE_PROPOSER | ROLE_ADMIN)]);

    let result = schedule(&data, 42, 1000, TIMELOCK_MIN_DELAY);
    assert!(result.is_ok());

    let (new_data, op_id) = result.unwrap();
    assert!(op_id != 0);

    let found = find_operation_by_proposal(&new_data, 42);
    assert!(found.is_ok());
}

#[test]
fn test_schedule_delay_too_short() {
    let data = build_dao_data(&[(&alice(), 200_000_000, ROLE_ADMIN)]);

    let result = schedule(&data, 42, 1000, TIMELOCK_MIN_DELAY - 1);
    assert_eq!(result, Err(ERR_TOO_EARLY));
}

#[test]
fn test_schedule_duplicate_rejected() {
    let data = build_dao_data(&[(&alice(), 200_000_000, ROLE_ADMIN)]);

    let (data1, _) = schedule(&data, 42, 1000, TIMELOCK_MIN_DELAY).unwrap();

    let result = schedule(&data1, 42, 2000, TIMELOCK_MIN_DELAY);
    assert_eq!(result, Err(ERR_OP_ALREADY_QUEUED));
}

#[test]
fn test_schedule_sets_correct_ready_time() {
    let data = build_dao_data(&[(&alice(), 200_000_000, ROLE_ADMIN)]);

    let current_time = 1000;
    let (new_data, _) = schedule(&data, 42, current_time, TIMELOCK_MIN_DELAY).unwrap();

    let expected_ready = current_time + TIMELOCK_MIN_DELAY;
    let actual_ready = get_timestamp(&new_data, 0);
    assert_eq!(actual_ready, expected_ready);
}

#[test]
fn test_state_pending_before_ready() {
    let ready_at = 200_000;
    let data = build_dao_with_operation(
        &[(&alice(), 200_000_000, ROLE_ADMIN)],
        42,
        99,
        ready_at,
        OP_STATE_PENDING,
    );

    let state = get_operation_state(&data, 0, 100_000);
    assert_eq!(state, OP_STATE_PENDING);
    assert!(is_operation_pending(&data, 0, 100_000));
    assert!(!is_operation_ready(&data, 0, 100_000));
}

#[test]
fn test_state_ready_after_timer() {
    let ready_at = 200_000;
    let data = build_dao_with_operation(
        &[(&alice(), 200_000_000, ROLE_ADMIN)],
        42,
        99,
        ready_at,
        OP_STATE_PENDING,
    );

    let state = get_operation_state(&data, 0, 200_001);
    assert_eq!(state, OP_STATE_READY);
    assert!(is_operation_ready(&data, 0, 200_001));
}

#[test]
fn test_state_ready_at_exact_time() {
    let ready_at = 200_000;
    let data = build_dao_with_operation(
        &[(&alice(), 200_000_000, ROLE_ADMIN)],
        42,
        99,
        ready_at,
        OP_STATE_PENDING,
    );

    let state = get_operation_state(&data, 0, ready_at);
    assert_eq!(state, OP_STATE_READY);
}

#[test]
fn test_state_done() {
    let data = build_dao_with_operation(
        &[(&alice(), 200_000_000, ROLE_ADMIN)],
        42,
        99,
        200_000,
        OP_STATE_DONE,
    );

    assert!(is_operation_done(&data, 0));
    assert_eq!(get_operation_state(&data, 0, 300_000), OP_STATE_DONE);
}

#[test]
fn test_execute_ready_operation() {
    let ready_at = 200_000;
    let data = build_dao_with_operation(
        &[(&alice(), 200_000_000, ROLE_ADMIN | ROLE_EXECUTOR)],
        42,
        99,
        ready_at,
        OP_STATE_PENDING,
    );

    let result = execute(&data, 0, 200_001);
    assert!(result.is_ok());

    let new_data = result.unwrap();
    assert!(is_operation_done(&new_data, 0));
}

#[test]
fn test_execute_pending_fails() {
    let ready_at = 200_000;
    let data = build_dao_with_operation(
        &[(&alice(), 200_000_000, ROLE_ADMIN | ROLE_EXECUTOR)],
        42,
        99,
        ready_at,
        OP_STATE_PENDING,
    );

    let result = execute(&data, 0, 100_000);
    assert_eq!(result, Err(token_dao::config::ERR_OP_NOT_READY));
}

#[test]
fn test_execute_already_done_fails() {
    let data = build_dao_with_operation(
        &[(&alice(), 200_000_000, ROLE_ADMIN | ROLE_EXECUTOR)],
        42,
        99,
        200_000,
        OP_STATE_DONE,
    );

    let result = execute(&data, 0, 300_000);
    assert_eq!(result, Err(token_dao::config::ERR_OP_NOT_READY));
}

#[test]
fn test_cancel_pending_operation() {
    let data = build_dao_with_operation(
        &[(&alice(), 200_000_000, ROLE_ADMIN)],
        42,
        99,
        200_000,
        OP_STATE_PENDING,
    );

    let result = cancel(&data, 0, 100_000);
    assert!(result.is_ok());

    let new_data = result.unwrap();
    let state = get_operation_state(&new_data, 0, 300_000);
    assert_eq!(state, OP_STATE_UNSET);
}

#[test]
fn test_cancel_done_fails() {
    let data = build_dao_with_operation(
        &[(&alice(), 200_000_000, ROLE_ADMIN)],
        42,
        99,
        200_000,
        OP_STATE_DONE,
    );

    let result = cancel(&data, 0, 300_000);
    assert_eq!(result, Err(token_dao::config::ERR_OP_NOT_READY));
}

#[test]
fn test_find_operation_found() {
    let data = build_dao_with_operation(
        &[(&alice(), 200_000_000, 0)],
        42,
        99,
        200_000,
        OP_STATE_PENDING,
    );

    assert_eq!(find_operation_by_proposal(&data, 42), Ok(0));
}

#[test]
fn test_find_operation_not_found() {
    let data = build_dao_data(&[(&alice(), 200_000_000, 0)]);
    assert_eq!(find_operation_by_proposal(&data, 999), Err(ERR_PROPOSAL_NOT_FOUND));
}

#[test]
fn test_full_timelock_lifecycle() {
    let data = build_dao_data(&[(
        &alice(),
        200_000_000,
        ROLE_PROPOSER | ROLE_ADMIN | ROLE_EXECUTOR,
    )]);

    let schedule_time = 1000;
    let (d1, _op_id) = schedule(&data, 42, schedule_time, TIMELOCK_MIN_DELAY).unwrap();

    let op_idx = find_operation_by_proposal(&d1, 42).unwrap();
    assert!(is_operation_pending(&d1, op_idx, schedule_time + 1000));

    let early = schedule_time + TIMELOCK_MIN_DELAY - 1;
    assert!(execute(&d1, op_idx, early).is_err());

    let late = schedule_time + TIMELOCK_MIN_DELAY + 1;
    let d2 = execute(&d1, op_idx, late).unwrap();
    assert!(is_operation_done(&d2, op_idx));
}
