//! Predecessor dependencies between operations.

use token_dao::config::{ERR_OP_NOT_READY, ROLE_ADMIN, ROLE_EXECUTOR, ROLE_PROPOSER, TIMELOCK_MIN_DELAY};
use token_dao::hex::to_hex;
use token_dao::keys::build_indexed_key;
use token_dao::num::{format_u64, format_u8};
use token_dao::operations::{
    execute_with_predecessor_check, get_predecessor, schedule_with_predecessor,
};
use token_dao::record::{write_entry, write_separator};
use token_dao::timelock::{execute, schedule};

fn mock_account(seed: u8) -> [u8; 20] {
    let mut account = [0u8; 20];
    account[0] = seed;
    account[19] = seed;
    account
}

fn alice() -> [u8; 20] {
    mock_account(0xAA)
}

fn bob() -> [u8; 20] {
    mock_account(0xBB)
}

fn carol() -> [u8; 20] {
    mock_account(0xCC)
}

fn build_dao_data(members: &[(&[u8; 20], u64, u8)]) -> Vec<u8> {
    let mut data = vec![0u8; 4096];
    let count_val = format_u8(members.len() as u8);
    let mut pos = write_entry(&mut data, 0, b"member_count", &count_val);
    for (i, (account, power, roles)) in members.iter().enumerate() {
        pos = write_separator(&mut data, pos);
        let mut key = vec![0u8; 16];
        let klen = build_indexed_key(b"member_", i as u8, &mut key);
        let mut val: Vec<u8> = Vec::new();
        val.extend_from_slice(&to_hex(&account[..]));
        val.push(b':');
        val.extend_from_slice(&format_u64(*power));
        val.push(b':');
        val.push(b'0' + roles);
        pos = write_entry(&mut data, pos, &key[..klen], &val);
    }
    data.truncate(pos);
    data
}

#[test]
fn test_schedule_with_predecessor() {
    let data = build_dao_data(&[(&alice(), 200_000_000, ROLE_PROPOSER | ROLE_ADMIN)]);

    let (d1, op1_id) = schedule(&data, 100, 1000, TIMELOCK_MIN_DELAY).unwrap();

    let result = schedule_with_predecessor(&d1, 200, op1_id, 2000, TIMELOCK_MIN_DELAY);
    assert!(result.is_ok());

    let (d2, _op2_id) = result.unwrap();

    let pred = get_predecessor(&d2, 1);
    assert_eq!(pred, op1_id);
}

#[test]
fn test_predecessor_zero_means_none() {
    let data = build_dao_data(&[(&alice(), 200_000_000, ROLE_ADMIN)]);

    let (d1, _) = schedule(&data, 100, 1000, TIMELOCK_MIN_DELAY).unwrap();

    let pred = get_predecessor(&d1, 0);
    assert_eq!(pred, 0);
}

#[test]
fn test_execute_blocked_by_predecessor() {
    let data = build_dao_data(&[(&alice(), 200_000_000, ROLE_ADMIN | ROLE_EXECUTOR)]);

    let (d1, op1_id) = schedule(&data, 100, 1000, TIMELOCK_MIN_DELAY).unwrap();

    let (d2, _op2_id) =
        schedule_with_predecessor(&d1, 200, op1_id, 2000, TIMELOCK_MIN_DELAY).unwrap();

    let exec_time = 2000 + TIMELOCK_MIN_DELAY + 1;
    let result = execute_with_predecessor_check(&d2, 1, exec_time);
    assert_eq!(result, Err(ERR_OP_NOT_READY));
}

#[test]
fn test_execute_after_predecessor_done() {
    let data = build_dao_data(&[(&alice(), 200_000_000, ROLE_ADMIN | ROLE_EXECUTOR)]);

    let (d1, op1_id) = schedule(&data, 100, 1000, TIMELOCK_MIN_DELAY).unwrap();

    let (d2, _) = schedule_with_predecessor(&d1, 200, op1_id, 2000, TIMELOCK_MIN_DELAY).unwrap();

    let exec_time1 = 1000 + TIMELOCK_MIN_DELAY + 1;
    let d3 = execute(&d2, 0, exec_time1).unwrap();

    let exec_time2 = 2000 + TIMELOCK_MIN_DELAY + 1;
    let result = execute_with_predecessor_check(&d3, 1, exec_time2);
    assert!(result.is_ok());
}

#[test]
fn test_execute_no_predecessor_works() {
    let data = build_dao_data(&[(&alice(), 200_000_000, ROLE_ADMIN | ROLE_EXECUTOR)]);

    let (d1, _) = schedule(&data, 100, 1000, TIMELOCK_MIN_DELAY).unwrap();

    let exec_time = 1000 + TIMELOCK_MIN_DELAY + 1;
    let result = execute_with_predecessor_check(&d1, 0, exec_time);
    assert!(result.is_ok());
}
