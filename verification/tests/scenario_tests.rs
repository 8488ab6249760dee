//! End-to-end scenarios from the design: the proposal voting window,
//! quorum from a single vote, timelock expiry timing, delegation with a
//! snapshot, and the capacity errors.

use token_dao::config::{
    ERR_BAD_CONFIG, ERR_MAX_PROPOSALS, ERR_OP_EXPIRED, MAX_MEMBERS, MAX_PROPOSALS,
    OP_STATE_EXPIRED, OP_STATE_PENDING, OP_STATE_READY, PROPOSAL_STATE_ACTIVE,
    PROPOSAL_STATE_PENDING, PROPOSAL_STATE_SUCCEEDED, ROLE_PROPOSER, TIMELOCK_GRACE_PERIOD,
    TIMELOCK_MIN_DELAY, VOTE_FOR,
};
use token_dao::counting::cast_vote;
use token_dao::delegation::{delegate, get_effective_votes, get_snapshot_votes, snapshot_voting_power};
use token_dao::governor::{get_proposal_state, propose, set_lock};
use token_dao::hex::to_hex;
use token_dao::keys::{build_indexed_key, build_prop_key};
use token_dao::members::{get_votes, set_member};
use token_dao::num::{format_u32, format_u64, format_u8};
use token_dao::record::{write_entry, write_separator};
use token_dao::timelock::{cancel, execute, get_operation_state, schedule};

fn mock_account(seed: u8) -> [u8; 20] {
    let mut account = [0u8; 20];
    account[0] = seed;
    account[19] = seed;
    account
}

fn alice() -> [u8; 20] {
    mock_account(0xAA)
}

fn bob() -> [u8; 20] {
    mock_account(0xBB)
}

fn carol() -> [u8; 20] {
    mock_account(0xCC)
}

fn build_dao_data(members: &[(&[u8; 20], u64, u8)]) -> Vec<u8> {
    let mut data = vec![0u8; 4096];
    let count_val = format_u8(members.len() as u8);
    let mut pos = write_entry(&mut data, 0, b"member_count", &count_val);
    for (i, (account, power, roles)) in members.iter().enumerate() {
        pos = write_separator(&mut data, pos);
        let mut key = vec![0u8; 16];
        let klen = build_indexed_key(b"member_", i as u8, &mut key);
        let mut val: Vec<u8> = Vec::new();
        val.extend_from_slice(&to_hex(&account[..]));
        val.push(b':');
        val.extend_from_slice(&format_u64(*power));
        val.push(b':');
        val.push(b'0' + roles);
        pos = write_entry(&mut data, pos, &key[..klen], &val);
    }
    data.truncate(pos);
    data
}

fn build_dao_with_proposal(
    members: &[(&[u8; 20], u64, u8)],
    proposal_id: u32,
    proposer: &[u8; 20],
    vote_start: u32,
    vote_end: u32,
    state: u8,
) -> Vec<u8> {
    let base = build_dao_data(members);
    let mut data = vec![0u8; 4096];
    data[..base.len()].copy_from_slice(&base);
    let mut pos = base.len();
    pos = write_separator(&mut data, pos);
    pos = write_entry(&mut data, pos, b"proposal_count", b"1");
    let mut key_buf = vec![0u8; 32];

    pos = write_separator(&mut data, pos);
    let klen = build_prop_key(b"prop_", 0, b"_id", &mut key_buf);
    let idv = format_u32(proposal_id);
    pos = write_entry(&mut data, pos, &key_buf[..klen], &idv);

    pos = write_separator(&mut data, pos);
    let klen = build_prop_key(b"prop_", 0, b"_proposer", &mut key_buf);
    let hexv = to_hex(&proposer[..]);
    pos = write_entry(&mut data, pos, &key_buf[..klen], &hexv);

    pos = write_separator(&mut data, pos);
    let klen = build_prop_key(b"prop_", 0, b"_state", &mut key_buf);
    let state_val = [b'0' + state];
    pos = write_entry(&mut data, pos, &key_buf[..klen], &state_val);

    pos = write_separator(&mut data, pos);
    let klen = build_prop_key(b"prop_", 0, b"_start", &mut key_buf);
    let sv = format_u32(vote_start);
    pos = write_entry(&mut data, pos, &key_buf[..klen], &sv);

    pos = write_separator(&mut data, pos);
    let klen = build_prop_key(b"prop_", 0, b"_end", &mut key_buf);
    let ev = format_u32(vote_end);
    pos = write_entry(&mut data, pos, &key_buf[..klen], &ev);

    for suffix in [b"_for" as &[u8], b"_against", b"_abstain"] {
        pos = write_separator(&mut data, pos);
        let klen = build_prop_key(b"prop_", 0, suffix, &mut key_buf);
        pos = write_entry(&mut data, pos, &key_buf[..klen], b"0");
    }

    pos = write_separator(&mut data, pos);
    let klen = build_prop_key(b"prop_", 0, b"_desc", &mut key_buf);
    let dv = format_u32(12345);
    pos = write_entry(&mut data, pos, &key_buf[..klen], &dv);

    data.truncate(pos);
    data
}

#[test]
fn test_scenario_proposal_window() {
    let data = build_dao_data(&[(&alice(), 200_000_000, ROLE_PROPOSER)]);

    let (d1, _id) = propose(&data, &alice(), 12345, 1000, 200_000_000).unwrap();

    assert_eq!(get_proposal_state(&d1, 0, 1000, 200_000_000), PROPOSAL_STATE_PENDING);
    assert_eq!(get_proposal_state(&d1, 0, 5000, 200_000_000), PROPOSAL_STATE_ACTIVE);
    assert_eq!(get_proposal_state(&d1, 0, 1299, 200_000_000), PROPOSAL_STATE_PENDING);
    assert_eq!(get_proposal_state(&d1, 0, 1300, 200_000_000), PROPOSAL_STATE_ACTIVE);
    assert_eq!(get_proposal_state(&d1, 0, 260500, 200_000_000), PROPOSAL_STATE_ACTIVE);
}

#[test]
fn test_scenario_single_vote_reaches_quorum() {
    let members = [
        (&alice(), 200_000_000u64, ROLE_PROPOSER),
        (&bob(), 100_000_000u64, 0u8),
    ];
    let data = build_dao_with_proposal(&members, 42, &alice(), 1000, 260000, 0);
    let total_vp = 300_000_000u64;

    let voted = cast_vote(&data, 0, &bob(), VOTE_FOR, 100_000_000, 2000, total_vp).unwrap();
    assert!(token_dao::counting::quorum_reached(&voted, 0, total_vp));

    let state = get_proposal_state(&voted, 0, 260001, total_vp);
    assert_eq!(state, PROPOSAL_STATE_SUCCEEDED);
}

#[test]
fn test_scenario_timelock_expiry_timing() {
    let data = build_dao_data(&[(&alice(), 200_000_000, ROLE_PROPOSER)]);

    let (d1, _op_id) = schedule(&data, 42, 1000, 172_800).unwrap();

    assert_eq!(get_operation_state(&d1, 0, 100_000), OP_STATE_PENDING);
    assert_eq!(get_operation_state(&d1, 0, 173_800), OP_STATE_READY);
    assert_eq!(
        get_operation_state(&d1, 0, 173_800 + TIMELOCK_GRACE_PERIOD / 2),
        OP_STATE_READY,
    );
    let expired_time = 173_800 + 1_209_600 + 1;
    assert_eq!(get_operation_state(&d1, 0, expired_time), OP_STATE_EXPIRED);
    assert_eq!(execute(&d1, 0, expired_time), Err(ERR_OP_EXPIRED));
}

#[test]
fn test_scenario_delegation_snapshot_immutable() {
    let data = build_dao_data(&[
        (&alice(), 200_000_000, 0),
        (&bob(), 100_000_000, 0),
    ]);

    let d1 = delegate(&data, &alice(), &bob()).unwrap();
    assert_eq!(get_effective_votes(&d1, &bob()), 300_000_000);
    assert_eq!(get_effective_votes(&d1, &alice()), 0);

    let d2 = snapshot_voting_power(&d1, 7, &bob()).unwrap();
    assert_eq!(get_snapshot_votes(&d2, 7, &bob()), 300_000_000);

    let d3 = delegate(&d2, &alice(), &alice()).unwrap();
    assert_eq!(get_effective_votes(&d3, &bob()), 100_000_000);
    assert_eq!(get_snapshot_votes(&d3, 7, &bob()), 300_000_000);
}

#[test]
fn test_proposal_cap_reached() {
    let data = build_dao_data(&[(&alice(), 500_000_000, ROLE_PROPOSER)]);

    let mut current = data;
    for i in 0..MAX_PROPOSALS {
        let (next, _id) = propose(&current, &alice(), i as u32, 1000 + i as u32, 500_000_000)
            .unwrap();
        current = next;
    }
    let result = propose(&current, &alice(), 999, 99_000, 500_000_000);
    assert_eq!(result, Err(ERR_MAX_PROPOSALS));
}

#[test]
fn test_member_cap_reached() {
    let mut current = build_dao_data(&[]);
    for i in 0..MAX_MEMBERS {
        let account = mock_account(i as u8 + 1);
        current = set_member(&current, &account, 1_000, 0).unwrap();
    }
    let one_more = mock_account(200);
    let result = set_member(&current, &one_more, 1_000, 0);
    assert_eq!(result, Err(ERR_BAD_CONFIG));
}

#[test]
fn test_lock_toggle_preserves_member_power() {
    let data = build_dao_data(&[
        (&alice(), 200_000_000, ROLE_PROPOSER),
        (&bob(), 100_000_000, 0),
    ]);

    let locked = set_lock(&data, true).unwrap();
    let unlocked = set_lock(&locked, false).unwrap();

    assert_eq!(get_votes(&unlocked, &alice()), 200_000_000);
    assert_eq!(get_votes(&unlocked, &bob()), 100_000_000);
    assert!(!token_dao::governor::is_locked(&unlocked));
}

#[test]
fn test_reschedule_after_cancel() {
    let data = build_dao_data(&[(&alice(), 200_000_000, ROLE_PROPOSER)]);

    let (d1, _op_id) = schedule(&data, 42, 1000, TIMELOCK_MIN_DELAY).unwrap();
    let d2 = cancel(&d1, 0, 2000).unwrap();

    let result = schedule(&d2, 42, 3000, TIMELOCK_MIN_DELAY);
    assert!(result.is_ok());
    let (d3, _) = result.unwrap();
    assert_eq!(get_operation_state(&d3, 1, 3000), OP_STATE_PENDING);
}

#[test]
fn test_reschedule_after_execute() {
    let data = build_dao_data(&[(&alice(), 200_000_000, ROLE_PROPOSER)]);

    let (d1, _op_id) = schedule(&data, 42, 1000, TIMELOCK_MIN_DELAY).unwrap();
    let ready = 1000 + TIMELOCK_MIN_DELAY;
    let d2 = execute(&d1, 0, ready + 1).unwrap();

    let result = schedule(&d2, 42, ready + 100, TIMELOCK_MIN_DELAY);
    assert!(result.is_ok());
}

#[test]
fn test_expired_operation_does_not_block_reschedule() {
    let data = build_dao_data(&[(&alice(), 200_000_000, ROLE_PROPOSER)]);

    let (d1, _op_id) = schedule(&data, 42, 1000, TIMELOCK_MIN_DELAY).unwrap();
    let expired_time = 1000 + TIMELOCK_MIN_DELAY + TIMELOCK_GRACE_PERIOD + 1;
    assert_eq!(get_operation_state(&d1, 0, expired_time), OP_STATE_EXPIRED);

    let result = schedule(&d1, 42, expired_time, TIMELOCK_MIN_DELAY);
    assert!(result.is_ok());
}
