//! Proposal lifecycle: creation, state derivation, cancellation.

use token_dao::config::{
    ERR_BELOW_THRESHOLD, ERR_NOT_PROPOSER, ERR_PROPOSAL_NOT_ACTIVE, ERR_PROPOSAL_NOT_FOUND,
    PROPOSAL_STATE_ACTIVE, PROPOSAL_STATE_CANCELED, PROPOSAL_STATE_DEFEATED,
    PROPOSAL_STATE_EXECUTED, PROPOSAL_STATE_PENDING, PROPOSAL_THRESHOLD, ROLE_ADMIN,
    ROLE_PROPOSER,
};
use token_dao::governor::{
    cancel_proposal, find_proposal_by_id, get_proposal_state, propose,
};
use token_dao::hex::to_hex;
use token_dao::keys::{build_indexed_key, build_prop_key};
use token_dao::num::{format_u32, format_u64, format_u8};
use token_dao::record::{write_entry, write_separator};

fn mock_account(seed: u8) -> [u8; 20] {
    let mut account = [0u8; 20];
    account[0] = seed;
    account[19] = seed;
    account
}

fn alice() -> [u8; 20] {
    mock_account(0xAA)
}

fn bob() -> [u8; 20] {
    mock_account(0xBB)
}

fn carol() -> [u8; 20] {
    mock_account(0xCC)
}

fn build_dao_data(members: &[(&[u8; 20], u64, u8)]) -> Vec<u8> {
    let mut data = vec![0u8; 4096];
    let count_val = format_u8(members.len() as u8);
    let mut pos = write_entry(&mut data, 0, b"member_count", &count_val);
    for (i, (account, power, roles)) in members.iter().enumerate() {
        pos = write_separator(&mut data, pos);
        let mut key = vec![0u8; 16];
        let klen = build_indexed_key(b"member_", i as u8, &mut key);
        let mut val: Vec<u8> = Vec::new();
        val.extend_from_slice(&to_hex(&account[..]));
        val.push(b':');
        val.extend_from_slice(&format_u64(*power));
        val.push(b':');
        val.push(b'0' + roles);
        pos = write_entry(&mut data, pos, &key[..klen], &val);
    }
    data.truncate(pos);
    data
}

fn build_dao_with_proposal(
    members: &[(&[u8; 20], u64, u8)],
    proposal_id: u32,
    proposer: &[u8; 20],
    vote_start: u32,
    vote_end: u32,
    state: u8,
) -> Vec<u8> {
    let base = build_dao_data(members);
    let mut data = vec![0u8; 4096];
    data[..base.len()].copy_from_slice(&base);
    let mut pos = base.len();
    pos = write_separator(&mut data, pos);
    pos = write_entry(&mut data, pos, b"proposal_count", b"1");
    let mut key_buf = vec![0u8; 32];

    pos = write_separator(&mut data, pos);
    let klen = build_prop_key(b"prop_", 0, b"_id", &mut key_buf);
    let idv = format_u32(proposal_id);
    pos = write_entry(&mut data, pos, &key_buf[..klen], &idv);

    pos = write_separator(&mut data, pos);
    let klen = build_prop_key(b"prop_", 0, b"_proposer", &mut key_buf);
    let hexv = to_hex(&proposer[..]);
    pos = write_entry(&mut data, pos, &key_buf[..klen], &hexv);

    pos = write_separator(&mut data, pos);
    let klen = build_prop_key(b"prop_", 0, b"_state", &mut key_buf);
    let state_val = [b'0' + state];
    pos = write_entry(&mut data, pos, &key_buf[..klen], &state_val);

    pos = write_separator(&mut data, pos);
    let klen = build_prop_key(b"prop_", 0, b"_start", &mut key_buf);
    let sv = format_u32(vote_start);
    pos = write_entry(&mut data, pos, &key_buf[..klen], &sv);

    pos = write_separator(&mut data, pos);
    let klen = build_prop_key(b"prop_", 0, b"_end", &mut key_buf);
    let ev = format_u32(vote_end);
    pos = write_entry(&mut data, pos, &key_buf[..klen], &ev);

    for suffix in [b"_for" as &[u8], b"_against", b"_abstain"] {
        pos = write_separator(&mut data, pos);
        let klen = build_prop_key(b"prop_", 0, suffix, &mut key_buf);
        pos = write_entry(&mut data, pos, &key_buf[..klen], b"0");
    }

    pos = write_separator(&mut data, pos);
    let klen = build_prop_key(b"prop_", 0, b"_desc", &mut key_buf);
    let dv = format_u32(12345);
    pos = write_entry(&mut data, pos, &key_buf[..klen], &dv);

    data.truncate(pos);
    data
}

#[test]
fn test_propose_success() {
    let data = build_dao_data(&[
        (&alice(), 200_000_000, ROLE_PROPOSER | ROLE_ADMIN),
        (&bob(), 100_000_000, 0),
    ]);

    let result = propose(&data, &alice(), 12345, 1000, 200_000_000);
    assert!(result.is_ok());

    let (new_data, prop_id) = result.unwrap();
    assert!(prop_id != 0);

    let idx = find_proposal_by_id(&new_data, prop_id);
    assert!(idx.is_ok());
    assert_eq!(idx.unwrap(), 0);
}

#[test]
fn test_propose_below_threshold() {
    let data = build_dao_data(&[(&alice(), 50_000_000, ROLE_PROPOSER)]);

    let result = propose(&data, &alice(), 12345, 1000, 50_000_000);
    assert_eq!(result, Err(ERR_BELOW_THRESHOLD));
}

#[test]
fn test_propose_at_exact_threshold() {
    let data = build_dao_data(&[(&alice(), PROPOSAL_THRESHOLD, ROLE_PROPOSER)]);

    let result = propose(&data, &alice(), 12345, 1000, PROPOSAL_THRESHOLD);
    assert!(result.is_ok());
}

#[test]
fn test_propose_multiple() {
    let data = build_dao_data(&[(&alice(), 500_000_000, ROLE_PROPOSER | ROLE_ADMIN)]);

    let (data1, id1) = propose(&data, &alice(), 111, 1000, 500_000_000).unwrap();
    let (data2, id2) = propose(&data1, &alice(), 222, 2000, 500_000_000).unwrap();

    assert_ne!(id1, id2);
    assert!(find_proposal_by_id(&data2, id1).is_ok());
    assert!(find_proposal_by_id(&data2, id2).is_ok());
}

#[test]
fn test_state_pending_before_vote_start() {
    let members = [
        (&alice(), 200_000_000u64, ROLE_PROPOSER | ROLE_ADMIN),
        (&bob(), 100_000_000u64, 0u8),
    ];
    let data = build_dao_with_proposal(&members, 42, &alice(), 1300, 260500, 0);

    let state = get_proposal_state(&data, 0, 1000, 300_000_000);
    assert_eq!(state, PROPOSAL_STATE_PENDING);
}

#[test]
fn test_state_active_during_voting() {
    let members = [
        (&alice(), 200_000_000u64, ROLE_PROPOSER),
        (&bob(), 100_000_000u64, 0u8),
    ];
    let data = build_dao_with_proposal(&members, 42, &alice(), 1000, 260000, 0);

    let state = get_proposal_state(&data, 0, 5000, 300_000_000);
    assert_eq!(state, PROPOSAL_STATE_ACTIVE);
}

#[test]
fn test_state_defeated_no_quorum() {
    let members = [
        (&alice(), 200_000_000u64, ROLE_PROPOSER),
        (&bob(), 100_000_000u64, 0u8),
    ];
    let data = build_dao_with_proposal(&members, 42, &alice(), 1000, 2000, 0);

    let state = get_proposal_state(&data, 0, 3000, 300_000_000);
    assert_eq!(state, PROPOSAL_STATE_DEFEATED);
}

#[test]
fn test_state_canceled_overrides_time() {
    let members = [(&alice(), 200_000_000u64, ROLE_PROPOSER)];
    let data = build_dao_with_proposal(
        &members,
        42,
        &alice(),
        1000,
        260000,
        PROPOSAL_STATE_CANCELED,
    );

    let state = get_proposal_state(&data, 0, 5000, 200_000_000);
    assert_eq!(state, PROPOSAL_STATE_CANCELED);
}

#[test]
fn test_state_executed_overrides() {
    let members = [(&alice(), 200_000_000u64, ROLE_PROPOSER)];
    let data = build_dao_with_proposal(
        &members,
        42,
        &alice(),
        1000,
        2000,
        PROPOSAL_STATE_EXECUTED,
    );

    let state = get_proposal_state(&data, 0, 5000, 200_000_000);
    assert_eq!(state, PROPOSAL_STATE_EXECUTED);
}

#[test]
fn test_cancel_by_proposer() {
    let members = [(&alice(), 200_000_000u64, ROLE_PROPOSER)];
    let data = build_dao_with_proposal(&members, 42, &alice(), 5000, 265000, 0);

    let result = cancel_proposal(&data, 0, &alice(), 1000, 200_000_000);
    assert!(result.is_ok());

    let new_data = result.unwrap();
    let state = get_proposal_state(&new_data, 0, 1000, 200_000_000);
    assert_eq!(state, PROPOSAL_STATE_CANCELED);
}

#[test]
fn test_cancel_by_non_proposer_fails() {
    let members = [
        (&alice(), 200_000_000u64, ROLE_PROPOSER),
        (&bob(), 100_000_000u64, 0u8),
    ];
    let data = build_dao_with_proposal(&members, 42, &alice(), 5000, 265000, 0);

    let result = cancel_proposal(&data, 0, &bob(), 1000, 300_000_000);
    assert_eq!(result, Err(ERR_NOT_PROPOSER));
}

#[test]
fn test_cancel_active_proposal_fails() {
    let members = [(&alice(), 200_000_000u64, ROLE_PROPOSER)];
    let data = build_dao_with_proposal(&members, 42, &alice(), 1000, 260000, 0);

    let result = cancel_proposal(&data, 0, &alice(), 2000, 200_000_000);
    assert_eq!(result, Err(ERR_PROPOSAL_NOT_ACTIVE));
}

#[test]
fn test_build_prop_key() {
    let mut buf = vec![0u8; 32];
    let len = build_prop_key(b"prop_", 0, b"_state", &mut buf);
    assert_eq!(&buf[..len], b"prop_0_state");

    let len = build_prop_key(b"prop_", 3, b"_for", &mut buf);
    assert_eq!(&buf[..len], b"prop_3_for");
}

#[test]
fn test_find_proposal_not_found() {
    let data = build_dao_data(&[(&alice(), 200_000_000, 0)]);
    assert_eq!(find_proposal_by_id(&data, 999), Err(ERR_PROPOSAL_NOT_FOUND));
}
