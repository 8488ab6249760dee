//! Vote casting, double-vote prevention, quorum and majority.

use token_dao::config::{
    ERR_ALREADY_VOTED, ERR_INVALID_VOTE, ERR_PROPOSAL_NOT_ACTIVE, PROPOSAL_STATE_SUCCEEDED,
    ROLE_PROPOSER, VOTE_ABSTAIN, VOTE_AGAINST, VOTE_FOR,
};
use token_dao::counting::{
    cast_vote, get_vote, has_voted, proposal_votes, quorum_reached, vote_succeeded,
};
use token_dao::governor::get_proposal_state;
use token_dao::hex::to_hex;
use token_dao::keys::{build_indexed_key, build_prop_key};
use token_dao::num::{format_u32, format_u64, format_u8};
use token_dao::record::{write_entry, write_separator};

fn mock_account(seed: u8) -> [u8; 20] {
    let mut account = [0u8; 20];
    account[0] = seed;
    account[19] = seed;
    account
}

fn alice() -> [u8; 20] {
    mock_account(0xAA)
}

fn bob() -> [u8; 20] {
    mock_account(0xBB)
}

fn carol() -> [u8; 20] {
    mock_account(0xCC)
}

fn build_dao_data(members: &[(&[u8; 20], u64, u8)]) -> Vec<u8> {
    let mut data = vec![0u8; 4096];
    let count_val = format_u8(members.len() as u8);
    let mut pos = write_entry(&mut data, 0, b"member_count", &count_val);
    for (i, (account, power, roles)) in members.iter().enumerate() {
        pos = write_separator(&mut data, pos);
        let mut key = vec![0u8; 16];
        let klen = build_indexed_key(b"member_", i as u8, &mut key);
        let mut val: Vec<u8> = Vec::new();
        val.extend_from_slice(&to_hex(&account[..]));
        val.push(b':');
        val.extend_from_slice(&format_u64(*power));
        val.push(b':');
        val.push(b'0' + roles);
        pos = write_entry(&mut data, pos, &key[..klen], &val);
    }
    data.truncate(pos);
    data
}

fn build_dao_with_proposal(
    members: &[(&[u8; 20], u64, u8)],
    proposal_id: u32,
    proposer: &[u8; 20],
    vote_start: u32,
    vote_end: u32,
    state: u8,
) -> Vec<u8> {
    let base = build_dao_data(members);
    let mut data = vec![0u8; 4096];
    data[..base.len()].copy_from_slice(&base);
    let mut pos = base.len();
    pos = write_separator(&mut data, pos);
    pos = write_entry(&mut data, pos, b"proposal_count", b"1");
    let mut key_buf = vec![0u8; 32];

    pos = write_separator(&mut data, pos);
    let klen = build_prop_key(b"prop_", 0, b"_id", &mut key_buf);
    let idv = format_u32(proposal_id);
    pos = write_entry(&mut data, pos, &key_buf[..klen], &idv);

    pos = write_separator(&mut data, pos);
    let klen = build_prop_key(b"prop_", 0, b"_proposer", &mut key_buf);
    let hexv = to_hex(&proposer[..]);
    pos = write_entry(&mut data, pos, &key_buf[..klen], &hexv);

    pos = write_separator(&mut data, pos);
    let klen = build_prop_key(b"prop_", 0, b"_state", &mut key_buf);
    let state_val = [b'0' + state];
    pos = write_entry(&mut data, pos, &key_buf[..klen], &state_val);

    pos = write_separator(&mut data, pos);
    let klen = build_prop_key(b"prop_", 0, b"_start", &mut key_buf);
    let sv = format_u32(vote_start);
    pos = write_entry(&mut data, pos, &key_buf[..klen], &sv);

    pos = write_separator(&mut data, pos);
    let klen = build_prop_key(b"prop_", 0, b"_end", &mut key_buf);
    let ev = format_u32(vote_end);
    pos = write_entry(&mut data, pos, &key_buf[..klen], &ev);

    for suffix in [b"_for" as &[u8], b"_against", b"_abstain"] {
        pos = write_separator(&mut data, pos);
        let klen = build_prop_key(b"prop_", 0, suffix, &mut key_buf);
        pos = write_entry(&mut data, pos, &key_buf[..klen], b"0");
    }

    pos = write_separator(&mut data, pos);
    let klen = build_prop_key(b"prop_", 0, b"_desc", &mut key_buf);
    let dv = format_u32(12345);
    pos = write_entry(&mut data, pos, &key_buf[..klen], &dv);

    data.truncate(pos);
    data
}

#[test]
fn test_cast_vote_for() {
    let members = [
        (&alice(), 200_000_000u64, ROLE_PROPOSER),
        (&bob(), 100_000_000u64, 0u8),
    ];
    let data = build_dao_with_proposal(&members, 42, &alice(), 1000, 260000, 0);

    let result = cast_vote(&data, 0, &bob(), VOTE_FOR, 100_000_000, 2000, 300_000_000);
    assert!(result.is_ok());

    let new_data = result.unwrap();
    let (for_v, against_v, abstain_v) = proposal_votes(&new_data, 0);
    assert_eq!(for_v, 100_000_000);
    assert_eq!(against_v, 0);
    assert_eq!(abstain_v, 0);
}

#[test]
fn test_cast_vote_against() {
    let members = [
        (&alice(), 200_000_000u64, ROLE_PROPOSER),
        (&bob(), 100_000_000u64, 0u8),
    ];
    let data = build_dao_with_proposal(&members, 42, &alice(), 1000, 260000, 0);

    let result = cast_vote(&data, 0, &bob(), VOTE_AGAINST, 100_000_000, 2000, 300_000_000);
    assert!(result.is_ok());

    let new_data = result.unwrap();
    let (for_v, against_v, _) = proposal_votes(&new_data, 0);
    assert_eq!(for_v, 0);
    assert_eq!(against_v, 100_000_000);
}

#[test]
fn test_cast_vote_abstain() {
    let members = [
        (&alice(), 200_000_000u64, ROLE_PROPOSER),
        (&bob(), 100_000_000u64, 0u8),
    ];
    let data = build_dao_with_proposal(&members, 42, &alice(), 1000, 260000, 0);

    let result = cast_vote(&data, 0, &bob(), VOTE_ABSTAIN, 100_000_000, 2000, 300_000_000);
    assert!(result.is_ok());

    let new_data = result.unwrap();
    let (_, _, abstain_v) = proposal_votes(&new_data, 0);
    assert_eq!(abstain_v, 100_000_000);
}

#[test]
fn test_cast_vote_invalid_support() {
    let members = [(&alice(), 200_000_000u64, ROLE_PROPOSER)];
    let data = build_dao_with_proposal(&members, 42, &alice(), 1000, 260000, 0);

    let result = cast_vote(&data, 0, &alice(), 3, 200_000_000, 2000, 200_000_000);
    assert_eq!(result, Err(ERR_INVALID_VOTE));
}

#[test]
fn test_cast_vote_not_active() {
    let members = [
        (&alice(), 200_000_000u64, ROLE_PROPOSER),
        (&bob(), 100_000_000u64, 0u8),
    ];
    let data = build_dao_with_proposal(&members, 42, &alice(), 5000, 265000, 0);

    let result = cast_vote(&data, 0, &bob(), VOTE_FOR, 100_000_000, 1000, 300_000_000);
    assert_eq!(result, Err(ERR_PROPOSAL_NOT_ACTIVE));
}

#[test]
fn test_double_vote_rejected() {
    let members = [
        (&alice(), 200_000_000u64, ROLE_PROPOSER),
        (&bob(), 100_000_000u64, 0u8),
    ];
    let data = build_dao_with_proposal(&members, 42, &alice(), 1000, 260000, 0);

    let data1 = cast_vote(&data, 0, &bob(), VOTE_FOR, 100_000_000, 2000, 300_000_000).unwrap();

    let result = cast_vote(&data1, 0, &bob(), VOTE_AGAINST, 100_000_000, 2500, 300_000_000);
    assert_eq!(result, Err(ERR_ALREADY_VOTED));
}

#[test]
fn test_multiple_voters() {
    let members = [
        (&alice(), 200_000_000u64, ROLE_PROPOSER),
        (&bob(), 100_000_000u64, 0u8),
        (&carol(), 150_000_000u64, 0u8),
    ];
    let data = build_dao_with_proposal(&members, 42, &alice(), 1000, 260000, 0);

    let data1 = cast_vote(&data, 0, &alice(), VOTE_FOR, 200_000_000, 2000, 450_000_000).unwrap();
    let data2 = cast_vote(&data1, 0, &bob(), VOTE_AGAINST, 100_000_000, 2100, 450_000_000)
        .unwrap();
    let data3 = cast_vote(&data2, 0, &carol(), VOTE_FOR, 150_000_000, 2200, 450_000_000).unwrap();

    let (for_v, against_v, abstain_v) = proposal_votes(&data3, 0);
    assert_eq!(for_v, 350_000_000);
    assert_eq!(against_v, 100_000_000);
    assert_eq!(abstain_v, 0);
}

#[test]
fn test_has_voted_false_initially() {
    let members = [(&alice(), 200_000_000u64, ROLE_PROPOSER)];
    let data = build_dao_with_proposal(&members, 42, &alice(), 1000, 260000, 0);

    assert!(!has_voted(&data, 0, &bob()));
}

#[test]
fn test_has_voted_true_after_vote() {
    let members = [
        (&alice(), 200_000_000u64, ROLE_PROPOSER),
        (&bob(), 100_000_000u64, 0u8),
    ];
    let data = build_dao_with_proposal(&members, 42, &alice(), 1000, 260000, 0);

    let new_data = cast_vote(&data, 0, &bob(), VOTE_FOR, 100_000_000, 2000, 300_000_000).unwrap();

    assert!(has_voted(&new_data, 0, &bob()));
    assert!(!has_voted(&new_data, 0, &carol()));
}

#[test]
fn test_quorum_not_reached() {
    let members = [
        (&alice(), 200_000_000u64, ROLE_PROPOSER),
        (&bob(), 100_000_000u64, 0u8),
    ];
    let data = build_dao_with_proposal(&members, 42, &alice(), 1000, 260000, 0);
    assert!(!quorum_reached(&data, 0, 300_000_000));
}

#[test]
fn test_quorum_reached_with_for_votes() {
    let members = [
        (&alice(), 200_000_000u64, ROLE_PROPOSER),
        (&bob(), 100_000_000u64, 0u8),
    ];
    let data = build_dao_with_proposal(&members, 42, &alice(), 1000, 260000, 0);

    let voted = cast_vote(&data, 0, &bob(), VOTE_FOR, 100_000_000, 2000, 300_000_000).unwrap();

    assert!(quorum_reached(&voted, 0, 300_000_000));
}

#[test]
fn test_quorum_reached_with_abstain() {
    let members = [
        (&alice(), 200_000_000u64, ROLE_PROPOSER),
        (&bob(), 100_000_000u64, 0u8),
    ];
    let data = build_dao_with_proposal(&members, 42, &alice(), 1000, 260000, 0);

    let voted = cast_vote(&data, 0, &bob(), VOTE_ABSTAIN, 100_000_000, 2000, 300_000_000)
        .unwrap();

    assert!(quorum_reached(&voted, 0, 300_000_000));
}

#[test]
fn test_vote_succeeded() {
    let members = [
        (&alice(), 200_000_000u64, ROLE_PROPOSER),
        (&bob(), 100_000_000u64, 0u8),
    ];
    let data = build_dao_with_proposal(&members, 42, &alice(), 1000, 260000, 0);

    let voted = cast_vote(&data, 0, &alice(), VOTE_FOR, 200_000_000, 2000, 300_000_000).unwrap();

    assert!(vote_succeeded(&voted, 0));
}

#[test]
fn test_vote_defeated() {
    let members = [
        (&alice(), 200_000_000u64, ROLE_PROPOSER),
        (&bob(), 300_000_000u64, 0u8),
    ];
    let data = build_dao_with_proposal(&members, 42, &alice(), 1000, 260000, 0);

    let v1 = cast_vote(&data, 0, &alice(), VOTE_FOR, 200_000_000, 2000, 500_000_000).unwrap();
    let v2 = cast_vote(&v1, 0, &bob(), VOTE_AGAINST, 300_000_000, 2100, 500_000_000).unwrap();

    assert!(!vote_succeeded(&v2, 0));
}

#[test]
fn test_get_vote_details() {
    let members = [
        (&alice(), 200_000_000u64, ROLE_PROPOSER),
        (&bob(), 100_000_000u64, 0u8),
    ];
    let data = build_dao_with_proposal(&members, 42, &alice(), 1000, 260000, 0);

    let voted = cast_vote(&data, 0, &bob(), VOTE_FOR, 100_000_000, 2000, 300_000_000).unwrap();

    let vote = get_vote(&voted, 0, &bob());
    assert!(vote.is_some());
    let (support, weight) = vote.unwrap();
    assert_eq!(support, VOTE_FOR);
    assert_eq!(weight, 100_000_000);
}

#[test]
fn test_get_vote_not_found() {
    let members = [(&alice(), 200_000_000u64, ROLE_PROPOSER)];
    let data = build_dao_with_proposal(&members, 42, &alice(), 1000, 260000, 0);

    assert!(get_vote(&data, 0, &bob()).is_none());
}

#[test]
fn test_proposal_succeeds_after_voting() {
    let members = [
        (&alice(), 200_000_000u64, ROLE_PROPOSER),
        (&bob(), 100_000_000u64, 0u8),
        (&carol(), 150_000_000u64, 0u8),
    ];
    let total_vp = 450_000_000u64;
    let data = build_dao_with_proposal(&members, 42, &alice(), 1000, 2000, 0);

    let d1 = cast_vote(&data, 0, &alice(), VOTE_FOR, 200_000_000, 1500, total_vp).unwrap();
    let d2 = cast_vote(&d1, 0, &bob(), VOTE_AGAINST, 100_000_000, 1600, total_vp).unwrap();
    let d3 = cast_vote(&d2, 0, &carol(), VOTE_FOR, 150_000_000, 1700, total_vp).unwrap();

    let state = get_proposal_state(&d3, 0, 3000, total_vp);
    assert_eq!(state, PROPOSAL_STATE_SUCCEEDED);
}
