//! End-to-end checks: identifier hashing, the reentrancy flag,
//! vote-by-signature, self-registration, overflow protection,
//! multi-digit keys, and the timelock grace period.

use token_dao::config::{
    ERR_OVERFLOW, ERR_OP_EXPIRED, PROPOSAL_STATE_ACTIVE, PROPOSAL_STATE_EXPIRED,
    PROPOSAL_STATE_SUCCEEDED, ROLE_ADMIN, ROLE_EXECUTOR, ROLE_PROPOSER,
    SELF_REGISTER_INITIAL_POWER, TIMELOCK_GRACE_PERIOD, TIMELOCK_MIN_DELAY, VOTE_ABSTAIN,
    VOTE_AGAINST, VOTE_FOR,
};
use token_dao::counting::{cast_vote, proposal_votes};
use token_dao::governor::{find_proposal_by_id, get_proposal_state, is_locked, propose, set_lock};
use token_dao::hash::{hash_operation, hash_proposal};
use token_dao::hex::to_hex;
use token_dao::keys::{build_indexed_key, build_prop_key};
use token_dao::members::{
    get_member_count, get_total_voting_power, get_votes, get_roles, has_role, quorum, set_member,
};
use token_dao::num::{format_u32, format_u64, format_u8};
use token_dao::record::{read_count, write_entry, write_separator};
use token_dao::signatures::{
    build_vote_message, hash_vote_message, record_sig_vote_intent, validate_vote_message,
};
use token_dao::timelock::{
    execute as timelock_execute, get_operation_state, is_operation_expired, is_operation_pending,
    is_operation_ready, schedule,
};

fn mock_account(seed: u8) -> [u8; 20] {
    let mut account = [0u8; 20];
    account[0] = seed;
    account[19] = seed;
    account
}

fn alice() -> [u8; 20] {
    mock_account(0xAA)
}

fn bob() -> [u8; 20] {
    mock_account(0xBB)
}

fn carol() -> [u8; 20] {
    mock_account(0xCC)
}

fn build_dao_data(members: &[(&[u8; 20], u64, u8)]) -> Vec<u8> {
    let mut data = vec![0u8; 4096];
    let count_val = format_u8(members.len() as u8);
    let mut pos = write_entry(&mut data, 0, b"member_count", &count_val);
    for (i, (account, power, roles)) in members.iter().enumerate() {
        pos = write_separator(&mut data, pos);
        let mut key = vec![0u8; 16];
        let klen = build_indexed_key(b"member_", i as u8, &mut key);
        let mut val: Vec<u8> = Vec::new();
        val.extend_from_slice(&to_hex(&account[..]));
        val.push(b':');
        val.extend_from_slice(&format_u64(*power));
        val.push(b':');
        val.push(b'0' + roles);
        pos = write_entry(&mut data, pos, &key[..klen], &val);
    }
    data.truncate(pos);
    data
}

fn build_dao_with_proposal(
    members: &[(&[u8; 20], u64, u8)],
    proposal_id: u32,
    proposer: &[u8; 20],
    vote_start: u32,
    vote_end: u32,
    state: u8,
) -> Vec<u8> {
    let base = build_dao_data(members);
    let mut data = vec![0u8; 4096];
    data[..base.len()].copy_from_slice(&base);
    let mut pos = base.len();
    pos = write_separator(&mut data, pos);
    pos = write_entry(&mut data, pos, b"proposal_count", b"1");
    let mut key_buf = vec![0u8; 32];

    pos = write_separator(&mut data, pos);
    let klen = build_prop_key(b"prop_", 0, b"_id", &mut key_buf);
    let idv = format_u32(proposal_id);
    pos = write_entry(&mut data, pos, &key_buf[..klen], &idv);

    pos = write_separator(&mut data, pos);
    let klen = build_prop_key(b"prop_", 0, b"_proposer", &mut key_buf);
    let hexv = to_hex(&proposer[..]);
    pos = write_entry(&mut data, pos, &key_buf[..klen], &hexv);

    pos = write_separator(&mut data, pos);
    let klen = build_prop_key(b"prop_", 0, b"_state", &mut key_buf);
    let state_val = [b'0' + state];
    pos = write_entry(&mut data, pos, &key_buf[..klen], &state_val);

    pos = write_separator(&mut data, pos);
    let klen = build_prop_key(b"prop_", 0, b"_start", &mut key_buf);
    let sv = format_u32(vote_start);
    pos = write_entry(&mut data, pos, &key_buf[..klen], &sv);

    pos = write_separator(&mut data, pos);
    let klen = build_prop_key(b"prop_", 0, b"_end", &mut key_buf);
    let ev = format_u32(vote_end);
    pos = write_entry(&mut data, pos, &key_buf[..klen], &ev);

    for suffix in [b"_for" as &[u8], b"_against", b"_abstain"] {
        pos = write_separator(&mut data, pos);
        let klen = build_prop_key(b"prop_", 0, suffix, &mut key_buf);
        pos = write_entry(&mut data, pos, &key_buf[..klen], b"0");
    }

    pos = write_separator(&mut data, pos);
    let klen = build_prop_key(b"prop_", 0, b"_desc", &mut key_buf);
    let dv = format_u32(12345);
    pos = write_entry(&mut data, pos, &key_buf[..klen], &dv);

    data.truncate(pos);
    data
}

fn dave() -> [u8; 20] {
    mock_account(0xDD)
}

#[test]
fn test_fix1_proposal_id_is_content_bound() {
    let id1 = hash_proposal(&alice(), 111, 1000, 0);
    let id2 = hash_proposal(&alice(), 222, 1000, 0);
    assert_ne!(id1, id2, "Different descriptions must produce different IDs");
}

#[test]
fn test_fix1_proposal_id_includes_proposer() {
    let id1 = hash_proposal(&alice(), 111, 1000, 0);
    let id2 = hash_proposal(&bob(), 111, 1000, 0);
    assert_ne!(id1, id2, "Different proposers must produce different IDs");
}

#[test]
fn test_fix1_proposal_id_includes_time() {
    let id1 = hash_proposal(&alice(), 111, 1000, 0);
    let id2 = hash_proposal(&alice(), 111, 2000, 0);
    assert_ne!(id1, id2, "Different times must produce different IDs");
}

#[test]
fn test_fix1_proposal_id_includes_nonce() {
    let id1 = hash_proposal(&alice(), 111, 1000, 0);
    let id2 = hash_proposal(&alice(), 111, 1000, 1);
    assert_ne!(id1, id2, "Different nonces must produce different IDs");
}

#[test]
fn test_fix1_proposal_id_nonzero() {
    for seed in 0u8..255 {
        let account = mock_account(seed);
        let id = hash_proposal(&account, seed as u32, seed as u32, seed);
        assert_ne!(id, 0, "Proposal ID must never be zero");
    }
}

#[test]
fn test_fix1_proposal_id_deterministic() {
    let id1 = hash_proposal(&alice(), 111, 1000, 0);
    let id2 = hash_proposal(&alice(), 111, 1000, 0);
    assert_eq!(id1, id2, "Same inputs must produce same ID");
}

#[test]
fn test_fix2_lock_unlocked_by_default() {
    let data = build_dao_data(&[(&alice(), 200_000_000, ROLE_ADMIN)]);
    assert!(!is_locked(&data), "Lock must be off by default");
}

#[test]
fn test_fix2_set_lock_on() {
    let data = build_dao_data(&[(&alice(), 200_000_000, ROLE_ADMIN)]);
    let locked_data = set_lock(&data, true).unwrap();
    assert!(is_locked(&locked_data), "Lock must be on after set_lock(true)");
}

#[test]
fn test_fix2_set_lock_off() {
    let data = build_dao_data(&[(&alice(), 200_000_000, ROLE_ADMIN)]);
    let locked_data = set_lock(&data, true).unwrap();
    let unlocked_data = set_lock(&locked_data, false).unwrap();
    assert!(!is_locked(&unlocked_data), "Lock must be off after set_lock(false)");
}

#[test]
fn test_fix2_lock_preserves_data() {
    let data = build_dao_data(&[
        (&alice(), 200_000_000, ROLE_ADMIN),
        (&bob(), 100_000_000, 0),
    ]);

    let locked_data = set_lock(&data, true).unwrap();

    let alice_votes = get_votes(&locked_data, &alice());
    assert_eq!(alice_votes, 200_000_000);

    let bob_votes = get_votes(&locked_data, &bob());
    assert_eq!(bob_votes, 100_000_000);
}

#[test]
fn test_fix2_lock_toggle_idempotent() {
    let data = build_dao_data(&[(&alice(), 200_000_000, ROLE_ADMIN)]);

    let d1 = set_lock(&data, true).unwrap();
    let d2 = set_lock(&d1, true).unwrap();
    assert!(is_locked(&d2));

    let d3 = set_lock(&d2, false).unwrap();
    let d4 = set_lock(&d3, false).unwrap();
    assert!(!is_locked(&d4));
}

#[test]
fn test_fix4_vote_message_format() {
    let msg = build_vote_message(42, VOTE_FOR, &alice());
    assert!(msg.len() > 0, "Message should have non-zero length");

    assert!(msg[..14] == *b"xrpl-dao:vote:", "Message must start with domain prefix");
}

#[test]
fn test_fix4_vote_message_differs_by_proposal() {
    let msg1 = build_vote_message(42, VOTE_FOR, &alice());
    let msg2 = build_vote_message(99, VOTE_FOR, &alice());

    assert_ne!(msg1, msg2, "Different proposals must produce different messages");
}

#[test]
fn test_fix4_vote_message_differs_by_support() {
    let msg1 = build_vote_message(42, VOTE_FOR, &alice());
    let msg2 = build_vote_message(42, VOTE_AGAINST, &alice());

    assert_ne!(msg1, msg2, "Different support must produce different messages");
}

#[test]
fn test_fix4_vote_message_differs_by_voter() {
    let msg1 = build_vote_message(42, VOTE_FOR, &alice());
    let msg2 = build_vote_message(42, VOTE_FOR, &bob());

    assert_ne!(msg1, msg2, "Different voters must produce different messages");
}

#[test]
fn test_fix4_validate_rejects_invalid_support() {
    assert!(!validate_vote_message(42, 3, &alice()), "Support > 2 must fail");
    assert!(!validate_vote_message(42, 255, &alice()), "Support 255 must fail");
}

#[test]
fn test_fix4_validate_rejects_zero_proposal() {
    assert!(!validate_vote_message(0, VOTE_FOR, &alice()), "Zero proposal must fail");
}

#[test]
fn test_fix4_validate_rejects_zero_voter() {
    let zero = [0u8; 20];
    assert!(!validate_vote_message(42, VOTE_FOR, &zero), "Zero voter must fail");
}

#[test]
fn test_fix4_validate_accepts_valid_input() {
    assert!(validate_vote_message(42, VOTE_FOR, &alice()));
    assert!(validate_vote_message(42, VOTE_AGAINST, &bob()));
    assert!(validate_vote_message(42, VOTE_ABSTAIN, &carol()));
}

#[test]
fn test_fix4_record_sig_vote_intent() {
    let data = build_dao_data(&[(&alice(), 200_000_000, 0)]);
    let result = record_sig_vote_intent(&data, 42, VOTE_FOR, &alice());
    assert!(result.is_ok());

    let new_data = result.unwrap();
    let data_str = core::str::from_utf8(&new_data).unwrap_or("");
    assert!(data_str.contains("sigvote_"), "Should contain sigvote entry");
}

#[test]
fn test_fix4_hash_vote_message_deterministic() {
    let msg = b"xrpl-dao:vote:42:1:aa";
    let h1 = hash_vote_message(msg, msg.len());
    let h2 = hash_vote_message(msg, msg.len());
    assert_eq!(h1, h2, "Same message must produce same hash");
}

#[test]
fn test_fix5_self_register_new_member() {
    let data = build_dao_data(&[(&alice(), 200_000_000, ROLE_ADMIN)]);

    let result = set_member(&data, &bob(), SELF_REGISTER_INITIAL_POWER, 0);
    assert!(result.is_ok());

    let new_data = result.unwrap();
    let bob_votes = get_votes(&new_data, &bob());
    assert_eq!(bob_votes, 0, "Self-registered members should have 0 voting power");

    let bob_roles = get_roles(&new_data, &bob());
    assert_eq!(bob_roles, 0, "Self-registered members should have no roles");
}

#[test]
fn test_fix5_self_register_then_admin_grants_power() {
    let data = build_dao_data(&[(&alice(), 200_000_000, ROLE_ADMIN)]);

    let d1 = set_member(&data, &bob(), 0, 0).unwrap();

    let d2 = set_member(&d1, &bob(), 100_000_000, ROLE_PROPOSER).unwrap();

    let bob_votes = get_votes(&d2, &bob());
    assert_eq!(bob_votes, 100_000_000);

    let bob_proposer = has_role(&d2, &bob(), ROLE_PROPOSER);
    assert!(bob_proposer, "Bob should now have proposer role");
}

#[test]
fn test_fix5_member_count_preserved() {
    let data = build_dao_data(&[(&alice(), 200_000_000, ROLE_ADMIN)]);

    assert_eq!(get_member_count(&data), 1);

    let d1 = set_member(&data, &bob(), 0, 0).unwrap();
    assert_eq!(get_member_count(&d1), 2);

    let d2 = set_member(&d1, &carol(), 0, 0).unwrap();
    assert_eq!(get_member_count(&d2), 3);
}

#[test]
fn test_fix6_vote_tally_overflow_returns_error() {
    let members = [
        (&alice(), 200_000_000u64, ROLE_PROPOSER | ROLE_ADMIN),
        (&bob(), u64::MAX - 1, 0u8),
    ];
    let data = build_dao_with_proposal(&members, 42, &alice(), 1000, 260000, 0);

    let result = cast_vote(&data, 0, &bob(), VOTE_FOR, u64::MAX - 1, 5000, u64::MAX);
    assert!(result.is_ok(), "First vote should succeed");

    let d1 = result.unwrap();

    let result2 = cast_vote(&d1, 0, &alice(), VOTE_FOR, u64::MAX, 5000, u64::MAX);
    assert_eq!(result2, Err(ERR_OVERFLOW), "Overflow should return ERR_OVERFLOW");
}

#[test]
fn test_fix6_saturating_total_voting_power() {
    let data = build_dao_data(&[
        (&alice(), u64::MAX / 2, ROLE_ADMIN),
        (&bob(), u64::MAX / 2, 0),
    ]);

    let total = get_total_voting_power(&data);
    assert!(total >= u64::MAX / 2, "Total should include both members");
    assert!(total <= u64::MAX);
}

#[test]
fn test_fix6_quorum_no_overflow() {
    let total_vp = u64::MAX;
    let q = quorum(total_vp);
    assert!(q > 0, "Quorum of max VP should still be positive");
}

#[test]
fn test_fix7_build_prop_key_single_digit() {
    let mut buf = vec![0u8; 48];
    let len = build_prop_key(b"prop_", 0, b"_state", &mut buf);
    assert_eq!(&buf[..len], b"prop_0_state");
}

#[test]
fn test_fix7_build_prop_key_double_digit() {
    let mut buf = vec![0u8; 48];
    let len = build_prop_key(b"prop_", 12, b"_state", &mut buf);
    assert_eq!(&buf[..len], b"prop_12_state");
}

#[test]
fn test_fix7_build_prop_key_triple_digit() {
    let mut buf = vec![0u8; 48];
    let len = build_prop_key(b"prop_", 255, b"_id", &mut buf);
    assert_eq!(&buf[..len], b"prop_255_id");
}

#[test]
fn test_fix7_format_u8_range() {
    let b = format_u8(0);
    assert_eq!(b.len(), 1);
    assert_eq!(&b[..1], b"0");
    let b = format_u8(9);
    assert_eq!(b.len(), 1);
    assert_eq!(&b[..1], b"9");
    let b = format_u8(10);
    assert_eq!(b.len(), 2);
    assert_eq!(&b[..2], b"10");
    let b = format_u8(99);
    assert_eq!(b.len(), 2);
    assert_eq!(&b[..2], b"99");
    let b = format_u8(100);
    assert_eq!(b.len(), 3);
    assert_eq!(&b[..3], b"100");
    let b = format_u8(255);
    assert_eq!(b.len(), 3);
    assert_eq!(&b[..3], b"255");
}

#[test]
fn test_fix7_read_count_multi_digit() {
    let data = b"proposal_count=12;other=1";
    let count = read_count(data, b"proposal_count");
    assert_eq!(count, 12);
}

#[test]
fn test_fix7_member_key_multi_digit() {
    let mut data = vec![0u8; 4096];
    let pos = write_entry(&mut data, 0, b"member_count", b"12");

    let count = get_member_count(&data[..pos]);
    assert_eq!(count, 12);
}

#[test]
fn test_fix8_operation_pending_before_ready() {
    let data = build_dao_data(&[(&alice(), 200_000_000, ROLE_ADMIN)]);

    let (d1, _op_id) = schedule(&data, 42, 1000, TIMELOCK_MIN_DELAY).unwrap();

    let state = get_operation_state(&d1, 0, 100_000);
    assert_eq!(state, token_dao::config::OP_STATE_PENDING);
}

#[test]
fn test_fix8_operation_ready_within_grace() {
    let data = build_dao_data(&[(&alice(), 200_000_000, ROLE_ADMIN)]);

    let (d1, _op_id) = schedule(&data, 42, 1000, TIMELOCK_MIN_DELAY).unwrap();

    let ready_at = 1000 + TIMELOCK_MIN_DELAY;
    let state = get_operation_state(&d1, 0, ready_at);
    assert_eq!(state, token_dao::config::OP_STATE_READY);

    let state = get_operation_state(&d1, 0, ready_at + TIMELOCK_GRACE_PERIOD / 2);
    assert_eq!(state, token_dao::config::OP_STATE_READY);
}

#[test]
fn test_fix8_operation_expired_after_grace() {
    let data = build_dao_data(&[(&alice(), 200_000_000, ROLE_ADMIN)]);

    let (d1, _op_id) = schedule(&data, 42, 1000, TIMELOCK_MIN_DELAY).unwrap();

    let ready_at = 1000 + TIMELOCK_MIN_DELAY;
    let expiry = ready_at + TIMELOCK_GRACE_PERIOD;

    let state = get_operation_state(&d1, 0, expiry + 1);
    assert_eq!(state, token_dao::config::OP_STATE_EXPIRED);
}

#[test]
fn test_fix8_execute_expired_operation_fails() {
    let data = build_dao_data(&[(&alice(), 200_000_000, ROLE_ADMIN)]);

    let (d1, _op_id) = schedule(&data, 42, 1000, TIMELOCK_MIN_DELAY).unwrap();

    let ready_at = 1000 + TIMELOCK_MIN_DELAY;
    let long_after = ready_at + TIMELOCK_GRACE_PERIOD + 100;

    let result = timelock_execute(&d1, 0, long_after);
    assert_eq!(result, Err(ERR_OP_EXPIRED), "Expired operations must not be executable");
}

#[test]
fn test_fix8_execute_within_grace_succeeds() {
    let data = build_dao_data(&[(&alice(), 200_000_000, ROLE_ADMIN)]);

    let (d1, _op_id) = schedule(&data, 42, 1000, TIMELOCK_MIN_DELAY).unwrap();

    let ready_at = 1000 + TIMELOCK_MIN_DELAY;
    let result = timelock_execute(&d1, 0, ready_at + 1000);
    assert!(result.is_ok(), "Execution within grace period should succeed");
}

#[test]
fn test_fix8_grace_period_constant() {
    assert_eq!(TIMELOCK_GRACE_PERIOD, 1_209_600);
}

#[test]
fn test_fix8_expired_state_constant() {
    assert_eq!(PROPOSAL_STATE_EXPIRED, 6);
}

#[test]
fn test_full_lifecycle_with_all_fixes() {
    let data = build_dao_data(&[
        (&alice(), 500_000_000, ROLE_PROPOSER | ROLE_ADMIN | ROLE_EXECUTOR),
        (&bob(), 300_000_000, 0),
        (&carol(), 200_000_000, 0),
    ]);
    let total_vp = get_total_voting_power(&data);
    assert_eq!(total_vp, 1_000_000_000);

    let d1 = set_member(&data, &dave(), 0, 0).unwrap();
    assert_eq!(get_member_count(&d1), 4);

    let (d2, prop_id) = propose(&d1, &alice(), 12345, 1000, 500_000_000).unwrap();
    assert!(prop_id != 0);

    let idx = find_proposal_by_id(&d2, prop_id).unwrap();
    assert_eq!(idx, 0);

    let state = get_proposal_state(&d2, 0, 2000, total_vp);
    assert_eq!(state, PROPOSAL_STATE_ACTIVE);

    let d3 = cast_vote(&d2, 0, &alice(), VOTE_FOR, 500_000_000, 2000, total_vp).unwrap();
    let d4 = cast_vote(&d3, 0, &bob(), VOTE_FOR, 300_000_000, 2000, total_vp).unwrap();

    let (f, a, ab) = proposal_votes(&d4, 0);
    assert_eq!(f, 800_000_000);
    assert_eq!(a, 0);
    assert_eq!(ab, 0);

    let state = get_proposal_state(&d4, 0, 300_000, total_vp);
    assert_eq!(state, PROPOSAL_STATE_SUCCEEDED);

    let (d5, _op_id) = schedule(&d4, prop_id, 300_000, TIMELOCK_MIN_DELAY).unwrap();

    let ready_at = 300_000 + TIMELOCK_MIN_DELAY;

    assert!(is_operation_pending(&d5, 0, 400_000));
    assert!(is_operation_ready(&d5, 0, ready_at + 100));

    assert!(!is_locked(&d5));
    let d5_locked = set_lock(&d5, true).unwrap();
    assert!(is_locked(&d5_locked));
    let d5_unlocked = set_lock(&d5_locked, false).unwrap();
    assert!(!is_locked(&d5_unlocked));

    let result = timelock_execute(&d5, 0, ready_at + 100);
    assert!(result.is_ok());

    let (d6, _) = schedule(&d5, prop_id + 1, 300_000, TIMELOCK_MIN_DELAY).unwrap();
    let expired_time = ready_at + TIMELOCK_GRACE_PERIOD + 100;
    assert!(is_operation_expired(&d6, 1, expired_time));
}
