//! Membership ledger: accounts, base voting power, and role bitmasks.
//!
//! A member entry is `member_<i>=<40-hex-account>:<power>:<roles>`, with
//! `member_count` tracking how many member slots exist.  Members are
//! updated in place by index and never deleted.

use vstd::prelude::*;
use crate::config::{ERR_BAD_CONFIG, MAX_MEMBERS, QUORUM_PERCENTAGE};
use crate::hex::{bytes_to_hex, to_hex};
use crate::keys::{
    indexed_key, k_member_count, k_member_count_bytes, lemma_indexed_key_clean, make_indexed_key,
    p_member, p_member_bytes,
};
use crate::num::{dec_digits, format_u64, parse_u64, parse_u64_spec};
use crate::record::{drop_entries, drop_key, entry_of, field_count, find_value, first_at, joined, lemma_drop_wf, lemma_entries_of_joined, lemma_entry_of, lemma_first_at_is, lemma_record_entries_wf, lookup, lookup_in, make_entry, range_eq, read_count, record_entries, rewrite_all, scan_byte_to, seal_record, split_record, update_record, views};
use crate::num::format_u8;

verus! {

/// The `:` separator inside record values.
pub const COLON_BYTE: u8 = 58;

/// Number of member slots in the record.
pub open spec fn member_count_of(data: Seq<u8>) -> u8 {
    field_count(data, k_member_count())
}

/// The raw value of member slot `i`, if present.
pub open spec fn member_value(data: Seq<u8>, i: u8) -> Option<Seq<u8>> {
    lookup(data, indexed_key(p_member(), i))
}

/// Parse `<40-hex>:<power>:<roles>`: the power as decimal, the roles as
/// one character offset from `'0'`.
pub open spec fn parse_member_spec(v: Seq<u8>) -> Option<(u64, u8)> {
    if v.len() < 44 {
        None
    } else if v[40] != COLON_BYTE {
        None
    } else {
        let rest = v.skip(41);
        let c2 = first_at(rest, COLON_BYTE);
        if c2 >= rest.len() {
            None
        } else {
            match parse_u64_spec(rest.take(c2)) {
                Some(power) => if c2 + 1 < rest.len() && rest[c2 + 1] >= 48 {
                    Some((power, (rest[c2 + 1] - 48) as u8))
                } else {
                    None
                },
                None => None,
            }
        }
    }
}

/// Member slot `i` holds a parseable record for the account with this
/// hex encoding.
pub open spec fn member_match(data: Seq<u8>, i: u8, hex: Seq<u8>) -> bool {
    match member_value(data, i) {
        Some(v) => v.len() >= 40 && v.take(40) == hex && parse_member_spec(v) is Some,
        None => false,
    }
}

/// First member slot at or after `i` matching `hex`, with its parsed
/// power and roles.
pub open spec fn find_member_from(data: Seq<u8>, hex: Seq<u8>, i: u8) -> Option<(u8, u64, u8)>
    decreases member_count_of(data) - i,
{
    if i >= member_count_of(data) {
        None
    } else if member_match(data, i, hex) {
        let pr = parse_member_spec(member_value(data, i)->0)->0;
        Some((i, pr.0, pr.1))
    } else {
        find_member_from(data, hex, (i + 1) as u8)
    }
}

/// The member slot registered for this hex-encoded account, if any.
pub open spec fn find_member_spec(data: Seq<u8>, hex: Seq<u8>) -> Option<(u8, u64, u8)> {
    find_member_from(data, hex, 0)
}

/// Base voting power of an account; zero when not a member.
pub open spec fn votes_of(data: Seq<u8>, account: Seq<u8>) -> u64 {
    match find_member_spec(data, bytes_to_hex(account)) {
        Some(m) => m.1,
        None => 0,
    }
}

/// Role bitmask of an account; zero when not a member.
pub open spec fn roles_of(data: Seq<u8>, account: Seq<u8>) -> u8 {
    match find_member_spec(data, bytes_to_hex(account)) {
        Some(m) => m.2,
        None => 0,
    }
}

/// Power parsed from member slot `i`, or zero.
pub open spec fn slot_power(data: Seq<u8>, i: u8) -> u64 {
    match member_value(data, i) {
        Some(v) => match parse_member_spec(v) {
            Some(pr) => pr.0,
            None => 0,
        },
        None => 0,
    }
}

/// Saturating addition on `u64`.
pub open spec fn sat_add(a: u64, b: u64) -> u64 {
    if a + b > u64::MAX {
        u64::MAX
    } else {
        (a + b) as u64
    }
}

/// Saturating sum of the powers of member slots below `i`.
pub open spec fn total_power_upto(data: Seq<u8>, i: u8) -> u64
    decreases i,
{
    if i == 0 {
        0
    } else {
        sat_add(total_power_upto(data, (i - 1) as u8), slot_power(data, (i - 1) as u8))
    }
}

/// Total voting power of all members, saturating at `u64::MAX`.
pub open spec fn total_power_of(data: Seq<u8>) -> u64 {
    total_power_upto(data, member_count_of(data))
}

/// Required quorum power: `floor(total / 100) * QUORUM_PERCENTAGE`.
pub open spec fn quorum_spec(total: u64) -> u64 {
    ((total as int / 100) * (QUORUM_PERCENTAGE as int)) as u64
}

/// Serialized member record value `<hex>:<power>:<roles>`.
pub open spec fn member_value_of(hex: Seq<u8>, power: u64, roles: u8) -> Seq<u8> {
    hex + seq![COLON_BYTE] + dec_digits(power as nat) + seq![COLON_BYTE] + seq![(48 + roles) as u8]
}

/// Parse a member record value.
fn parse_member_record(v: &[u8]) -> (r: Option<(u64, u8)>)
    ensures
        r == parse_member_spec(v@),
{
    if v.len() < 44 {
        return None;
    }
    if v[40] != COLON_BYTE {
        return None;
    }
    let ghost rest = v@.skip(41);
    let c2 = scan_byte_to(v, 41, v.len(), COLON_BYTE);
    proof {
        assert forall|j: int| 0 <= j < c2 - 41 implies rest[j] != COLON_BYTE by {
            assert(rest[j] == v@[41 + j]);
        }
        if (c2 as int) < v@.len() {
            assert(rest[c2 - 41] == v@[c2 as int]);
        }
        lemma_first_at_is(rest, COLON_BYTE, c2 - 41);
    }
    if c2 == v.len() {
        return None;
    }
    let power = match parse_u64(vstd::slice::slice_subrange(v, 41, c2)) {
        Some(p) => p,
        None => {
            proof {
                assert(rest.take(c2 - 41) =~= v@.subrange(41, c2 as int));
            }
            return None;
        },
    };
    proof {
        assert(rest.take(c2 - 41) =~= v@.subrange(41, c2 as int));
    }
    if c2 + 1 >= v.len() {
        return None;
    }
    let rb = v[c2 + 1];
    proof {
        assert(rest[c2 + 1 - 41] == v@[c2 + 1]);
    }
    if rb >= 48 {
        Some((power, rb - 48))
    } else {
        None
    }
}

/// Build the member record value `<hex>:<power>:<roles>`.
fn build_member_value(hex: &Vec<u8>, power: u64, roles: u8) -> (r: Vec<u8>)
    requires
        roles <= 9,
    ensures
        r@ == member_value_of(hex@, power, roles),
{
    let mut out: Vec<u8> = Vec::new();
    out.extend_from_slice(hex.as_slice());
    out.push(COLON_BYTE);
    let digits = format_u64(power);
    out.extend_from_slice(digits.as_slice());
    out.push(COLON_BYTE);
    out.push(48 + roles);
    proof {
        assert(out@ =~= member_value_of(hex@, power, roles));
    }
    out
}

/// Find a member slot by account hex.  Returns the slot index and the
/// parsed power and roles.
pub(crate) fn find_member(data: &[u8], hex: &Vec<u8>) -> (r: Option<(u8, u64, u8)>)
    ensures
        r == find_member_spec(data@, hex@),
{
    let count = read_count(data, k_member_count_bytes().as_slice());
    let mut i: u8 = 0;
    while i < count
        invariant
            count == member_count_of(data@),
            0 <= i <= count,
            find_member_spec(data@, hex@) == find_member_from(data@, hex@, i),
        decreases count - i,
    {
        let key = make_indexed_key(p_member_bytes().as_slice(), i);
        match find_value(data, key.as_slice()) {
            Some(v) => {
                if v.len() >= 40 && range_eq(v, 0, 40, hex.as_slice()) {
                    proof {
                        assert(v@.subrange(0, 40) =~= v@.take(40));
                    }
                    match parse_member_record(v) {
                        Some(pr) => {
                            proof {
                                assert(member_match(data@, i, hex@));
                            }
                            return Some((i, pr.0, pr.1));
                        },
                        None => {
                            proof {
                                assert(!member_match(data@, i, hex@));
                            }
                        },
                    }
                } else {
                    proof {
                        assert(v@.subrange(0, 40) =~= v@.take(40));
                        assert(!member_match(data@, i, hex@));
                    }
                }
            },
            None => {
                proof {
                    assert(!member_match(data@, i, hex@));
                }
            },
        }
        i = i + 1;
    }
    None
}

/// Number of registered member slots.
pub fn get_member_count(data: &[u8]) -> (r: u8)
    ensures
        r == member_count_of(data@),
{
    read_count(data, k_member_count_bytes().as_slice())
}

/// Base voting power of an account.  Zero when not a member.
pub fn get_votes(data: &[u8], account: &[u8; 20]) -> (r: u64)
    ensures
        r == votes_of(data@, account@),
{
    let hex = to_hex(account.as_slice());
    match find_member(data, &hex) {
        Some(m) => m.1,
        None => 0,
    }
}

/// Role bitmask of an account.  Zero when not a member.
pub fn get_roles(data: &[u8], account: &[u8; 20]) -> (r: u8)
    ensures
        r == roles_of(data@, account@),
{
    let hex = to_hex(account.as_slice());
    match find_member(data, &hex) {
        Some(m) => m.2,
        None => 0,
    }
}

/// Does the account hold the given role bit?
pub fn has_role(data: &[u8], account: &[u8; 20], role: u8) -> (r: bool)
    ensures
        r == (roles_of(data@, account@) & role != 0),
{
    get_roles(data, account) & role != 0
}

/// Total voting power over all member slots, saturating at `u64::MAX`.
pub fn get_total_voting_power(data: &[u8]) -> (r: u64)
    ensures
        r == total_power_of(data@),
{
    let count = read_count(data, k_member_count_bytes().as_slice());
    let mut total: u64 = 0;
    let mut i: u8 = 0;
    while i < count
        invariant
            count == member_count_of(data@),
            0 <= i <= count,
            total == total_power_upto(data@, i),
        decreases count - i,
    {
        let key = make_indexed_key(p_member_bytes().as_slice(), i);
        let power = match find_value(data, key.as_slice()) {
            Some(v) => match parse_member_record(v) {
                Some(pr) => pr.0,
                None => 0,
            },
            None => 0,
        };
        proof {
            assert(power == slot_power(data@, i));
        }
        total = total.saturating_add(power);
        i = i + 1;
    }
    total
}

/// Required quorum power for a given total: `floor(total/100) * 4`.
pub fn quorum(total_voting_power: u64) -> (r: u64)
    ensures
        r == quorum_spec(total_voting_power),
{
    proof {
        assert((total_voting_power as int / 100) * (QUORUM_PERCENTAGE as int) <= u64::MAX as int)
            by (nonlinear_arith);
    }
    (total_voting_power / 100) * (QUORUM_PERCENTAGE as u64)
}


/// Hex strings never contain the record delimiters.
pub proof fn lemma_hex_clean(b: Seq<u8>)
    ensures
        crate::record::clean_key(bytes_to_hex(b)),
        crate::record::clean_value(bytes_to_hex(b)),
{
    crate::hex::lemma_hex_round_trip(b);
    assert forall|i: int|
        0 <= i < bytes_to_hex(b).len() implies #[trigger] bytes_to_hex(b)[i] != 59
        && bytes_to_hex(b)[i] != 61 by {
        assert(crate::hex::is_hex_digit(bytes_to_hex(b)[i]));
    }
}

/// Member record values never contain the entry delimiter.
pub proof fn lemma_member_value_clean(hex: Seq<u8>, power: u64, roles: u8)
    requires
        crate::record::clean_value(hex),
        roles <= 9,
    ensures
        crate::record::clean_value(member_value_of(hex, power, roles)),
{
    crate::num::lemma_dec_digits_all_digits(power as nat);
    let v = member_value_of(hex, power, roles);
    let d = dec_digits(power as nat);
    assert forall|i: int| 0 <= i < v.len() implies #[trigger] v[i] != 59 by {
        if i < hex.len() {
            assert(v[i] == hex[i]);
        } else if i == hex.len() {
            assert(v[i] == COLON_BYTE);
        } else if i < hex.len() + 1 + d.len() {
            assert(v[i] == d[i - hex.len() - 1]);
            assert(crate::num::is_digit(d[i - hex.len() - 1]));
        } else if i == hex.len() + 1 + d.len() {
            assert(v[i] == COLON_BYTE);
        } else {
            assert(v[i] == (48 + roles) as u8);
        }
    }
}

/// The `member_count` key differs from every indexed member key.
pub proof fn lemma_member_keys_distinct(i: u8)
    ensures
        k_member_count() != indexed_key(p_member(), i),
{
    crate::num::lemma_dec_digits_all_digits(i as nat);
    let ik = indexed_key(p_member(), i);
    assert(ik[7] == dec_digits(i as nat)[0]);
    assert(crate::num::is_digit(dec_digits(i as nat)[0]));
    if k_member_count() == ik {
        assert(k_member_count()[7] == ik[7]);
    }
}

/// A slot found for `hex` is within the member count, matches `hex`,
/// and parses to the returned power and roles.
pub proof fn lemma_find_member_from_props(data: Seq<u8>, hex: Seq<u8>, j: u8)
    ensures
        find_member_from(data, hex, j) matches Some(m) ==> j <= m.0 < member_count_of(data)
            && member_match(data, m.0, hex) && parse_member_spec(member_value(data, m.0)->0)
            == Some((m.1, m.2)),
    decreases member_count_of(data) - j,
{
    if j < member_count_of(data) && !member_match(data, j, hex) {
        lemma_find_member_from_props(data, hex, (j + 1) as u8);
    }
}

/// The entry list after storing a member: the matched slot rewritten in
/// place, or, for a new account, the count bumped and a fresh slot
/// appended at the end.
pub open spec fn set_member_entries(data: Seq<u8>, hex: Seq<u8>, power: u64, roles: u8) -> Seq<
    Seq<u8>,
> {
    let es0 = record_entries(data);
    let v = member_value_of(hex, power, roles);
    match find_member_spec(data, hex) {
        Some(m) => rewrite_all(es0, indexed_key(p_member(), m.0), v),
        None => drop_key(es0, k_member_count()).push(
            entry_of(k_member_count(), dec_digits((member_count_of(data) + 1) as nat)),
        ).push(entry_of(indexed_key(p_member(), member_count_of(data)), v)),
    }
}

/// The member key written by [`set_member`]: the matched slot, or the
/// next free slot for a new account.
pub open spec fn set_member_target(data: Seq<u8>, hex: Seq<u8>) -> Seq<u8> {
    match find_member_spec(data, hex) {
        Some(m) => indexed_key(p_member(), m.0),
        None => indexed_key(p_member(), member_count_of(data)),
    }
}

/// Contract of [`set_member`]: on success the record is exactly the
/// rebuilt entry list; the target slot holds the new value, the member
/// count is bumped only for a new account, and every other key is
/// untouched.  Failure (`ERR_BAD_CONFIG`) happens exactly when a new
/// account would exceed the member cap or the record its capacity.
pub open spec fn set_member_post(
    data: Seq<u8>,
    account: Seq<u8>,
    power: u64,
    roles: u8,
    r: Result<Vec<u8>, i32>,
) -> bool {
    let hex = bytes_to_hex(account);
    let es1 = set_member_entries(data, hex, power, roles);
    let is_new = find_member_spec(data, hex) is None;
    let target = set_member_target(data, hex);
    &&& (r is Ok <==> (!is_new || member_count_of(data) < MAX_MEMBERS as u8) && joined(es1).len()
        <= crate::config::MAX_RECORD_SIZE)
    &&& (r is Ok ==> ({
        let nd = r->Ok_0@;
        &&& nd == joined(es1)
        &&& (!is_new || lookup(data, target) is None ==> lookup(nd, target) == Some(
            member_value_of(hex, power, roles),
        ))
        &&& (is_new && lookup(data, target) is Some ==> lookup(nd, target) == lookup(data, target))
        &&& (is_new ==> lookup(nd, k_member_count()) == Some(
            dec_digits((member_count_of(data) + 1) as nat),
        ))
        &&& member_count_of(nd) == if is_new {
            (member_count_of(data) + 1) as u8
        } else {
            member_count_of(data)
        }
        &&& (forall|q: Seq<u8>|
            q != target && q != k_member_count() ==> #[trigger] lookup(nd, q) == lookup(data, q))
        &&& (!is_new ==> lookup(nd, k_member_count()) == lookup(data, k_member_count()))
    }))
    &&& (r is Err ==> r->Err_0 == ERR_BAD_CONFIG)
}

/// Add or update a member.  An existing account's slot is rewritten in
/// place; a new account takes the next slot and bumps `member_count`,
/// failing when the member cap is reached.  Roles must fit the single
/// digit the record stores.
pub fn set_member(data: &[u8], account: &[u8; 20], voting_power: u64, roles: u8) -> (r: Result<
    Vec<u8>,
    i32,
>)
    requires
        roles <= 9,
    ensures
        set_member_post(data@, account@, voting_power, roles, r),
{
    let hex = to_hex(account.as_slice());
    let value = build_member_value(&hex, voting_power, roles);
    let ghost es0 = record_entries(data@);
    proof {
        lemma_hex_clean(account@);
        lemma_member_value_clean(hex@, voting_power, roles);
        lemma_find_member_from_props(data@, hex@, 0);
    }
    match find_member(data, &hex) {
        Some(m) => {
            let key = make_indexed_key(p_member_bytes().as_slice(), m.0);
            proof {
                lemma_indexed_key_clean(p_member(), m.0);
            }
            match update_record(data, key.as_slice(), value.as_slice(), ERR_BAD_CONFIG) {
                Ok(nd) => {
                    proof {
                        lemma_member_keys_distinct(m.0);
                        assert(lookup(nd@, k_member_count()) == lookup(data@, k_member_count()));
                    }
                    Ok(nd)
                },
                Err(e) => Err(e),
            }
        },
        None => {
            let count = get_member_count(data);
            if count as usize >= MAX_MEMBERS {
                return Err(ERR_BAD_CONFIG);
            }
            let entries0 = split_record(data);
            let ck = k_member_count_bytes();
            let mut entries = drop_entries(&entries0, ck.as_slice());
            let count_val = format_u8(count + 1);
            let centry = make_entry(ck.as_slice(), count_val.as_slice());
            entries.push(centry);
            let mkey = make_indexed_key(p_member_bytes().as_slice(), count);
            let ventry = make_entry(mkey.as_slice(), value.as_slice());
            entries.push(ventry);
            let ghost es1 = set_member_entries(data@, hex@, voting_power, roles);
            let ghost ce = entry_of(k_member_count(), dec_digits((count + 1) as nat));
            let ghost me = entry_of(indexed_key(p_member(), count), member_value_of(hex@, voting_power, roles));
            proof {
                assert(views(entries@) == es1);
                crate::num::lemma_dec_digits_all_digits((count + 1) as nat);
                crate::keys::lemma_clean_digits((count + 1) as nat);
                lemma_indexed_key_clean(p_member(), count);
                lemma_record_entries_wf(data@);
                lemma_drop_wf(es0, k_member_count());
                lemma_entry_of(k_member_count(), dec_digits((count + 1) as nat));
                lemma_entry_of(indexed_key(p_member(), count), member_value_of(hex@, voting_power, roles));
                crate::record::lemma_push_wf(drop_key(es0, k_member_count()), ce);
                crate::record::lemma_push_wf(drop_key(es0, k_member_count()).push(ce), me);
            }
            match seal_record(&entries) {
                Ok(nd) => {
                    proof {
                        lemma_entries_of_joined(es1);
                        let d1 = drop_key(es0, k_member_count());
                        let tail = seq![ce, me];
                        let mkey = indexed_key(p_member(), count);
                        lemma_member_keys_distinct(count);
                        assert(es1 =~= d1 + tail);
                        assert(tail[0] == ce && tail[1] == me);
                        assert forall|q: Seq<u8>| true implies #[trigger] lookup_in(es1, q)
                            == (if lookup_in(d1, q) is Some {
                            lookup_in(d1, q)
                        } else if q == k_member_count() {
                            Some(dec_digits((count + 1) as nat))
                        } else if q == mkey {
                            Some(member_value_of(hex@, voting_power, roles))
                        } else {
                            None
                        }) by {
                            crate::record::lemma_lookup_in_append(d1, tail, q);
                            if q == k_member_count() {
                                crate::record::lemma_lookup_in_at(tail, q, 0);
                            } else if q == mkey {
                                crate::record::lemma_lookup_in_at(tail, q, 1);
                            } else {
                                crate::record::lemma_lookup_in_none(tail, q);
                            }
                        }
                        assert forall|q: Seq<u8>| q != k_member_count() implies #[trigger] lookup_in(
                            d1,
                            q,
                        ) == lookup(data@, q) by {
                            crate::record::lemma_lookup_drop(es0, k_member_count(), q);
                        }
                        crate::record::lemma_lookup_drop(es0, k_member_count(), k_member_count());
                        crate::num::lemma_dec_digits_value((count + 1) as nat);
                        crate::num::lemma_dec_digits_all_digits((count + 1) as nat);
                        assert(lookup(nd@, k_member_count()) == Some(dec_digits((count + 1) as nat)));
                        assert(member_count_of(nd@) == count + 1);
                    }
                    Ok(nd)
                },
                Err(e) => Err(e),
            }
        },
    }
}

/// Grant a role bit to an account: roles are OR'd, power is unchanged.
/// Role bits lie within the three-bit mask the design defines.
pub fn grant_role(data: &[u8], account: &[u8; 20], role: u8) -> (r: Result<Vec<u8>, i32>)
    requires
        role <= 7,
        roles_of(data@, account@) <= 7,
    ensures
        set_member_post(
            data@,
            account@,
            votes_of(data@, account@),
            roles_of(data@, account@) | role,
            r,
        ),
{
    let current_roles = get_roles(data, account);
    let power = get_votes(data, account);
    proof {
        let cr = roles_of(data@, account@);
        assert((cr | role) <= 7) by (bit_vector)
            requires
                cr <= 7,
                role <= 7,
        ;
    }
    set_member(data, account, power, current_roles | role)
}

/// Revoke a role bit from an account: roles are AND-NOT'd, power is
/// unchanged.
pub fn revoke_role(data: &[u8], account: &[u8; 20], role: u8) -> (r: Result<Vec<u8>, i32>)
    requires
        roles_of(data@, account@) <= 7,
    ensures
        set_member_post(
            data@,
            account@,
            votes_of(data@, account@),
            roles_of(data@, account@) & !role,
            r,
        ),
{
    let current_roles = get_roles(data, account);
    let power = get_votes(data, account);
    proof {
        let cr = roles_of(data@, account@);
        assert((cr & !role) <= 7) by (bit_vector)
            requires
                cr <= 7,
        ;
    }
    set_member(data, account, power, current_roles & !role)
}


/// Distinct slots have distinct member keys.
proof fn lemma_member_key_injective(a: u8, b: u8)
    requires
        a != b,
    ensures
        indexed_key(p_member(), a) != indexed_key(p_member(), b),
{
    if indexed_key(p_member(), a) == indexed_key(p_member(), b) {
        assert(indexed_key(p_member(), a).len() == indexed_key(p_member(), b).len());
        assert(p_member().len() + dec_digits(a as nat).len() == p_member().len() + dec_digits(
            b as nat,
        ).len());
        assert(dec_digits(a as nat) =~= dec_digits(b as nat)) by {
            assert forall|j: int| 0 <= j < dec_digits(a as nat).len() implies dec_digits(
                a as nat,
            )[j] == dec_digits(b as nat)[j] by {
                assert(indexed_key(p_member(), a)[p_member().len() + j] == dec_digits(a as nat)[j]);
                assert(indexed_key(p_member(), b)[p_member().len() + j] == dec_digits(b as nat)[j]);
            }
        }
        crate::num::lemma_dec_digits_injective(a as nat, b as nat);
    }
}

/// A serialized member value parses back to its power and roles.
proof fn lemma_parse_member_value(hex: Seq<u8>, power: u64, roles: u8)
    requires
        hex.len() == 40,
        roles <= 9,
    ensures
        parse_member_spec(member_value_of(hex, power, roles)) == Some((power, roles)),
        member_value_of(hex, power, roles).len() >= 44,
        member_value_of(hex, power, roles).take(40) == hex,
{
    let v = member_value_of(hex, power, roles);
    let d = dec_digits(power as nat);
    crate::num::lemma_dec_digits_all_digits(power as nat);
    crate::num::lemma_dec_digits_value(power as nat);
    assert(v.len() == 43 + d.len());
    assert(v[40] == COLON_BYTE);
    assert(v.take(40) =~= hex);
    let rest = v.skip(41);
    assert(rest =~= d + seq![COLON_BYTE] + seq![(48 + roles) as u8]);
    assert forall|j: int| 0 <= j < d.len() implies rest[j] != COLON_BYTE by {
        assert(rest[j] == d[j]);
        assert(crate::num::is_digit(d[j]));
    }
    assert(rest[d.len() as int] == COLON_BYTE);
    lemma_first_at_is(rest, COLON_BYTE, d.len() as int);
    assert(rest.take(d.len() as int) =~= d);
    assert(rest[d.len() as int + 1] == (48 + roles) as u8);
}

/// Below a found slot (or below the count, when none is found) no slot
/// matches.
proof fn lemma_find_member_not_before(data: Seq<u8>, hex: Seq<u8>, j: u8)
    requires
        j <= member_count_of(data),
    ensures
        match find_member_from(data, hex, j) {
            Some(m) => forall|k: int|
                j <= k < m.0 ==> !(#[trigger] member_match(data, k as u8, hex)),
            None => forall|k: int|
                j <= k < member_count_of(data) ==> !(#[trigger] member_match(data, k as u8, hex)),
        },
    decreases member_count_of(data) - j,
{
    if j < member_count_of(data) && !member_match(data, j, hex) {
        lemma_find_member_not_before(data, hex, (j + 1) as u8);
        match find_member_from(data, hex, j) {
            Some(m) => {
                assert forall|k: int| j <= k < m.0 implies !(#[trigger] member_match(
                    data,
                    k as u8,
                    hex,
                )) by {
                    if k > j {
                        assert(!member_match(data, k as u8, hex));
                    }
                }
            },
            None => {
                assert forall|k: int|
                    j <= k < member_count_of(data) implies !(#[trigger] member_match(
                    data,
                    k as u8,
                    hex,
                )) by {
                    if k > j {
                        assert(!member_match(data, k as u8, hex));
                    }
                }
            },
        }
    }
}

/// A matching slot below which nothing matches is what the scan finds.
proof fn lemma_find_member_at_from(data: Seq<u8>, hex: Seq<u8>, i: u8, power: u64, roles: u8, j: u8)
    requires
        j <= i < member_count_of(data),
        member_match(data, i, hex),
        parse_member_spec(member_value(data, i)->0) == Some((power, roles)),
        forall|k: int| j <= k < i ==> !(#[trigger] member_match(data, k as u8, hex)),
    ensures
        find_member_from(data, hex, j) == Some((i, power, roles)),
    decreases i - j,
{
    if j < i {
        assert(!member_match(data, (j as int) as u8, hex));
        lemma_find_member_at_from(data, hex, i, power, roles, (j + 1) as u8);
    }
}

/// Law: a stored member reads back exactly.  After a successful
/// `set_member` the account's power and roles are the stored ones; in
/// particular, `grant_role` and `revoke_role`, which pass the current
/// power through, never alter voting power.  For a new account the
/// target slot must be free, as it is in any record the engine built.
pub proof fn lemma_set_member_reads(
    data: Seq<u8>,
    account: Seq<u8>,
    power: u64,
    roles: u8,
    nd: Vec<u8>,
)
    requires
        roles <= 9,
        account.len() == 20,
        set_member_post(data, account, power, roles, Ok(nd)),
        find_member_spec(data, bytes_to_hex(account)) is None ==> lookup(
            data,
            set_member_target(data, bytes_to_hex(account)),
        ) is None,
    ensures
        votes_of(nd@, account) == power,
        roles_of(nd@, account) == roles,
{
    let hex = bytes_to_hex(account);
    let count = member_count_of(data);
    lemma_parse_member_value(hex, power, roles);
    match find_member_spec(data, hex) {
        Some(m) => {
            let target = indexed_key(p_member(), m.0);
            lemma_find_member_from_props(data, hex, 0);
            lemma_find_member_not_before(data, hex, 0);
            assert(member_count_of(nd@) == count);
            assert(lookup(nd@, target) == Some(member_value_of(hex, power, roles)));
            assert forall|k: int| 0 <= k < m.0 implies !(#[trigger] member_match(
                nd@,
                k as u8,
                hex,
            )) by {
                lemma_member_key_injective(k as u8, m.0);
                lemma_member_keys_distinct(k as u8);
                assert(lookup(nd@, indexed_key(p_member(), k as u8)) == lookup(
                    data,
                    indexed_key(p_member(), k as u8),
                ));
                assert(!member_match(data, k as u8, hex));
            }
            assert(member_match(nd@, m.0, hex));
            lemma_find_member_at_from(nd@, hex, m.0, power, roles, 0);
        },
        None => {
            let target = indexed_key(p_member(), count);
            lemma_find_member_not_before(data, hex, 0);
            assert(member_count_of(nd@) == count + 1);
            assert(lookup(nd@, target) == Some(member_value_of(hex, power, roles)));
            assert forall|k: int| 0 <= k < count implies !(#[trigger] member_match(
                nd@,
                k as u8,
                hex,
            )) by {
                lemma_member_key_injective(k as u8, count);
                lemma_member_keys_distinct(k as u8);
                assert(lookup(nd@, indexed_key(p_member(), k as u8)) == lookup(
                    data,
                    indexed_key(p_member(), k as u8),
                ));
                assert(!member_match(data, k as u8, hex));
            }
            assert(member_match(nd@, count, hex));
            lemma_find_member_at_from(nd@, hex, count, power, roles, 0);
        },
    }
}

} // verus!
