use relay::coverage::validate_wrapped_keys;
use relay::error::RelayError;
use relay::identity::{has_duplicates, is_member, Identity};
use relay::ops::{create_group, register, rotate_group_key, send_group_message};
use relay::state::{GroupCounter, GroupState, MemberWrappedKey, Registry};

fn alice() -> Identity {
    Identity::new([0xA1; 32])
}

fn bob() -> Identity {
    Identity::new([0xB0; 32])
}

fn carol() -> Identity {
    Identity::new([0xC4; 32])
}

fn id_n(n: u8) -> Identity {
    let mut b = [0u8; 32];
    b[31] = n;
    Identity::new(b)
}

fn wk(member: Identity, blob: &[u8]) -> MemberWrappedKey {
    MemberWrappedKey { member, wrapped_key: blob.to_vec() }
}

fn gid() -> [u8; 32] {
    [7u8; 32]
}

fn empty_registry() -> Registry {
    Registry { owner: Identity::new([0; 32]), pq_public_key: Vec::new(), updated_at_slot: 0 }
}

fn group_ab() -> (GroupState, GroupCounter) {
    create_group(
        gid(),
        vec![alice(), bob()],
        vec![wk(alice(), b"kA"), wk(bob(), b"kB")],
        alice(),
        10,
    )
    .unwrap()
}

#[test]
fn scenario_create_group_succeeds_at_version_one() {
    let (g, c) = group_ab();
    assert_eq!(g.key_version, 1);
    assert_eq!(g.group_id, gid());
    assert_eq!(g.members.len(), 2);
    assert_eq!(g.wrapped_keys.len(), 2);
    assert_eq!(g.created_at_slot, 10);
    assert_eq!(g.updated_at_slot, 10);
    assert_eq!(c.next_id, 0);
    assert_eq!(c.group, gid());
}

#[test]
fn scenario_rotate_by_member_bumps_version() {
    let (mut g, _c) = group_ab();
    let r = rotate_group_key(&mut g, gid(), bob(), vec![wk(alice(), b"kA2"), wk(bob(), b"kB2")], 11);
    assert_eq!(r, Ok(2));
    assert_eq!(g.key_version, 2);
    assert_eq!(g.wrapped_keys[0].wrapped_key, b"kA2".to_vec());
    assert_eq!(g.wrapped_keys[1].wrapped_key, b"kB2".to_vec());
    assert_eq!(g.members.len(), 2);
    assert!(g.members[0].same(&alice()));
    assert!(g.members[1].same(&bob()));
    assert_eq!(g.updated_at_slot, 11);
    assert_eq!(g.created_at_slot, 10);
}

#[test]
fn scenario_send_with_stale_version_fails() {
    let (mut g, mut c) = group_ab();
    rotate_group_key(&mut g, gid(), bob(), vec![wk(alice(), b"kA2"), wk(bob(), b"kB2")], 11).unwrap();
    let r = send_group_message(&g, &mut c, gid(), alice(), 1, b"ct".to_vec(), b"n".to_vec(), 12);
    assert_eq!(r.unwrap_err(), RelayError::KeyVersionMismatch);
    assert_eq!(c.next_id, 0);
}

#[test]
fn scenario_send_with_current_version_assigns_ids_in_order() {
    let (mut g, mut c) = group_ab();
    rotate_group_key(&mut g, gid(), bob(), vec![wk(alice(), b"kA2"), wk(bob(), b"kB2")], 11).unwrap();
    let m0 = send_group_message(&g, &mut c, gid(), alice(), 2, b"ct".to_vec(), b"n".to_vec(), 12).unwrap();
    assert_eq!(m0.msg_id, 0);
    let m1 = send_group_message(&g, &mut c, gid(), alice(), 2, b"ct".to_vec(), b"n".to_vec(), 13).unwrap();
    assert_eq!(m1.msg_id, 1);
    assert_eq!(c.next_id, 2);
    assert_eq!(m1.key_version, 2);
    assert_eq!(m1.group, gid());
    assert!(m1.sender.same(&alice()));
    assert_eq!(m1.ciphertext, b"ct".to_vec());
    assert_eq!(m1.nonce, b"n".to_vec());
    assert_eq!(m1.created_at_slot, 13);
}

#[test]
fn scenario_missing_key_fails_then_valid_create_succeeds() {
    let gid2 = [9u8; 32];
    let r = create_group(gid2, vec![alice(), bob()], vec![wk(alice(), b"kA")], alice(), 5);
    assert_eq!(r.unwrap_err(), RelayError::KeyCoverageMismatch);
    let (g, c) = create_group(
        gid2,
        vec![alice(), bob()],
        vec![wk(alice(), b"kA"), wk(bob(), b"kB")],
        alice(),
        6,
    )
    .unwrap();
    assert_eq!(g.group_id, gid2);
    assert_eq!(g.key_version, 1);
    assert_eq!(c.next_id, 0);
}

#[test]
fn create_group_membership_errors() {
    let keys = vec![wk(alice(), b"kA"), wk(bob(), b"kB")];
    // creator not a member
    let r = create_group(gid(), vec![alice(), bob()], keys.clone(), carol(), 1);
    assert_eq!(r.unwrap_err(), RelayError::InvalidMembership);
    // no members
    let r = create_group(gid(), vec![], vec![], alice(), 1);
    assert_eq!(r.unwrap_err(), RelayError::InvalidMembership);
    // a member twice
    let r = create_group(gid(), vec![alice(), alice()], vec![wk(alice(), b"k"), wk(alice(), b"k")], alice(), 1);
    assert_eq!(r.unwrap_err(), RelayError::InvalidMembership);
}

#[test]
fn create_group_member_cap() {
    let members: Vec<Identity> = (0..20u8).map(id_n).collect();
    let keys: Vec<MemberWrappedKey> = (0..20u8).map(|n| wk(id_n(n), b"k")).collect();
    let (g, _) = create_group(gid(), members.clone(), keys.clone(), id_n(3), 1).unwrap();
    assert_eq!(g.members.len(), 20);

    let mut members21 = members;
    members21.push(id_n(20));
    let mut keys21 = keys;
    keys21.push(wk(id_n(20), b"k"));
    let r = create_group(gid(), members21, keys21, id_n(3), 1);
    assert_eq!(r.unwrap_err(), RelayError::InvalidMembership);
}

#[test]
fn coverage_rejections() {
    let members = vec![alice(), bob()];
    assert_eq!(validate_wrapped_keys(&members, &vec![wk(alice(), b"a"), wk(bob(), b"b")]), Ok(()));
    // order of keys does not matter
    assert_eq!(validate_wrapped_keys(&members, &vec![wk(bob(), b"b"), wk(alice(), b"a")]), Ok(()));
    // too few
    assert_eq!(validate_wrapped_keys(&members, &vec![wk(alice(), b"a")]), Err(RelayError::KeyCoverageMismatch));
    // an outsider
    assert_eq!(
        validate_wrapped_keys(&members, &vec![wk(alice(), b"a"), wk(carol(), b"c")]),
        Err(RelayError::KeyCoverageMismatch)
    );
    // one member twice, the other left out
    assert_eq!(
        validate_wrapped_keys(&members, &vec![wk(alice(), b"a"), wk(alice(), b"b")]),
        Err(RelayError::KeyCoverageMismatch)
    );
    // empty blob
    assert_eq!(
        validate_wrapped_keys(&members, &vec![wk(alice(), b""), wk(bob(), b"b")]),
        Err(RelayError::KeyCoverageMismatch)
    );
    // largest and too large blob
    let big = vec![1u8; 1200];
    let too_big = vec![1u8; 1201];
    assert_eq!(validate_wrapped_keys(&members, &vec![wk(alice(), &big), wk(bob(), b"b")]), Ok(()));
    assert_eq!(
        validate_wrapped_keys(&members, &vec![wk(alice(), &too_big), wk(bob(), b"b")]),
        Err(RelayError::KeyCoverageMismatch)
    );
}

#[test]
fn rotate_errors_leave_group_unchanged() {
    let (mut g, _) = group_ab();
    let keys = vec![wk(alice(), b"x"), wk(bob(), b"y")];
    assert_eq!(rotate_group_key(&mut g, [8u8; 32], alice(), keys.clone(), 2), Err(RelayError::GroupIdMismatch));
    assert_eq!(rotate_group_key(&mut g, gid(), carol(), keys.clone(), 2), Err(RelayError::Unauthorized));
    // a member cannot drop another member from the key distribution
    assert_eq!(
        rotate_group_key(&mut g, gid(), alice(), vec![wk(alice(), b"x")], 2),
        Err(RelayError::KeyCoverageMismatch)
    );
    assert_eq!(g.key_version, 1);
    assert_eq!(g.wrapped_keys[0].wrapped_key, b"kA".to_vec());
    assert_eq!(g.updated_at_slot, 10);

    g.key_version = u64::MAX;
    assert_eq!(rotate_group_key(&mut g, gid(), alice(), keys, 2), Err(RelayError::Overflow));
    assert_eq!(g.key_version, u64::MAX);
}

#[test]
fn rotate_twice_counts_up_by_one_each() {
    let (mut g, _) = group_ab();
    for expected in 2..6u64 {
        let v = rotate_group_key(&mut g, gid(), alice(), vec![wk(bob(), b"b"), wk(alice(), b"a")], expected).unwrap();
        assert_eq!(v, expected);
        assert_eq!(g.members.len(), 2);
    }
}

#[test]
fn send_errors() {
    let (g, mut c) = group_ab();
    let s = |c: &mut GroupCounter, id: [u8; 32], who: Identity, v: u64, ct: Vec<u8>, n: Vec<u8>| {
        send_group_message(&g, c, id, who, v, ct, n, 3)
    };
    assert_eq!(s(&mut c, [0u8; 32], alice(), 1, b"c".to_vec(), b"n".to_vec()).unwrap_err(), RelayError::GroupIdMismatch);
    assert_eq!(s(&mut c, gid(), carol(), 1, b"c".to_vec(), b"n".to_vec()).unwrap_err(), RelayError::Unauthorized);
    // a version ahead of the group's is refused as well
    assert_eq!(s(&mut c, gid(), alice(), 2, b"c".to_vec(), b"n".to_vec()).unwrap_err(), RelayError::KeyVersionMismatch);
    assert_eq!(s(&mut c, gid(), alice(), 0, b"c".to_vec(), b"n".to_vec()).unwrap_err(), RelayError::KeyVersionMismatch);
    assert_eq!(s(&mut c, gid(), alice(), 1, vec![], b"n".to_vec()).unwrap_err(), RelayError::PayloadTooLong);
    assert_eq!(s(&mut c, gid(), alice(), 1, vec![0; 1201], b"n".to_vec()).unwrap_err(), RelayError::PayloadTooLong);
    assert_eq!(s(&mut c, gid(), alice(), 1, b"c".to_vec(), vec![]).unwrap_err(), RelayError::PayloadTooLong);
    assert_eq!(s(&mut c, gid(), alice(), 1, b"c".to_vec(), vec![0; 65]).unwrap_err(), RelayError::PayloadTooLong);
    assert_eq!(c.next_id, 0);
    assert_eq!(s(&mut c, gid(), bob(), 1, vec![0; 1200], vec![0; 64]).unwrap().msg_id, 0);
    c.next_id = u64::MAX;
    assert_eq!(s(&mut c, gid(), alice(), 1, b"c".to_vec(), b"n".to_vec()).unwrap_err(), RelayError::Overflow);
    assert_eq!(c.next_id, u64::MAX);
}

#[test]
fn send_ids_are_gap_free() {
    let (g, mut c) = group_ab();
    let mut ids = Vec::new();
    for i in 0..50u64 {
        let who = if i % 2 == 0 { alice() } else { bob() };
        // failed sends in between take no id
        let _ = send_group_message(&g, &mut c, gid(), who, 2, b"c".to_vec(), b"n".to_vec(), i);
        ids.push(send_group_message(&g, &mut c, gid(), who, 1, b"c".to_vec(), b"n".to_vec(), i).unwrap().msg_id);
    }
    let expected: Vec<u64> = (0..50).collect();
    assert_eq!(ids, expected);
    assert_eq!(c.next_id, 50);
}

#[test]
fn register_overwrites_previous_key() {
    let mut reg = empty_registry();
    assert_eq!(register(&mut reg, alice(), b"first".to_vec(), 1), Ok(()));
    assert_eq!(reg.pq_public_key, b"first".to_vec());
    assert_eq!(register(&mut reg, alice(), b"second".to_vec(), 2), Ok(()));
    assert_eq!(reg.pq_public_key, b"second".to_vec());
    assert!(reg.owner.same(&alice()));
    assert_eq!(reg.updated_at_slot, 2);
}

#[test]
fn register_rejects_bad_keys() {
    let mut reg = empty_registry();
    register(&mut reg, alice(), b"kept".to_vec(), 1).unwrap();
    assert_eq!(register(&mut reg, alice(), vec![], 2), Err(RelayError::InvalidPublicKey));
    assert_eq!(register(&mut reg, alice(), vec![1; 2001], 3), Err(RelayError::InvalidPublicKey));
    assert_eq!(reg.pq_public_key, b"kept".to_vec());
    assert_eq!(reg.updated_at_slot, 1);
    assert_eq!(register(&mut reg, alice(), vec![1; 2000], 4), Ok(()));
    assert_eq!(reg.pq_public_key.len(), 2000);
}

#[test]
fn identity_helpers() {
    assert!(alice().same(&alice()));
    assert!(!alice().same(&bob()));
    let members = vec![alice(), bob()];
    assert!(is_member(&members, &bob()));
    assert!(!is_member(&members, &carol()));
    assert!(!has_duplicates(&members));
    assert!(has_duplicates(&vec![alice(), bob(), alice()]));
}


#[test]
fn create_group_keys_cover_members_one_for_one() {
    let members = vec![alice(), bob(), carol()];
    let keys = vec![wk(carol(), b"kC"), wk(alice(), b"kA"), wk(bob(), b"kB")];
    let (g, _) = create_group(gid(), members, keys, bob(), 1).unwrap();
    assert_eq!(g.wrapped_keys.len(), g.members.len());
    for m in g.members.iter() {
        assert_eq!(g.wrapped_keys.iter().filter(|k| k.member.same(m)).count(), 1);
    }
    for k in g.wrapped_keys.iter() {
        assert!(is_member(&g.members, &k.member));
    }
    // an outsider in place of a member is refused even with the right count
    let r = create_group(
        gid(),
        vec![alice(), bob(), carol()],
        vec![wk(alice(), b"kA"), wk(bob(), b"kB"), wk(id_n(1), b"kX")],
        alice(),
        1,
    );
    assert_eq!(r.unwrap_err(), RelayError::KeyCoverageMismatch);
}
