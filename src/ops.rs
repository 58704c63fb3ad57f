//! The four operations of the relay, each on the records it reads and writes.
use crate::coverage::{
    blob_ok, coverage_ok, lemma_coverage_is_bijection, validate_wrapped_keys,
};
use crate::error::RelayError;
use crate::identity::{bytes32_eq, has_duplicates, ids, is_member, Identity};
use crate::state::{members_ok, GroupCounter, GroupMessage, GroupState, MemberWrappedKey, Registry};
use vstd::prelude::*;

verus! {

/// A registry record as owner, public key and update slot.
pub open spec fn registry_view(r: Registry) -> (Seq<u8>, Seq<u8>, u64) {
    (r.owner@, r.pq_public_key@, r.updated_at_slot)
}

/// The registry record after a registration of `key` by `owner` at `slot`:
/// a valid key replaces what was there, an invalid one changes nothing.
pub open spec fn register_spec(
    before: (Seq<u8>, Seq<u8>, u64),
    owner: Seq<u8>,
    key: Seq<u8>,
    slot: u64,
) -> (Seq<u8>, Seq<u8>, u64) {
    if blob_ok(key, crate::MAX_PUBLIC_KEY_BYTES as nat) {
        (owner, key, slot)
    } else {
        before
    }
}

/// Registers `pq_public_key` as the public key of `owner`, replacing any key
/// registered before, and stamps the record with `slot`.
pub fn register(registry: &mut Registry, owner: Identity, pq_public_key: Vec<u8>, slot: u64) -> (r:
    Result<(), RelayError>)
    ensures
        r == if blob_ok(pq_public_key@, crate::MAX_PUBLIC_KEY_BYTES as nat) {
            Ok::<(), RelayError>(())
        } else {
            Err(RelayError::InvalidPublicKey)
        },
        registry_view(*final(registry)) == register_spec(
            registry_view(*old(registry)),
            owner@,
            pq_public_key@,
            slot,
        ),
        r is Err ==> *final(registry) == *old(registry),
{
    if pq_public_key.len() == 0 || pq_public_key.len() > crate::MAX_PUBLIC_KEY_BYTES {
        return Err(RelayError::InvalidPublicKey);
    }
    registry.owner = owner;
    registry.pq_public_key = pq_public_key;
    registry.updated_at_slot = slot;
    Ok(())
}

/// Why `create_group` rejects its arguments, if it does.
pub open spec fn create_error(
    members: Seq<Seq<u8>>,
    wrapped_keys: Seq<MemberWrappedKey>,
    creator: Seq<u8>,
) -> Option<RelayError> {
    if !members_ok(members) || !members.contains(creator) {
        Some(RelayError::InvalidMembership)
    } else if !coverage_ok(members, wrapped_keys) {
        Some(RelayError::KeyCoverageMismatch)
    } else {
        None
    }
}

/// Whether `g` and `c` are the records that a successful creation of group
/// `group_id` from `members` and `wrapped_keys` at `slot` makes.
pub open spec fn created(
    g: GroupState,
    c: GroupCounter,
    group_id: [u8; 32],
    members: Seq<Identity>,
    wrapped_keys: Seq<MemberWrappedKey>,
    slot: u64,
) -> bool {
    &&& g.group_id == group_id
    &&& g.members@ == members
    &&& g.key_version == 1
    &&& g.wrapped_keys@ == wrapped_keys
    &&& g.created_at_slot == slot
    &&& g.updated_at_slot == slot
    &&& c.group == group_id
    &&& c.next_id == 0
}

/// Creates the records of a new group: the group itself at key version one,
/// and its message counter at zero. `creator` must be one of `members`, and
/// `wrapped_keys` must hold one wrapped key for each member.
pub fn create_group(
    group_id: [u8; 32],
    members: Vec<Identity>,
    wrapped_keys: Vec<MemberWrappedKey>,
    creator: Identity,
    slot: u64,
) -> (r: Result<(GroupState, GroupCounter), RelayError>)
    ensures
        match r {
            Ok((g, c)) => {
                &&& create_error(ids(members@), wrapped_keys@, creator@) is None
                &&& created(g, c, group_id, members@, wrapped_keys@, slot)
                &&& g.wf()
                &&& g.has_member(creator@)
                &&& g.key_owners().to_multiset() == g.member_ids().to_multiset()
            },
            Err(e) => create_error(ids(members@), wrapped_keys@, creator@) == Some(e),
        },
{
    if members.len() == 0 || members.len() > crate::MAX_MEMBERS || has_duplicates(&members)
        || !is_member(&members, &creator) {
        return Err(RelayError::InvalidMembership);
    }
    validate_wrapped_keys(&members, &wrapped_keys)?;
    proof {
        lemma_coverage_is_bijection(ids(members@), wrapped_keys@);
    }
    let g = GroupState {
        group_id,
        members,
        key_version: 1,
        wrapped_keys,
        created_at_slot: slot,
        updated_at_slot: slot,
    };
    let c = GroupCounter { group: group_id, next_id: 0 };
    Ok((g, c))
}

/// Why `rotate_group_key` rejects its arguments, if it does.
pub open spec fn rotate_error(
    group: GroupState,
    group_id: Seq<u8>,
    signer: Seq<u8>,
    wrapped_keys: Seq<MemberWrappedKey>,
) -> Option<RelayError> {
    if group.group_id@ != group_id {
        Some(RelayError::GroupIdMismatch)
    } else if !group.has_member(signer) {
        Some(RelayError::Unauthorized)
    } else if !coverage_ok(group.member_ids(), wrapped_keys) {
        Some(RelayError::KeyCoverageMismatch)
    } else if group.key_version == u64::MAX {
        Some(RelayError::Overflow)
    } else {
        None
    }
}

/// Whether `after` is `before` moved to its next key version, distributed as
/// `wrapped_keys`, at `slot`: the members and the group id stay as they were.
pub open spec fn rotated(
    before: GroupState,
    after: GroupState,
    wrapped_keys: Seq<MemberWrappedKey>,
    slot: u64,
) -> bool {
    &&& after.key_version == before.key_version + 1
    &&& after.members == before.members
    &&& after.group_id == before.group_id
    &&& after.wrapped_keys@ == wrapped_keys
    &&& after.created_at_slot == before.created_at_slot
    &&& after.updated_at_slot == slot
}

/// Moves `group` to its next key version, distributed as `wrapped_keys`, which
/// must cover the group's current members. Any member may sign. Returns the
/// new key version.
pub fn rotate_group_key(
    group: &mut GroupState,
    group_id: [u8; 32],
    signer: Identity,
    wrapped_keys: Vec<MemberWrappedKey>,
    slot: u64,
) -> (r: Result<u64, RelayError>)
    ensures
        match r {
            Ok(v) => {
                &&& rotate_error(*old(group), group_id@, signer@, wrapped_keys@) is None
                &&& v == old(group).key_version + 1
                &&& rotated(*old(group), *final(group), wrapped_keys@, slot)
            },
            Err(e) => {
                &&& rotate_error(*old(group), group_id@, signer@, wrapped_keys@) == Some(e)
                &&& *final(group) == *old(group)
            },
        },
        old(group).wf() ==> final(group).wf(),
{
    if !bytes32_eq(&group.group_id, &group_id) {
        return Err(RelayError::GroupIdMismatch);
    }
    if !is_member(&group.members, &signer) {
        return Err(RelayError::Unauthorized);
    }
    validate_wrapped_keys(&group.members, &wrapped_keys)?;
    if group.key_version == u64::MAX {
        return Err(RelayError::Overflow);
    }
    group.key_version = group.key_version + 1;
    group.wrapped_keys = wrapped_keys;
    group.updated_at_slot = slot;
    Ok(group.key_version)
}

/// Why `send_group_message` rejects its arguments, if it does, given the
/// counter's next id.
pub open spec fn send_error(
    group: GroupState,
    next_id: u64,
    group_id: Seq<u8>,
    sender: Seq<u8>,
    key_version: u64,
    ciphertext: Seq<u8>,
    nonce: Seq<u8>,
) -> Option<RelayError> {
    if group.group_id@ != group_id {
        Some(RelayError::GroupIdMismatch)
    } else if !group.has_member(sender) {
        Some(RelayError::Unauthorized)
    } else if key_version != group.key_version {
        Some(RelayError::KeyVersionMismatch)
    } else if !blob_ok(ciphertext, crate::MAX_CIPHERTEXT_BYTES as nat) || !blob_ok(
        nonce,
        crate::MAX_NONCE_BYTES as nat,
    ) {
        Some(RelayError::PayloadTooLong)
    } else if next_id == u64::MAX {
        Some(RelayError::Overflow)
    } else {
        None
    }
}

/// Whether one send took the counter from `before` to `after` and gave the
/// message `msg_id`.
pub open spec fn send_assigns(before: u64, after: u64, msg_id: u64) -> bool {
    msg_id == before && after == before + 1
}

/// Whether `m` is the message that `sender` submits to `group` with the
/// given key version and payload at `slot`.
pub open spec fn sent_message(
    m: GroupMessage,
    group: GroupState,
    sender: Seq<u8>,
    key_version: u64,
    ciphertext: Seq<u8>,
    nonce: Seq<u8>,
    slot: u64,
) -> bool {
    &&& m.group == group.group_id
    &&& m.sender@ == sender
    &&& m.key_version == key_version
    &&& m.ciphertext@ == ciphertext
    &&& m.nonce@ == nonce
    &&& m.created_at_slot == slot
}

/// Accepts a message for `group` from `sender`, encrypted under
/// `key_version`, which must be the group's current one. The message gets the
/// counter's next id, and the counter moves on by one.
pub fn send_group_message(
    group: &GroupState,
    counter: &mut GroupCounter,
    group_id: [u8; 32],
    sender: Identity,
    key_version: u64,
    ciphertext: Vec<u8>,
    nonce: Vec<u8>,
    slot: u64,
) -> (r: Result<GroupMessage, RelayError>)
    ensures
        match r {
            Ok(m) => {
                &&& send_error(
                    *group,
                    old(counter).next_id,
                    group_id@,
                    sender@,
                    key_version,
                    ciphertext@,
                    nonce@,
                ) is None
                &&& send_assigns(old(counter).next_id, final(counter).next_id, m.msg_id)
                &&& final(counter).group == old(counter).group
                &&& sent_message(m, *group, sender@, key_version, ciphertext@, nonce@, slot)
                &&& m.key_version == group.key_version
            },
            Err(e) => {
                &&& send_error(
                    *group,
                    old(counter).next_id,
                    group_id@,
                    sender@,
                    key_version,
                    ciphertext@,
                    nonce@,
                ) == Some(e)
                &&& *final(counter) == *old(counter)
            },
        },
        group.group_id@ == group_id@ && group.has_member(sender@) && key_version
            != group.key_version ==> r == Err::<GroupMessage, RelayError>(
            RelayError::KeyVersionMismatch,
        ),
{
    if !bytes32_eq(&group.group_id, &group_id) {
        return Err(RelayError::GroupIdMismatch);
    }
    if !is_member(&group.members, &sender) {
        return Err(RelayError::Unauthorized);
    }
    if key_version != group.key_version {
        return Err(RelayError::KeyVersionMismatch);
    }
    if ciphertext.len() == 0 || ciphertext.len() > crate::MAX_CIPHERTEXT_BYTES {
        return Err(RelayError::PayloadTooLong);
    }
    if nonce.len() == 0 || nonce.len() > crate::MAX_NONCE_BYTES {
        return Err(RelayError::PayloadTooLong);
    }
    if counter.next_id == u64::MAX {
        return Err(RelayError::Overflow);
    }
    let msg_id: u64 = counter.next_id;
    counter.next_id = counter.next_id + 1;
    Ok(
        GroupMessage {
            group: group.group_id,
            sender,
            msg_id,
            key_version,
            ciphertext,
            nonce,
            created_at_slot: slot,
        },
    )
}

/// A second registration leaves only the second key visible, whatever the
/// first one registered: registration overwrites and keeps no history.
pub proof fn lemma_register_overwrites(
    before: (Seq<u8>, Seq<u8>, u64),
    owner: Seq<u8>,
    first: Seq<u8>,
    first_slot: u64,
    second: Seq<u8>,
    second_slot: u64,
)
    requires
        blob_ok(second, crate::MAX_PUBLIC_KEY_BYTES as nat),
    ensures
        register_spec(register_spec(before, owner, first, first_slot), owner, second, second_slot)
            == (owner, second, second_slot),
        register_spec(register_spec(before, owner, first, first_slot), owner, second, second_slot)
            == register_spec(before, owner, second, second_slot),
{
}

/// Successive sends to a fresh counter give the ids 0, 1, ..., n - 1, each
/// once: `counters` holds the counter before each send and after the last,
/// `ids` the id that each send assigned.
pub proof fn lemma_send_ids_gap_free(counters: Seq<u64>, ids: Seq<u64>)
    requires
        counters.len() == ids.len() + 1,
        counters[0] == 0,
        forall|i: int|
            0 <= i < ids.len() ==> send_assigns(counters[i], #[trigger] counters[i + 1], ids[i]),
    ensures
        forall|i: int| 0 <= i < ids.len() ==> #[trigger] ids[i] == i,
        ids.no_duplicates(),
        ids.to_set() == Set::new(|k: u64| k < ids.len()),
        counters.last() == ids.len(),
{
    assert forall|i: int| 0 <= i <= ids.len() implies #[trigger] counters[i] == i by {
        lemma_counter_at(counters, ids, i);
    }
    assert forall|i: int| 0 <= i < ids.len() implies #[trigger] ids[i] == i by {
        assert(send_assigns(counters[i], counters[i + 1], ids[i]));
        assert(counters[i] == i);
    }
    assert(ids.to_set() =~= Set::new(|k: u64| k < ids.len())) by {
        assert forall|k: u64| k < ids.len() implies ids.to_set().contains(k) by {
            assert(ids[k as int] == k);
        }
    }
}

proof fn lemma_counter_at(counters: Seq<u64>, ids: Seq<u64>, i: int)
    requires
        counters.len() == ids.len() + 1,
        counters[0] == 0,
        forall|j: int|
            0 <= j < ids.len() ==> send_assigns(counters[j], #[trigger] counters[j + 1], ids[j]),
        0 <= i <= ids.len(),
    ensures
        counters[i] == i,
    decreases i,
{
    if i > 0 {
        lemma_counter_at(counters, ids, i - 1);
        assert(send_assigns(counters[i - 1], counters[(i - 1) + 1], ids[i - 1]));
    }
}

} // verus!
