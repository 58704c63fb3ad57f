use crate::coverage::{coverage_ok, owners};
use crate::identity::{ids, Identity};
use vstd::prelude::*;

verus! {

/// One member's copy of the group key, wrapped under that member's public key.
#[derive(Debug, Clone)]
pub struct MemberWrappedKey {
    pub member: Identity,
    pub wrapped_key: Vec<u8>,
}

/// The registered public key of one owner.
#[derive(Debug, Clone)]
pub struct Registry {
    pub owner: Identity,
    pub pq_public_key: Vec<u8>,
    pub updated_at_slot: u64,
}

/// A group: its fixed members, its current key version and the wrapped keys of that version.
#[derive(Debug, Clone)]
pub struct GroupState {
    pub group_id: [u8; 32],
    pub members: Vec<Identity>,
    pub key_version: u64,
    pub wrapped_keys: Vec<MemberWrappedKey>,
    pub created_at_slot: u64,
    pub updated_at_slot: u64,
}

/// The message sequencer of a group: the id that the next message gets.
#[derive(Debug, Clone)]
pub struct GroupCounter {
    pub group: [u8; 32],
    pub next_id: u64,
}

/// A message submitted to a group. It is never changed once written.
#[derive(Debug, Clone)]
pub struct GroupMessage {
    pub group: [u8; 32],
    pub sender: Identity,
    pub msg_id: u64,
    pub key_version: u64,
    pub ciphertext: Vec<u8>,
    pub nonce: Vec<u8>,
    pub created_at_slot: u64,
}

/// Whether a member list is acceptable for a group: between one and the
/// largest number of members, with no identity twice.
pub open spec fn members_ok(ms: Seq<Seq<u8>>) -> bool {
    &&& 1 <= ms.len() <= crate::MAX_MEMBERS
    &&& ms.no_duplicates()
}

impl GroupState {
    /// The group's members, each as its bytes.
    pub open spec fn member_ids(&self) -> Seq<Seq<u8>> {
        ids(self.members@)
    }

    /// The invariant of a group record.
    pub open spec fn wf(&self) -> bool {
        &&& members_ok(self.member_ids())
        &&& coverage_ok(self.member_ids(), self.wrapped_keys@)
        &&& self.key_version >= 1
    }

    /// Whether `who` is one of the group's members.
    pub open spec fn has_member(&self, who: Seq<u8>) -> bool {
        self.member_ids().contains(who)
    }

    /// The owners of the wrapped keys, each as its bytes.
    pub open spec fn key_owners(&self) -> Seq<Seq<u8>> {
        owners(self.wrapped_keys@)
    }
}

} // verus!
