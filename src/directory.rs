//! An in-memory directory of relay records: the registry keyed by owner, the
//! groups and their counters keyed by group id, and the append-only message
//! log. It adds to the operations what keyed storage decides: a group id is
//! created once, and an unknown group is not found.
use crate::coverage::blob_ok;
use crate::error::RelayError;
use crate::identity::{bytes32_eq, ids, Identity};
use crate::ops::{
    create_error, created, registry_view, rotate_error, rotated, send_assigns, send_error,
    sent_message,
};
use crate::state::{GroupCounter, GroupMessage, GroupState, MemberWrappedKey, Registry};
use vstd::prelude::*;

verus! {

/// The ids of the messages of group `gid` in `log`.
pub open spec fn log_ids(log: Seq<GroupMessage>, gid: Seq<u8>) -> Set<u64> {
    Set::new(
        |id: u64|
            exists|k: int| 0 <= k < log.len() && log[k].group@ == gid && log[k].msg_id == id,
    )
}

/// All records of a relay, each kept once under its key.
pub struct Relay {
    pub registries: Vec<Registry>,
    pub groups: Vec<GroupState>,
    pub counters: Vec<GroupCounter>,
    pub messages: Vec<GroupMessage>,
}

impl Relay {
    /// The invariant of a relay: its records are keyed uniquely, and its log
    /// holds for each group exactly the ids that the group's counter handed out.
    pub open spec fn wf(&self) -> bool {
        self.records_wf() && self.log_wf()
    }

    /// Each message belongs to a group, no two messages of a group share an
    /// id, and the ids of a group's messages are those below its next id.
    pub open spec fn log_wf(&self) -> bool {
        &&& forall|k: int|
            0 <= k < self.messages@.len() ==> self.has_group((#[trigger] self.messages@[k]).group@)
        &&& forall|a: int, b: int|
            0 <= a < b < self.messages@.len() && self.messages@[a].group@
                == self.messages@[b].group@ ==> self.messages@[a].msg_id
                != self.messages@[b].msg_id
        &&& forall|i: int|
            0 <= i < self.groups@.len() ==> log_ids(
                self.messages@,
                (#[trigger] self.groups@[i]).group_id@,
            ) == Set::new(|id: u64| id < self.counters@[i].next_id)
    }

    /// Keys are unique, each group has its counter at the same place, and
    /// each group keeps its own invariant.
    pub open spec fn records_wf(&self) -> bool {
        &&& forall|i: int, j: int|
            0 <= i < j < self.registries@.len() ==> self.registries@[i].owner@
                != self.registries@[j].owner@
        &&& self.counters@.len() == self.groups@.len()
        &&& forall|i: int, j: int|
            0 <= i < j < self.groups@.len() ==> self.groups@[i].group_id@
                != self.groups@[j].group_id@
        &&& forall|i: int|
            0 <= i < self.groups@.len() ==> (#[trigger] self.groups@[i]).wf()
                && self.counters@[i].group == self.groups@[i].group_id
    }

    /// Whether `owner` has a registry record.
    pub open spec fn has_registry(&self, owner: Seq<u8>) -> bool {
        exists|i: int| 0 <= i < self.registries@.len() && self.registries@[i].owner@ == owner
    }

    /// The registry, as a map from owner to its record.
    pub open spec fn registry_map(&self) -> Map<Seq<u8>, (Seq<u8>, Seq<u8>, u64)> {
        Map::new(
            |o: Seq<u8>| self.has_registry(o),
            |o: Seq<u8>|
                registry_view(
                    self.registries@[choose|i: int|
                        0 <= i < self.registries@.len() && self.registries@[i].owner@ == o],
                ),
        )
    }

    /// Whether a group with id `gid` exists.
    pub open spec fn has_group(&self, gid: Seq<u8>) -> bool {
        exists|i: int| 0 <= i < self.groups@.len() && self.groups@[i].group_id@ == gid
    }

    /// The groups, as a map from group id to the group and its counter.
    pub open spec fn group_map(&self) -> Map<Seq<u8>, (GroupState, GroupCounter)> {
        Map::new(
            |g: Seq<u8>| self.has_group(g),
            |g: Seq<u8>|
                {
                    let i = choose|i: int|
                        0 <= i < self.groups@.len() && self.groups@[i].group_id@ == g;
                    (self.groups@[i], self.counters@[i])
                },
        )
    }

    /// An empty relay.
    pub fn new() -> (r: Relay)
        ensures
            r.wf(),
            r.registry_map() == Map::<Seq<u8>, (Seq<u8>, Seq<u8>, u64)>::empty(),
            r.group_map() == Map::<Seq<u8>, (GroupState, GroupCounter)>::empty(),
            r.messages@ == Seq::<GroupMessage>::empty(),
    {
        let r = Relay {
            registries: Vec::new(),
            groups: Vec::new(),
            counters: Vec::new(),
            messages: Vec::new(),
        };
        assert(r.registry_map() =~= Map::<Seq<u8>, (Seq<u8>, Seq<u8>, u64)>::empty());
        assert(r.group_map() =~= Map::<Seq<u8>, (GroupState, GroupCounter)>::empty());
        r
    }

    /// Where the registry record of `owner` stands, if it has one.
    fn find_registry(&self, owner: &Identity) -> (r: Option<usize>)
        ensures
            match r {
                Some(i) => i < self.registries@.len() && self.registries@[i as int].owner@
                    == owner@,
                None => !self.has_registry(owner@),
            },
    {
        let mut i: usize = 0;
        while i < self.registries.len()
            invariant
                0 <= i <= self.registries@.len(),
                forall|k: int| 0 <= k < i ==> self.registries@[k].owner@ != owner@,
            decreases self.registries@.len() - i,
        {
            if self.registries[i].owner.same(owner) {
                return Some(i);
            }
            i = i + 1;
        }
        None
    }

    /// Where the group `gid` stands, if it exists.
    fn find_group(&self, gid: &[u8; 32]) -> (r: Option<usize>)
        ensures
            match r {
                Some(i) => i < self.groups@.len() && self.groups@[i as int].group_id@ == gid@,
                None => !self.has_group(gid@),
            },
    {
        let mut i: usize = 0;
        while i < self.groups.len()
            invariant
                0 <= i <= self.groups@.len(),
                forall|k: int| 0 <= k < i ==> self.groups@[k].group_id@ != gid@,
            decreases self.groups@.len() - i,
        {
            if bytes32_eq(&self.groups[i].group_id, gid) {
                return Some(i);
            }
            i = i + 1;
        }
        None
    }

    /// Registers `pq_public_key` as the public key of `owner`, creating the
    /// owner's record or replacing the key in it.
    pub fn register(&mut self, owner: Identity, pq_public_key: Vec<u8>, slot: u64) -> (r: Result<
        (),
        RelayError,
    >)
        requires
            old(self).wf(),
        ensures
            final(self).wf(),
            r == if blob_ok(pq_public_key@, crate::MAX_PUBLIC_KEY_BYTES as nat) {
                Ok::<(), RelayError>(())
            } else {
                Err(RelayError::InvalidPublicKey)
            },
            final(self).registry_map() == if r is Ok {
                old(self).registry_map().insert(owner@, (owner@, pq_public_key@, slot))
            } else {
                old(self).registry_map()
            },
            final(self).groups == old(self).groups,
            final(self).counters == old(self).counters,
            final(self).messages == old(self).messages,
    {
        let ghost before = *self;
        let ghost key = pq_public_key@;
        match self.find_registry(&owner) {
            Some(i) => {
                let res = crate::ops::register(&mut self.registries[i], owner, pq_public_key, slot);
                proof {
                    if res is Ok {
                        lemma_registry_replaced(before, *self, i as int);
                    } else {
                        assert(self.registries@ =~= before.registries@);
                    }
                }
                res
            },
            None => {
                let mut rec = Registry { owner, pq_public_key: Vec::new(), updated_at_slot: 0 };
                let res = crate::ops::register(&mut rec, owner, pq_public_key, slot);
                if res.is_ok() {
                    self.registries.push(rec);
                    proof {
                        lemma_registry_added(before, *self);
                    }
                }
                res
            },
        }
    }

    /// Creates group `group_id` with its counter. An id in use is refused with
    /// `AlreadyExists`; otherwise the rules of creation decide.
    pub fn create_group(
        &mut self,
        group_id: [u8; 32],
        members: Vec<Identity>,
        wrapped_keys: Vec<MemberWrappedKey>,
        creator: Identity,
        slot: u64,
    ) -> (r: Result<(), RelayError>)
        requires
            old(self).wf(),
        ensures
            final(self).wf(),
            final(self).registries == old(self).registries,
            final(self).messages == old(self).messages,
            old(self).has_group(group_id@) ==> r == Err::<(), RelayError>(
                RelayError::AlreadyExists,
            ),
            match r {
                Ok(_) => {
                    &&& !old(self).has_group(group_id@)
                    &&& create_error(ids(members@), wrapped_keys@, creator@) is None
                    &&& final(self).group_map() == old(self).group_map().insert(
                        group_id@,
                        final(self).group_map()[group_id@],
                    )
                    &&& created(
                        final(self).group_map()[group_id@].0,
                        final(self).group_map()[group_id@].1,
                        group_id,
                        members@,
                        wrapped_keys@,
                        slot,
                    )
                },
                Err(e) => {
                    &&& !old(self).has_group(group_id@) ==> create_error(
                        ids(members@),
                        wrapped_keys@,
                        creator@,
                    ) == Some(e)
                    &&& *final(self) == *old(self)
                },
            },
    {
        let ghost before = *self;
        if self.find_group(&group_id).is_some() {
            return Err(RelayError::AlreadyExists);
        }
        let (g, c) = crate::ops::create_group(group_id, members, wrapped_keys, creator, slot)?;
        self.groups.push(g);
        self.counters.push(c);
        proof {
            lemma_group_added(before, *self);
            lemma_log_after_create(before, *self);
        }
        Ok(())
    }

    /// Moves group `group_id` to its next key version. An unknown group is
    /// refused with `NotFound`; otherwise the rules of rotation decide.
    pub fn rotate_group_key(
        &mut self,
        group_id: [u8; 32],
        signer: Identity,
        wrapped_keys: Vec<MemberWrappedKey>,
        slot: u64,
    ) -> (r: Result<u64, RelayError>)
        requires
            old(self).wf(),
        ensures
            final(self).wf(),
            final(self).registries == old(self).registries,
            final(self).messages == old(self).messages,
            !old(self).has_group(group_id@) ==> r == Err::<u64, RelayError>(RelayError::NotFound),
            match r {
                Ok(v) => {
                    let g = old(self).group_map()[group_id@].0;
                    let c = old(self).group_map()[group_id@].1;
                    &&& old(self).has_group(group_id@)
                    &&& rotate_error(g, group_id@, signer@, wrapped_keys@) is None
                    &&& v == g.key_version + 1
                    &&& final(self).group_map() == old(self).group_map().insert(
                        group_id@,
                        final(self).group_map()[group_id@],
                    )
                    &&& rotated(g, final(self).group_map()[group_id@].0, wrapped_keys@, slot)
                    &&& final(self).group_map()[group_id@].1 == c
                },
                Err(e) => {
                    &&& old(self).has_group(group_id@) ==> rotate_error(
                        old(self).group_map()[group_id@].0,
                        group_id@,
                        signer@,
                        wrapped_keys@,
                    ) == Some(e)
                    &&& final(self).groups@ == old(self).groups@
                    &&& final(self).counters@ == old(self).counters@
                    &&& final(self).messages@ == old(self).messages@
                },
            },
    {
        let ghost before = *self;
        let i = match self.find_group(&group_id) {
            Some(i) => i,
            None => {
                return Err(RelayError::NotFound);
            },
        };
        proof {
            lemma_group_lookup(before, i as int);
        }
        let res = crate::ops::rotate_group_key(&mut self.groups[i], group_id, signer, wrapped_keys, slot);
        proof {
            if res is Ok {
                lemma_group_replaced(before, *self, i as int);
            } else {
                assert(self.groups@ =~= before.groups@);
            }
            lemma_log_after_rotate(before, *self);
        }
        res
    }

    /// Appends a message to group `group_id` and returns the id it got. An
    /// unknown group is refused with `NotFound`; otherwise the rules of
    /// sending decide.
    pub fn send_group_message(
        &mut self,
        group_id: [u8; 32],
        sender: Identity,
        key_version: u64,
        ciphertext: Vec<u8>,
        nonce: Vec<u8>,
        slot: u64,
    ) -> (r: Result<u64, RelayError>)
        requires
            old(self).wf(),
        ensures
            final(self).wf(),
            final(self).registries == old(self).registries,
            !old(self).has_group(group_id@) ==> r == Err::<u64, RelayError>(RelayError::NotFound),
            match r {
                Ok(id) => {
                    let g = old(self).group_map()[group_id@].0;
                    let c = old(self).group_map()[group_id@].1;
                    let m = final(self).messages@.last();
                    &&& old(self).has_group(group_id@)
                    &&& send_error(
                        g,
                        c.next_id,
                        group_id@,
                        sender@,
                        key_version,
                        ciphertext@,
                        nonce@,
                    ) is None
                    &&& send_assigns(c.next_id, final(self).group_map()[group_id@].1.next_id, id)
                    &&& final(self).group_map() == old(self).group_map().insert(
                        group_id@,
                        final(self).group_map()[group_id@],
                    )
                    &&& final(self).group_map()[group_id@].0 == g
                    &&& final(self).group_map()[group_id@].1.group == c.group
                    &&& final(self).messages@ == old(self).messages@.push(m)
                    &&& m.msg_id == id
                    &&& sent_message(m, g, sender@, key_version, ciphertext@, nonce@, slot)
                },
                Err(e) => {
                    &&& old(self).has_group(group_id@) ==> send_error(
                        old(self).group_map()[group_id@].0,
                        old(self).group_map()[group_id@].1.next_id,
                        group_id@,
                        sender@,
                        key_version,
                        ciphertext@,
                        nonce@,
                    ) == Some(e)
                    &&& final(self).groups@ == old(self).groups@
                    &&& final(self).counters@ == old(self).counters@
                    &&& final(self).messages@ == old(self).messages@
                },
            },
    {
        let ghost before = *self;
        let i = match self.find_group(&group_id) {
            Some(i) => i,
            None => {
                return Err(RelayError::NotFound);
            },
        };
        proof {
            lemma_group_lookup(before, i as int);
        }
        let res = crate::ops::send_group_message(
            &self.groups[i],
            &mut self.counters[i],
            group_id,
            sender,
            key_version,
            ciphertext,
            nonce,
            slot,
        );
        match res {
            Ok(m) => {
                let id: u64 = m.msg_id;
                let ghost msg = m;
                proof {
                    lemma_group_replaced(before, *self, i as int);
                }
                self.messages.push(m);
                proof {
                    lemma_log_after_send(before, *self, i as int, msg);
                }
                Ok(id)
            },
            Err(e) => {
                assert(self.counters@ =~= before.counters@);
                proof {
                    lemma_log_after_rotate(before, *self);
                }
                Err(e)
            },
        }
    }
}

/// The group at `i` and its counter are what the group map holds for its id.
proof fn lemma_group_lookup(rel: Relay, i: int)
    requires
        rel.records_wf(),
        0 <= i < rel.groups@.len(),
    ensures
        rel.group_map().contains_key(rel.groups@[i].group_id@),
        rel.group_map()[rel.groups@[i].group_id@] == (rel.groups@[i], rel.counters@[i]),
{
    let o = rel.groups@[i].group_id@;
    assert(rel.has_group(o));
    let j = choose|j: int| 0 <= j < rel.groups@.len() && rel.groups@[j].group_id@ == o;
    if j < i {
        assert(rel.groups@[j].group_id@ != rel.groups@[i].group_id@);
    } else if i < j {
        assert(rel.groups@[i].group_id@ != rel.groups@[j].group_id@);
    }
}

/// Replacing the group at `i`, or its counter, under the same id updates the
/// map there alone.
proof fn lemma_group_replaced(before: Relay, after: Relay, i: int)
    requires
        before.records_wf(),
        0 <= i < before.groups@.len(),
        after.groups@.len() == before.groups@.len(),
        after.counters@.len() == before.counters@.len(),
        after.groups@[i].group_id == before.groups@[i].group_id,
        after.counters@[i].group == before.counters@[i].group,
        after.groups@[i].wf(),
        forall|k: int|
            0 <= k < before.groups@.len() && k != i ==> after.groups@[k] == before.groups@[k]
                && after.counters@[k] == before.counters@[k],
        after.registries == before.registries,
    ensures
        after.records_wf(),
        after.group_map() == before.group_map().insert(
            after.groups@[i].group_id@,
            (after.groups@[i], after.counters@[i]),
        ),
{
    let o = after.groups@[i].group_id@;
    assert forall|a: int, b: int| 0 <= a < b < after.groups@.len() implies after.groups@[a].group_id@
        != after.groups@[b].group_id@ by {
        assert(before.groups@[a].group_id@ != before.groups@[b].group_id@);
    }
    assert forall|k: int| 0 <= k < after.groups@.len() implies (#[trigger] after.groups@[k]).wf()
        && after.counters@[k].group == after.groups@[k].group_id by {
        if k != i {
            assert(before.groups@[k].wf());
        }
    }
    assert(after.records_wf());
    let m = before.group_map().insert(o, (after.groups@[i], after.counters@[i]));
    assert forall|x: Seq<u8>| after.group_map().contains_key(x) implies m.contains_key(x)
        && after.group_map()[x] == m[x] by {
        let j = choose|j: int| 0 <= j < after.groups@.len() && after.groups@[j].group_id@ == x;
        lemma_group_lookup(after, j);
        if j != i {
            lemma_group_lookup(before, j);
        }
    }
    assert forall|x: Seq<u8>| m.contains_key(x) implies after.group_map().contains_key(x) by {
        if x != o {
            let j = choose|j: int| 0 <= j < before.groups@.len() && before.groups@[j].group_id@ == x;
            assert(after.groups@[j].group_id@ == x);
        } else {
            assert(after.groups@[i].group_id@ == x);
        }
    }
    assert(after.group_map() =~= m);
}

/// Adding a group of a new id, with its counter, at the end adds that id to the map.
proof fn lemma_group_added(before: Relay, after: Relay)
    requires
        before.records_wf(),
        after.groups@.len() == before.groups@.len() + 1,
        after.counters@.len() == before.counters@.len() + 1,
        !before.has_group(after.groups@.last().group_id@),
        after.groups@.last().wf(),
        after.counters@.last().group == after.groups@.last().group_id,
        forall|k: int|
            0 <= k < before.groups@.len() ==> after.groups@[k] == before.groups@[k]
                && after.counters@[k] == before.counters@[k],
        after.registries == before.registries,
    ensures
        after.records_wf(),
        after.group_map() == before.group_map().insert(
            after.groups@.last().group_id@,
            (after.groups@.last(), after.counters@.last()),
        ),
{
    let n = before.groups@.len() as int;
    let o = after.groups@[n].group_id@;
    assert forall|a: int, b: int| 0 <= a < b < after.groups@.len() implies after.groups@[a].group_id@
        != after.groups@[b].group_id@ by {
        if b < n {
            assert(before.groups@[a].group_id@ != before.groups@[b].group_id@);
        } else {
            assert(before.groups@[a].group_id@ == after.groups@[a].group_id@);
        }
    }
    assert forall|k: int| 0 <= k < after.groups@.len() implies (#[trigger] after.groups@[k]).wf()
        && after.counters@[k].group == after.groups@[k].group_id by {
        if k != n {
            assert(before.groups@[k].wf());
        }
    }
    assert(after.records_wf());
    let m = before.group_map().insert(o, (after.groups@[n], after.counters@[n]));
    assert forall|x: Seq<u8>| after.group_map().contains_key(x) implies m.contains_key(x)
        && after.group_map()[x] == m[x] by {
        let j = choose|j: int| 0 <= j < after.groups@.len() && after.groups@[j].group_id@ == x;
        lemma_group_lookup(after, j);
        if j != n {
            lemma_group_lookup(before, j);
        }
    }
    assert forall|x: Seq<u8>| m.contains_key(x) implies after.group_map().contains_key(x) by {
        if x != o {
            let j = choose|j: int| 0 <= j < before.groups@.len() && before.groups@[j].group_id@ == x;
            assert(after.groups@[j].group_id@ == x);
        } else {
            assert(after.groups@[n].group_id@ == x);
        }
    }
    assert(after.group_map() =~= m);
}

/// The registry record at `i` is what the registry map holds for its owner.
proof fn lemma_registry_lookup(rel: Relay, i: int)
    requires
        rel.records_wf(),
        0 <= i < rel.registries@.len(),
    ensures
        rel.registry_map().contains_key(rel.registries@[i].owner@),
        rel.registry_map()[rel.registries@[i].owner@] == registry_view(rel.registries@[i]),
{
    let o = rel.registries@[i].owner@;
    assert(rel.has_registry(o));
    let j = choose|j: int| 0 <= j < rel.registries@.len() && rel.registries@[j].owner@ == o;
    if j < i {
        assert(rel.registries@[j].owner@ != rel.registries@[i].owner@);
    } else if i < j {
        assert(rel.registries@[i].owner@ != rel.registries@[j].owner@);
    }
}

/// Replacing the record at `i` by one of the same owner updates the map there alone.
proof fn lemma_registry_replaced(before: Relay, after: Relay, i: int)
    requires
        before.records_wf(),
        0 <= i < before.registries@.len(),
        after.registries@.len() == before.registries@.len(),
        after.registries@[i].owner@ == before.registries@[i].owner@,
        forall|k: int|
            0 <= k < before.registries@.len() && k != i ==> after.registries@[k]
                == before.registries@[k],
        after.groups == before.groups,
        after.counters == before.counters,
    ensures
        after.records_wf(),
        after.registry_map() == before.registry_map().insert(
            after.registries@[i].owner@,
            registry_view(after.registries@[i]),
        ),
{
    let o = after.registries@[i].owner@;
    assert forall|a: int, b: int|
        0 <= a < b < after.registries@.len() implies after.registries@[a].owner@
        != after.registries@[b].owner@ by {
        assert(before.registries@[a].owner@ != before.registries@[b].owner@);
    }
    assert(after.records_wf());
    let m = before.registry_map().insert(o, registry_view(after.registries@[i]));
    assert forall|x: Seq<u8>| after.registry_map().contains_key(x) implies m.contains_key(x)
        && after.registry_map()[x] == m[x] by {
        let j = choose|j: int| 0 <= j < after.registries@.len() && after.registries@[j].owner@ == x;
        lemma_registry_lookup(after, j);
        if j != i {
            lemma_registry_lookup(before, j);
        }
    }
    assert forall|x: Seq<u8>| m.contains_key(x) implies after.registry_map().contains_key(x) by {
        if x != o {
            let j = choose|j: int|
                0 <= j < before.registries@.len() && before.registries@[j].owner@ == x;
            assert(after.registries@[j].owner@ == x);
        } else {
            assert(after.registries@[i].owner@ == x);
        }
    }
    assert(after.registry_map() =~= m);
}

/// Adding the record of a new owner at the end adds that owner to the map.
proof fn lemma_registry_added(before: Relay, after: Relay)
    requires
        before.records_wf(),
        after.registries@.len() == before.registries@.len() + 1,
        !before.has_registry(after.registries@.last().owner@),
        forall|k: int|
            0 <= k < before.registries@.len() ==> after.registries@[k] == before.registries@[k],
        after.groups == before.groups,
        after.counters == before.counters,
    ensures
        after.records_wf(),
        after.registry_map() == before.registry_map().insert(
            after.registries@.last().owner@,
            registry_view(after.registries@.last()),
        ),
{
    let n = before.registries@.len() as int;
    let o = after.registries@[n].owner@;
    assert forall|a: int, b: int|
        0 <= a < b < after.registries@.len() implies after.registries@[a].owner@
        != after.registries@[b].owner@ by {
        if b < n {
            assert(before.registries@[a].owner@ != before.registries@[b].owner@);
        } else {
            assert(before.registries@[a].owner@ == after.registries@[a].owner@);
        }
    }
    assert(after.records_wf());
    let m = before.registry_map().insert(o, registry_view(after.registries@[n]));
    assert forall|x: Seq<u8>| after.registry_map().contains_key(x) implies m.contains_key(x)
        && after.registry_map()[x] == m[x] by {
        let j = choose|j: int| 0 <= j < after.registries@.len() && after.registries@[j].owner@ == x;
        lemma_registry_lookup(after, j);
        if j != n {
            lemma_registry_lookup(before, j);
        }
    }
    assert forall|x: Seq<u8>| m.contains_key(x) implies after.registry_map().contains_key(x) by {
        if x != o {
            let j = choose|j: int|
                0 <= j < before.registries@.len() && before.registries@[j].owner@ == x;
            assert(after.registries@[j].owner@ == x);
        } else {
            assert(after.registries@[n].owner@ == x);
        }
    }
    assert(after.registry_map() =~= m);
}

/// Adding a group of a new id with a fresh counter keeps the log consistent:
/// no message belongs to the new group yet.
proof fn lemma_log_after_create(before: Relay, after: Relay)
    requires
        before.wf(),
        after.groups@.len() == before.groups@.len() + 1,
        after.counters@.len() == before.counters@.len() + 1,
        !before.has_group(after.groups@.last().group_id@),
        after.counters@.last().next_id == 0,
        forall|k: int|
            0 <= k < before.groups@.len() ==> after.groups@[k] == before.groups@[k]
                && after.counters@[k] == before.counters@[k],
        after.messages@ == before.messages@,
    ensures
        after.log_wf(),
{
    let n = before.groups@.len() as int;
    let msgs = before.messages@;
    assert forall|k: int| 0 <= k < msgs.len() implies after.has_group((#[trigger] msgs[k]).group@) by {
        assert(before.has_group(msgs[k].group@));
        let j = choose|j: int| 0 <= j < before.groups@.len() && before.groups@[j].group_id@ == msgs[k].group@;
        assert(after.groups@[j].group_id@ == msgs[k].group@);
    }
    assert forall|i: int| 0 <= i < after.groups@.len() implies log_ids(
        msgs,
        (#[trigger] after.groups@[i]).group_id@,
    ) == Set::new(|id: u64| id < after.counters@[i].next_id) by {
        if i < n {
            assert(before.groups@[i] == after.groups@[i]);
        } else {
            let gid = after.groups@[i].group_id@;
            assert forall|k: int| 0 <= k < msgs.len() implies msgs[k].group@ != gid by {
                assert(before.has_group(msgs[k].group@));
            }
            assert(log_ids(msgs, gid) =~= Set::new(|id: u64| id < after.counters@[i].next_id));
        }
    }
}

/// Changing groups in place under the same ids, with counters and log as
/// they were, keeps the log consistent.
proof fn lemma_log_after_rotate(before: Relay, after: Relay)
    requires
        before.wf(),
        after.groups@.len() == before.groups@.len(),
        forall|k: int|
            0 <= k < before.groups@.len() ==> after.groups@[k].group_id@
                == before.groups@[k].group_id@,
        after.counters@ == before.counters@,
        after.messages@ == before.messages@,
    ensures
        after.log_wf(),
{
    let msgs = before.messages@;
    assert forall|k: int| 0 <= k < msgs.len() implies after.has_group((#[trigger] msgs[k]).group@) by {
        assert(before.has_group(msgs[k].group@));
        let j = choose|j: int| 0 <= j < before.groups@.len() && before.groups@[j].group_id@ == msgs[k].group@;
        assert(after.groups@[j].group_id@ == msgs[k].group@);
    }
    assert forall|i: int| 0 <= i < after.groups@.len() implies log_ids(
        msgs,
        (#[trigger] after.groups@[i]).group_id@,
    ) == Set::new(|id: u64| id < after.counters@[i].next_id) by {
        assert(log_ids(msgs, before.groups@[i].group_id@) == Set::new(
            |id: u64| id < before.counters@[i].next_id,
        ));
    }
}

/// Appending the message that took the next id of group `i`, as its counter
/// moves on by one, keeps the log consistent.
proof fn lemma_log_after_send(before: Relay, after: Relay, i: int, m: GroupMessage)
    requires
        before.wf(),
        0 <= i < before.groups@.len(),
        after.groups@ == before.groups@,
        after.counters@.len() == before.counters@.len(),
        after.counters@[i].next_id == before.counters@[i].next_id + 1,
        forall|k: int|
            0 <= k < before.counters@.len() && k != i ==> after.counters@[k]
                == before.counters@[k],
        after.messages@ == before.messages@.push(m),
        m.group@ == before.groups@[i].group_id@,
        m.msg_id == before.counters@[i].next_id,
    ensures
        after.log_wf(),
{
    let old_msgs = before.messages@;
    let msgs = after.messages@;
    let n = old_msgs.len() as int;
    let gid = before.groups@[i].group_id@;
    let next = before.counters@[i].next_id;
    assert(log_ids(old_msgs, gid) == Set::new(|id: u64| id < next)) by {
        assert(gid == (before.groups@[i]).group_id@);
    }
    assert forall|k: int| 0 <= k < msgs.len() implies after.has_group((#[trigger] msgs[k]).group@) by {
        if k < n {
            assert(msgs[k] == old_msgs[k]);
            assert(before.has_group(old_msgs[k].group@));
        } else {
            assert(after.groups@[i].group_id@ == msgs[k].group@);
        }
    }
    assert forall|a: int, b: int|
        0 <= a < b < msgs.len() && msgs[a].group@ == msgs[b].group@ implies msgs[a].msg_id
        != msgs[b].msg_id by {
        assert(msgs[a] == old_msgs[a]);
        if b < n {
            assert(msgs[b] == old_msgs[b]);
        } else {
            assert(log_ids(old_msgs, gid).contains(old_msgs[a].msg_id));
        }
    }
    assert forall|j: int| 0 <= j < after.groups@.len() implies log_ids(
        msgs,
        (#[trigger] after.groups@[j]).group_id@,
    ) == Set::new(|id: u64| id < after.counters@[j].next_id) by {
        let gj = after.groups@[j].group_id@;
        assert(gj == (before.groups@[j]).group_id@);
        if j == i {
            assert forall|id: u64| log_ids(msgs, gj).contains(id) <==> id < next + 1 by {
                if id < next {
                    assert(log_ids(old_msgs, gid).contains(id));
                    let k = choose|k: int|
                        0 <= k < old_msgs.len() && old_msgs[k].group@ == gid && old_msgs[k].msg_id == id;
                    assert(msgs[k] == old_msgs[k]);
                } else if id == next {
                    assert(msgs[n] == m);
                }
                if log_ids(msgs, gj).contains(id) {
                    let k = choose|k: int|
                        0 <= k < msgs.len() && msgs[k].group@ == gj && msgs[k].msg_id == id;
                    if k < n {
                        assert(msgs[k] == old_msgs[k]);
                        assert(log_ids(old_msgs, gid).contains(id));
                    }
                }
            }
            assert(log_ids(msgs, gj) =~= Set::new(|id: u64| id < after.counters@[j].next_id));
        } else {
            if j < i {
                assert(before.groups@[j].group_id@ != before.groups@[i].group_id@);
            } else {
                assert(before.groups@[i].group_id@ != before.groups@[j].group_id@);
            }
            assert(log_ids(old_msgs, gj) == Set::new(|id: u64| id < before.counters@[j].next_id));
            assert forall|id: u64| log_ids(msgs, gj).contains(id) <==> log_ids(old_msgs, gj).contains(id) by {
                if log_ids(msgs, gj).contains(id) {
                    let k = choose|k: int|
                        0 <= k < msgs.len() && msgs[k].group@ == gj && msgs[k].msg_id == id;
                    assert(k < n);
                    assert(msgs[k] == old_msgs[k]);
                }
                if log_ids(old_msgs, gj).contains(id) {
                    let k = choose|k: int|
                        0 <= k < old_msgs.len() && old_msgs[k].group@ == gj && old_msgs[k].msg_id == id;
                    assert(msgs[k] == old_msgs[k]);
                }
            }
            assert(log_ids(msgs, gj) =~= log_ids(old_msgs, gj));
        }
    }
}

/// However sends to a group interleave, the messages logged for it carry
/// exactly the ids 0, 1, ..., n - 1, where n is the group's next id, each once.
pub proof fn lemma_log_ids_gap_free(rel: Relay, gid: Seq<u8>)
    requires
        rel.wf(),
        rel.group_map().contains_key(gid),
    ensures
        log_ids(rel.messages@, gid) == Set::new(|id: u64| id < rel.group_map()[gid].1.next_id),
        forall|a: int, b: int|
            0 <= a < b < rel.messages@.len() && rel.messages@[a].group@ == gid
                && rel.messages@[b].group@ == gid ==> rel.messages@[a].msg_id
                != rel.messages@[b].msg_id,
{
    let j = choose|j: int| 0 <= j < rel.groups@.len() && rel.groups@[j].group_id@ == gid;
    lemma_group_lookup(rel, j);
    assert(log_ids(rel.messages@, (rel.groups@[j]).group_id@) == Set::new(
        |id: u64| id < rel.counters@[j].next_id,
    ));
}

} // verus!
