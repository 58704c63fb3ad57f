use vstd::prelude::*;

verus! {

/// Length of an identity, in bytes.
pub const IDENTITY_BYTES: usize = 32;

/// An opaque public identifier of a participant.
#[derive(Debug, Clone, Copy)]
pub struct Identity {
    pub bytes: [u8; 32],
}

impl View for Identity {
    type V = Seq<u8>;

    open spec fn view(&self) -> Seq<u8> {
        self.bytes@
    }
}

/// The identities of a list, each as its bytes.
pub open spec fn ids(s: Seq<Identity>) -> Seq<Seq<u8>> {
    s.map_values(|m: Identity| m@)
}

/// Whether two byte arrays of identifier length are equal.
pub fn bytes32_eq(a: &[u8; 32], b: &[u8; 32]) -> (r: bool)
    ensures
        r == (a@ == b@),
{
    let mut i: usize = 0;
    while i < IDENTITY_BYTES
        invariant
            0 <= i <= 32,
            a@.len() == 32,
            b@.len() == 32,
            forall|k: int| 0 <= k < i ==> a@[k] == b@[k],
        decreases 32 - i,
    {
        if a[i] != b[i] {
            return false;
        }
        i = i + 1;
    }
    assert(a@ =~= b@);
    true
}

impl Identity {
    /// Makes an identity of its bytes.
    pub fn new(bytes: [u8; 32]) -> (r: Identity)
        ensures
            r@ == bytes@,
    {
        Identity { bytes }
    }

    /// Whether two identities are the same.
    pub fn same(&self, other: &Identity) -> (r: bool)
        ensures
            r == (self@ == other@),
    {
        bytes32_eq(&self.bytes, &other.bytes)
    }
}

/// Whether `who` is one of `members`.
pub fn is_member(members: &Vec<Identity>, who: &Identity) -> (r: bool)
    ensures
        r == ids(members@).contains(who@),
{
    let mut i: usize = 0;
    while i < members.len()
        invariant
            0 <= i <= members@.len(),
            forall|k: int| 0 <= k < i ==> members@[k]@ != who@,
        decreases members@.len() - i,
    {
        if members[i].same(who) {
            assert(ids(members@)[i as int] == who@);
            return true;
        }
        i = i + 1;
    }
    assert(!ids(members@).contains(who@)) by {
        if ids(members@).contains(who@) {
            let k = choose|k: int| 0 <= k < ids(members@).len() && ids(members@)[k] == who@;
            assert(members@[k]@ == who@);
        }
    }
    false
}

/// Whether some identity occurs twice in `members`.
pub fn has_duplicates(members: &Vec<Identity>) -> (r: bool)
    ensures
        r == !ids(members@).no_duplicates(),
{
    let mut i: usize = 0;
    while i < members.len()
        invariant
            0 <= i <= members@.len(),
            forall|a: int, b: int| 0 <= a < b < members@.len() && a < i ==> members@[a]@ != members@[b]@,
        decreases members@.len() - i,
    {
        let mut j: usize = i + 1;
        while j < members.len()
            invariant
                i < members@.len(),
                i + 1 <= j <= members@.len(),
                forall|b: int| i < b < j ==> members@[i as int]@ != members@[b]@,
            decreases members@.len() - j,
        {
            if members[i].same(&members[j]) {
                assert(ids(members@)[i as int] == ids(members@)[j as int]);
                return true;
            }
            j = j + 1;
        }
        i = i + 1;
    }
    assert(ids(members@).no_duplicates()) by {
        assert forall|a: int, b: int| 0 <= a < ids(members@).len() && 0 <= b < ids(members@).len() && a != b
            implies ids(members@)[a] != ids(members@)[b] by {
            if a < b {
                assert(members@[a]@ != members@[b]@);
            } else {
                assert(members@[b]@ != members@[a]@);
            }
        }
    }
    false
}

} // verus!
