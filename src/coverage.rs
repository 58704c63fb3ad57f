//! The rule that a set of wrapped keys covers a member list one for one.
use crate::error::RelayError;
use crate::identity::{ids, Identity};
use crate::state::MemberWrappedKey;
use vstd::prelude::*;
use vstd::seq_lib::group_to_multiset_ensures;

verus! {

/// How many times `x` occurs in `s`.
pub open spec fn count_of(s: Seq<Seq<u8>>, x: Seq<u8>) -> nat
    decreases s.len(),
{
    if s.len() == 0 {
        0
    } else {
        count_of(s.drop_last(), x) + if s.last() == x { 1nat } else { 0nat }
    }
}

/// The owners of a list of wrapped keys, each as its bytes.
pub open spec fn owners(wks: Seq<MemberWrappedKey>) -> Seq<Seq<u8>> {
    wks.map_values(|wk: MemberWrappedKey| wk.member@)
}

/// Whether a blob is non-empty and at most `max` bytes long.
pub open spec fn blob_ok(b: Seq<u8>, max: nat) -> bool {
    1 <= b.len() <= max
}

/// Whether `wks` holds exactly one wrapped key for each of `ms` and none for
/// anyone else, each wrapped key within its bounds.
pub open spec fn coverage_ok(ms: Seq<Seq<u8>>, wks: Seq<MemberWrappedKey>) -> bool {
    &&& wks.len() == ms.len()
    &&& forall|i: int|
        0 <= i < wks.len() ==> ms.contains((#[trigger] wks[i]).member@) && blob_ok(
            wks[i].wrapped_key@,
            crate::MAX_WRAPPED_KEY_BYTES as nat,
        )
    &&& forall|j: int| 0 <= j < ms.len() ==> count_of(owners(wks), #[trigger] ms[j]) == 1
}

/// How many of `wks` belong to `who`.
pub fn count_keys_for(wks: &Vec<MemberWrappedKey>, who: &Identity) -> (r: usize)
    ensures
        r == count_of(owners(wks@), who@),
{
    let mut n: usize = 0;
    let mut i: usize = 0;
    while i < wks.len()
        invariant
            0 <= i <= wks@.len(),
            n <= i,
            n == count_of(owners(wks@).subrange(0, i as int), who@),
        decreases wks@.len() - i,
    {
        assert(owners(wks@).subrange(0, i + 1).drop_last() =~= owners(wks@).subrange(0, i as int));
        if wks[i].member.same(who) {
            n = n + 1;
        }
        i = i + 1;
    }
    assert(owners(wks@).subrange(0, i as int) =~= owners(wks@));
    n
}

/// Checks that `wrapped_keys` covers `members` one for one, with each wrapped
/// key non-empty and within its bound. Creation and rotation share this rule.
pub fn validate_wrapped_keys(members: &Vec<Identity>, wrapped_keys: &Vec<MemberWrappedKey>) -> (r:
    Result<(), RelayError>)
    ensures
        r == if coverage_ok(ids(members@), wrapped_keys@) {
            Ok::<(), RelayError>(())
        } else {
            Err(RelayError::KeyCoverageMismatch)
        },
{
    let ghost ms = ids(members@);
    if wrapped_keys.len() != members.len() {
        return Err(RelayError::KeyCoverageMismatch);
    }
    let mut i: usize = 0;
    while i < wrapped_keys.len()
        invariant
            0 <= i <= wrapped_keys@.len(),
            ms == ids(members@),
            forall|k: int|
                0 <= k < i ==> ms.contains((#[trigger] wrapped_keys@[k]).member@) && blob_ok(
                    wrapped_keys@[k].wrapped_key@,
                    crate::MAX_WRAPPED_KEY_BYTES as nat,
                ),
        decreases wrapped_keys@.len() - i,
    {
        let wk = &wrapped_keys[i];
        if !crate::identity::is_member(members, &wk.member) {
            return Err(RelayError::KeyCoverageMismatch);
        }
        if wk.wrapped_key.len() == 0 || wk.wrapped_key.len() > crate::MAX_WRAPPED_KEY_BYTES {
            return Err(RelayError::KeyCoverageMismatch);
        }
        i = i + 1;
    }
    let mut j: usize = 0;
    while j < members.len()
        invariant
            0 <= j <= members@.len(),
            ms == ids(members@),
            forall|k: int| 0 <= k < j ==> count_of(owners(wrapped_keys@), #[trigger] ms[k]) == 1,
        decreases members@.len() - j,
    {
        if count_keys_for(wrapped_keys, &members[j]) != 1 {
            assert(ms[j as int] == members@[j as int]@);
            return Err(RelayError::KeyCoverageMismatch);
        }
        j = j + 1;
    }
    Ok(())
}

/// The count of an item in a list is its multiplicity in the list's multiset.
pub proof fn lemma_count_of_multiset(s: Seq<Seq<u8>>, x: Seq<u8>)
    ensures
        s.to_multiset().count(x) == count_of(s, x),
    decreases s.len(),
{
    broadcast use group_to_multiset_ensures;

    if s.len() == 0 {
        assert(!s.contains(x));
    } else {
        lemma_count_of_multiset(s.drop_last(), x);
        assert(s =~= s.drop_last().push(s.last()));
    }
}

/// Keys that cover a list of distinct members belong to those members one for
/// one: each member owns exactly one key, and no key has another owner.
pub proof fn lemma_coverage_is_bijection(ms: Seq<Seq<u8>>, wks: Seq<MemberWrappedKey>)
    requires
        ms.no_duplicates(),
        coverage_ok(ms, wks),
    ensures
        owners(wks).to_multiset() =~= ms.to_multiset(),
{
    broadcast use group_to_multiset_ensures;

    ms.lemma_multiset_has_no_duplicates();
    assert forall|x: Seq<u8>| owners(wks).to_multiset().count(x) == ms.to_multiset().count(x) by {
        lemma_count_of_multiset(owners(wks), x);
        if ms.contains(x) {
            let j = choose|j: int| 0 <= j < ms.len() && ms[j] == x;
            assert(count_of(owners(wks), ms[j]) == 1);
        } else {
            assert(!owners(wks).contains(x)) by {
                if owners(wks).contains(x) {
                    let i = choose|i: int| 0 <= i < owners(wks).len() && owners(wks)[i] == x;
                    assert(ms.contains(wks[i].member@));
                }
            }
        }
    }
}

} // verus!
