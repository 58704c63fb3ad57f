use vstd::prelude::*;

verus! {

/// Why an operation was rejected. A rejected operation changes no record.
#[derive(Debug, Clone, Copy, PartialEq, Eq, Structural)]
pub enum RelayError {
    /// The public key blob is empty or too long.
    InvalidPublicKey,
    /// The member list is empty, too long, repeats a member, or leaves out the creator.
    InvalidMembership,
    /// The wrapped keys do not cover the members one for one, or a blob is out of bounds.
    KeyCoverageMismatch,
    /// The ciphertext or the nonce is empty or too long.
    PayloadTooLong,
    /// The signer is not a member of the group.
    Unauthorized,
    /// The group record does not exist.
    NotFound,
    /// The group record holds another group id than the one named.
    GroupIdMismatch,
    /// The claimed key version is not the group's current one.
    KeyVersionMismatch,
    /// A counter would pass the largest `u64`.
    Overflow,
    /// A record with that key exists already.
    AlreadyExists,
}

} // verus!
