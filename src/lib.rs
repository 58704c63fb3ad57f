//! Group key distribution and message sequencing for an encrypted relay.
//!
//! The library holds the rules of four operations: registering a public key,
//! creating a group with one wrapped key per member, rotating the group key
//! under a new version, and sequencing ciphertexts submitted to a group.
//! Each operation either commits all of its changes or leaves its records as
//! they were. The operations work on the records they are handed; `Relay`
//! keeps all records in memory, keyed, and adds what keyed storage decides.
use vstd::prelude::*;

pub mod error;
pub mod coverage;
pub mod directory;
pub mod identity;
pub mod ops;
pub mod state;

verus! {

/// Largest number of members in a group.
pub const MAX_MEMBERS: usize = 20;

/// Largest wrapped key, in bytes.
pub const MAX_WRAPPED_KEY_BYTES: usize = 1200;

/// Largest message ciphertext, in bytes.
pub const MAX_CIPHERTEXT_BYTES: usize = 1200;

/// Largest message nonce, in bytes.
pub const MAX_NONCE_BYTES: usize = 64;

/// Largest registered public key, in bytes.
pub const MAX_PUBLIC_KEY_BYTES: usize = 2000;

} // verus!
