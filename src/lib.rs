//! Consensus by accumulation: signed claims and attested public keys are
//! gathered per request until enough independent, verified, identical claims
//! agree on one body.

use vstd::prelude::*;

pub mod account_sentinel;
pub mod crypto;
pub mod key_sentinel;
pub mod key_store;
pub mod lru;
pub mod pure_sentinel;
pub mod refresh_sentinel;
pub mod request;
pub mod sentinel;
pub mod statistics;

pub use request::{Request, Source};

verus! {

/// The identifier of a peer: a claimant, an attester or the target of an
/// attestation.
pub type Name = u64;

/// The byte string on which agreement is sought.
pub type SerialisedClaim = Vec<u8>;

/// Bytes in a public signing key.
pub const PUBLICKEYBYTES: usize = 32;

/// Bytes in a detached signature.
pub const SIGNATUREBYTES: usize = 64;

/// A public signing key, compared and ordered byte by byte.
#[derive(Clone, Copy, Debug, PartialEq, Eq, PartialOrd, Ord, Hash)]
pub struct PublicKey(pub [u8; PUBLICKEYBYTES]);

/// A detached signature over a claim body, compared and ordered byte by
/// byte.
#[derive(Clone, Copy, Debug, PartialEq, Eq, PartialOrd, Ord, Hash)]
pub struct Signature(pub [u8; SIGNATUREBYTES]);

} // verus!
