//! Checking detached signatures over claim bodies.

use vstd::prelude::*;

use crate::{PublicKey, SerialisedClaim, Signature};

verus! {

/// Whether `signature` is a valid detached Ed25519 signature of `message`
/// under `public_key`.
pub uninterp spec fn signature_valid(signature: Seq<u8>, message: Seq<u8>, public_key: Seq<u8>) -> bool;

/// Relies on sodiumoxide's `crypto::sign::verify_detached` (libsodium's
/// detached Ed25519 verification), after `Signature::from_bytes`, which turns
/// away encodings whose last byte has any of its three high bits set. The
/// answer depends on the three byte strings alone.
#[verifier::external_body]
fn signature_verifies(signature: &Signature, message: &Vec<u8>, public_key: &PublicKey) -> (r: bool)
    ensures
        r == signature_valid(signature.0@, message@, public_key.0@),
{
    match sodiumoxide::crypto::sign::Signature::from_bytes(&signature.0) {
        Ok(sig) => sodiumoxide::crypto::sign::verify_detached(
            &sig,
            message,
            &sodiumoxide::crypto::sign::PublicKey(public_key.0),
        ),
        Err(_) => false,
    }
}

/// The claim itself when `signature` signs it under `public_key`.
pub fn verify_signature(signature: &Signature, public_key: &PublicKey, claim: &SerialisedClaim) -> (r: Option<SerialisedClaim>)
    ensures
        r.is_some() == signature_valid(signature.0@, claim@, public_key.0@),
        r.is_some() ==> r.unwrap()@ == claim@,
{
    if signature_verifies(signature, claim, public_key) {
        let c = claim.clone();
        proof { assert(c@ =~= claim@); }
        Some(c)
    } else {
        None
    }
}

} // verus!
