//! Ed25519 over a generation's 32-byte `integrity_hash`, through
//! `ed25519-dalek`. Keys are handled as their 32-byte encodings.

use vstd::prelude::*;
use ed25519_dalek::{Signer, Verifier};

verus! {

pub const SIGNATURE_SIZE: usize = 64;

pub const PUBLIC_KEY_SIZE: usize = 32;

/// The Ed25519 signature that `ed25519_dalek::SigningKey` made from `secret`
/// gives `message` (Ed25519 signing is deterministic).
pub uninterp spec fn ed25519_signature(secret: Seq<u8>, message: Seq<u8>) -> Seq<u8>;

/// The encoded verifying key of the signing key made from `secret`.
pub uninterp spec fn ed25519_public_key(secret: Seq<u8>) -> Seq<u8>;

/// Whether `ed25519_dalek` accepts `signature` for `message` under the
/// verifying key encoded as `public`: false when `public` does not decode to
/// a key or the signature does not verify.
pub uninterp spec fn ed25519_accepts(public: Seq<u8>, message: Seq<u8>, signature: Seq<u8>) -> bool;

/// `SigningKey::from_bytes(secret).sign(message).to_bytes()`. The contract
/// names the result and claims that the crate's own verification accepts it
/// under the key's verifying key, as the crate documents for every signature
/// it makes.
#[verifier::external_body]
pub fn ed25519_sign(secret: &[u8; 32], message: &[u8; 32]) -> (sig: [u8; 64])
    ensures
        sig@ == ed25519_signature(secret@, message@),
        ed25519_accepts(ed25519_public_key(secret@), message@, sig@),
{
    ed25519_dalek::SigningKey::from_bytes(secret).sign(message).to_bytes()
}

/// `SigningKey::from_bytes(secret).verifying_key().to_bytes()`.
#[verifier::external_body]
pub fn ed25519_verifying_key(secret: &[u8; 32]) -> (public: [u8; 32])
    ensures
        public@ == ed25519_public_key(secret@),
{
    ed25519_dalek::SigningKey::from_bytes(secret).verifying_key().to_bytes()
}

/// `VerifyingKey::from_bytes(public)` then `verify` of `message` against
/// `Signature::from_bytes(signature)`: false when the key does not decode or
/// the signature does not verify.
#[verifier::external_body]
pub fn ed25519_verify(public: &[u8; 32], message: &[u8; 32], signature: &[u8; 64]) -> (ok: bool)
    ensures
        ok == ed25519_accepts(public@, message@, signature@),
{
    match ed25519_dalek::VerifyingKey::from_bytes(public) {
        Ok(key) => key.verify(message, &ed25519_dalek::Signature::from_bytes(signature)).is_ok(),
        Err(_) => false,
    }
}

/// Signs a generation's integrity hash with the signing key whose secret
/// bytes are `key`.
pub fn sign_integrity_hash(key: &[u8; 32], integrity_hash: &[u8; 32]) -> (sig: [u8; 64])
    ensures
        sig@ == ed25519_signature(key@, integrity_hash@),
        ed25519_accepts(ed25519_public_key(key@), integrity_hash@, sig@),
{
    ed25519_sign(key, integrity_hash)
}

/// Checks `signature` over `integrity_hash` against the verifying key
/// encoded as `key`. A signature that is not 64 bytes long is rejected.
pub fn verify_integrity_hash(key: &[u8; 32], integrity_hash: &[u8; 32], signature: &[u8]) -> (ok: bool)
    ensures
        signature@.len() != 64 ==> !ok,
        signature@.len() == 64 ==> ok == ed25519_accepts(key@, integrity_hash@, signature@),
{
    if signature.len() != 64 {
        return false;
    }
    let mut sig = [0u8; 64];
    let mut i: usize = 0;
    while i < 64
        invariant
            signature@.len() == 64,
            i <= 64,
            forall|j: int| 0 <= j < i ==> sig@[j] == signature@[j],
        decreases 64 - i,
    {
        sig.set(i, signature[i]);
        i += 1;
    }
    assert(sig@ =~= signature@);
    ed25519_verify(key, integrity_hash, &sig)
}

} // verus!
