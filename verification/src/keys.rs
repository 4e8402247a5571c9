//! Ed25519 keys and signatures, and random bytes.

use ed25519_dalek::Signer;
use ed25519_dalek::Verifier;
use vstd::prelude::*;

verus! {

/// The public key that belongs to a 32-byte Ed25519 seed.
pub uninterp spec fn ed25519_public(seed: Seq<u8>) -> Seq<u8>;

/// Whether 32 bytes are an Ed25519 public key: they decompress to a point of
/// the curve.
pub uninterp spec fn ed25519_is_key(key: Seq<u8>) -> bool;

/// Whether a signature over a message verifies under a public key.
pub uninterp spec fn ed25519_verifies(key: Seq<u8>, message: Seq<u8>, sig: Seq<u8>) -> bool;

/// The signature that a seed gives a message.
pub uninterp spec fn ed25519_signature(seed: Seq<u8>, message: Seq<u8>) -> Seq<u8>;

/// `ed25519_dalek::SigningKey::verifying_key`: the public key of a seed, which
/// is a valid key.
#[verifier::external_body]
pub(crate) fn public_of(seed: &crate::Hash) -> (r: crate::Hash)
    ensures
        r@ == ed25519_public(seed@),
        ed25519_is_key(r@),
{
    ed25519_dalek::SigningKey::from_bytes(seed).verifying_key().to_bytes()
}

/// `ed25519_dalek::VerifyingKey::from_bytes`: whether it accepts the bytes
/// depends on them alone.
#[verifier::external_body]
pub(crate) fn is_key(key: &crate::Hash) -> (r: bool)
    ensures
        r == ed25519_is_key(key@),
{
    ed25519_dalek::VerifyingKey::from_bytes(key).is_ok()
}

/// `Signer::sign` of `ed25519_dalek::SigningKey`: Ed25519 signatures are
/// deterministic, 64 bytes long, and verify under the seed's public key.
#[verifier::external_body]
pub(crate) fn sign_message(seed: &crate::Hash, message: &[u8]) -> (r: Vec<u8>)
    ensures
        r@ == ed25519_signature(seed@, message@),
        r@.len() == 64,
        ed25519_verifies(ed25519_public(seed@), message@, r@),
{
    ed25519_dalek::SigningKey::from_bytes(seed).sign(message).to_bytes().to_vec()
}

/// `Verifier::verify` of `ed25519_dalek::VerifyingKey`, for bytes that are a
/// key and a signature of 64 bytes: the verdict depends on key, message and
/// signature alone.
#[verifier::external_body]
pub(crate) fn verifies(key: &crate::Hash, message: &[u8], sig: &[u8; 64]) -> (r: bool)
    requires
        ed25519_is_key(key@),
    ensures
        r == ed25519_verifies(key@, message@, sig@),
{
    let key = ed25519_dalek::VerifyingKey::from_bytes(key).unwrap();
    key.verify(message, &ed25519_dalek::Signature::from_bytes(sig)).is_ok()
}

/// `getrandom::getrandom` on 32 bytes: nothing is claimed of them.
#[verifier::external_body]
pub(crate) fn random32() -> (r: std::result::Result<crate::Hash, std::io::Error>) {
    let mut b = [0u8; 32];
    getrandom::getrandom(&mut b).map_err(|e| std::io::Error::other(e.to_string()))?;
    Ok(b)
}

} // verus!
