//! Cryptographic primitives from outside crates, and the address derivation
//! built on them.
//!
//! Each primitive is named by a spec function of its inputs: its result is a
//! deterministic function of the bytes it is given, but far too long to state.
use vstd::prelude::*;

use crate::types::Address;

verus! {

/// The Keccak-256 digest of `data`.
pub uninterp spec fn keccak256_digest(data: Seq<u8>) -> Seq<u8>;

/// Whether `signature` is a valid strict Ed25519 signature of `message`
/// under `public_key` (false when the key bytes are not a valid point).
pub uninterp spec fn ed25519_strictly_verifies(
    message: Seq<u8>,
    signature: Seq<u8>,
    public_key: Seq<u8>,
) -> bool;

/// The uncompressed SEC1 encoding of the secp256k1 key recovered from a
/// prehash, a 64-byte `r || s` signature and a recovery id, if recovery succeeds.
pub uninterp spec fn secp256k1_recovered_point(
    prehash: Seq<u8>,
    signature: Seq<u8>,
    recovery_id: u8,
) -> Option<Seq<u8>>;

/// Keccak-256 of `data`, by `sha3::Keccak256`.
///
/// Trusted: the digest is named, not stated; its length is 32 by the type.
#[verifier::external_body]
pub(crate) fn keccak256(data: &[u8]) -> (r: [u8; 32])
    ensures
        r@ == keccak256_digest(data@),
{
    <sha3::Keccak256 as sha3::Digest>::digest(data).into()
}

/// Strict Ed25519 verification, by `ed25519_dalek::VerifyingKey::from_bytes`
/// then `verify_strict` on `ed25519_dalek::Signature::from_bytes`.
///
/// Trusted: the outcome is named, not stated; an invalid key gives false.
#[verifier::external_body]
pub(crate) fn ed25519_verify_strict(message: &[u8], signature: &[u8; 64], public_key: &[u8; 32]) -> (r:
    bool)
    ensures
        r == ed25519_strictly_verifies(message@, signature@, public_key@),
{
    match ed25519_dalek::VerifyingKey::from_bytes(public_key) {
        Ok(key) => key.verify_strict(message, &ed25519_dalek::Signature::from_bytes(signature)).is_ok(),
        Err(_) => false,
    }
}

/// Public-key recovery on secp256k1, by `k256::ecdsa::RecoveryId::try_from`,
/// `k256::ecdsa::Signature::try_from`, `VerifyingKey::recover_from_prehash`
/// and `to_encoded_point(false)`.
///
/// Trusted: the recovered key is named, not stated. Stated from the source:
/// a recovery id above 3 is refused (`RecoveryId::from_byte`).
#[verifier::external_body]
pub(crate) fn secp256k1_recover(prehash: &[u8; 32], signature: &[u8; 64], recovery_id: u8) -> (r: Option<
    Vec<u8>,
>)
    ensures
        r is Some == secp256k1_recovered_point(prehash@, signature@, recovery_id) is Some,
        r matches Some(p) ==> p@ == secp256k1_recovered_point(
            prehash@,
            signature@,
            recovery_id,
        ).unwrap(),
        recovery_id > 3 ==> r is None,
{
    let id = k256::ecdsa::RecoveryId::try_from(recovery_id).ok()?;
    let sig = k256::ecdsa::Signature::try_from(&signature[..]).ok()?;
    let key = k256::ecdsa::VerifyingKey::recover_from_prehash(prehash, &sig, id).ok()?;
    Some(key.to_encoded_point(false).as_bytes().to_vec())
}

/// The Ethereum-style address of a public key: the last 20 bytes of its
/// Keccak-256 digest.
pub open spec fn spec_eth_address(public_key: Seq<u8>) -> Seq<u8> {
    keccak256_digest(public_key).subrange(12, 32)
}

/// Derives the Ethereum-style address of `public_key`.
pub fn derive_eth_address(public_key: &[u8]) -> (a: Address)
    ensures
        a.0@ == spec_eth_address(public_key@),
{
    let h = keccak256(public_key);
    let mut out = [0u8; 20];
    let mut i: usize = 0;
    while i < 20
        invariant
            i <= 20,
            h@ == keccak256_digest(public_key@),
            h@.len() == 32,
            out@.len() == 20,
            forall|j: int| 0 <= j < i ==> out@[j] == h@[j + 12],
        decreases 20 - i,
    {
        out[i] = h[i + 12];
        i = i + 1;
    }
    proof {
        assert(out@ =~= keccak256_digest(public_key@).subrange(12, 32));
    }
    Address(out)
}

/// Whether `signature` is a valid Ed25519 signature of `message` under
/// `public_key` by the cofactorless check (false when the key bytes are not
/// a valid point).
pub uninterp spec fn ed25519_verifies(message: Seq<u8>, signature: Seq<u8>, public_key: Seq<u8>) -> bool;

/// Ed25519 verification, by `ed25519_dalek::VerifyingKey::from_bytes` then
/// `Verifier::verify` on `ed25519_dalek::Signature::from_bytes`.
///
/// Trusted: the outcome is named, not stated; an invalid key gives false.
#[verifier::external_body]
pub(crate) fn ed25519_verify(message: &[u8], signature: &[u8; 64], public_key: &[u8; 32]) -> (r: bool)
    ensures
        r == ed25519_verifies(message@, signature@, public_key@),
{
    match ed25519_dalek::VerifyingKey::from_bytes(public_key) {
        Ok(key) => ed25519_dalek::Verifier::verify(
            &key,
            message,
            &ed25519_dalek::Signature::from_bytes(signature),
        ).is_ok(),
        Err(_) => false,
    }
}

/// The Ed25519 public key of a 32-byte secret key.
pub uninterp spec fn ed25519_public_of(secret_key: Seq<u8>) -> Seq<u8>;

/// The public key of `secret_key`, by `ed25519_dalek::SigningKey::from_bytes`
/// and `verifying_key().to_bytes()`.
///
/// Trusted: the key is named, not stated; its length is 32 by the type.
#[verifier::external_body]
pub(crate) fn ed25519_public_key(secret_key: &[u8; 32]) -> (r: [u8; 32])
    ensures
        r@ == ed25519_public_of(secret_key@),
{
    ed25519_dalek::SigningKey::from_bytes(secret_key).verifying_key().to_bytes()
}

/// The Ed25519 signature of `message` by a 32-byte secret key (Ed25519
/// signing is deterministic).
pub uninterp spec fn ed25519_signature_of(secret_key: Seq<u8>, message: Seq<u8>) -> Seq<u8>;

/// Signs `message`, by `ed25519_dalek::SigningKey::from_bytes` and
/// `Signer::sign`, returning the signature bytes.
///
/// Trusted: the signature is named, not stated; its length is 64 by the type.
#[verifier::external_body]
pub(crate) fn ed25519_sign(secret_key: &[u8; 32], message: &[u8]) -> (r: [u8; 64])
    ensures
        r@ == ed25519_signature_of(secret_key@, message@),
{
    ed25519_dalek::Signer::sign(&ed25519_dalek::SigningKey::from_bytes(secret_key), message).to_bytes()
}

} // verus!
