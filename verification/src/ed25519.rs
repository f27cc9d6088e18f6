//! Ed25519 keys as plain bytes, with signing and verification delegated to
//! `ed25519-dalek`.

use vstd::prelude::*;
use ed25519_dalek::{Signer, Verifier};

verus! {

/// The compressed public key that `ed25519-dalek` derives from a 32-byte secret.
pub uninterp spec fn ed25519_public(secret: Seq<u8>) -> Seq<u8>;

/// The 64-byte signature that `ed25519-dalek` produces for `msg` under a secret.
pub uninterp spec fn ed25519_signature(secret: Seq<u8>, msg: Seq<u8>) -> Seq<u8>;

/// Whether `ed25519-dalek` accepts `sig` as a signature of `msg` under the
/// public key bytes `public`.
pub uninterp spec fn ed25519_accepts(public: Seq<u8>, msg: Seq<u8>, sig: Seq<u8>) -> bool;

/// Whether 32 bytes decompress to a curve point, i.e. form a public key
/// that `ed25519-dalek` accepts.
pub uninterp spec fn ed25519_valid_public(public: Seq<u8>) -> bool;

/// Calls `SigningKey::verifying_key` of `ed25519-dalek` on the key built from
/// `secret` and returns its compressed bytes. Claimed: the result is the
/// (deterministic) public key of `secret`, and it decompresses, as the key of
/// a real signing key always does.
#[verifier::external_body]
fn derive_public(secret: &[u8; 32]) -> (public: [u8; 32])
    ensures
        public@ == ed25519_public(secret@),
        ed25519_valid_public(public@),
{
    ed25519_dalek::SigningKey::from_bytes(secret).verifying_key().to_bytes()
}

/// Calls `Signer::sign` of `ed25519-dalek` for the key built from `secret`.
/// Claimed: the signature is a function of the secret and the message, and
/// verification under the matching public key accepts it (ed25519 signing
/// is deterministic and correct).
#[verifier::external_body]
fn sign_message(secret: &[u8; 32], msg: &[u8]) -> (sig: [u8; 64])
    ensures
        sig@ == ed25519_signature(secret@, msg@),
        ed25519_accepts(ed25519_public(secret@), msg@, sig@),
{
    ed25519_dalek::SigningKey::from_bytes(secret).sign(msg).to_bytes()
}

/// Calls `Verifier::verify` of `ed25519-dalek` with the key parsed from
/// `public`; a key that does not parse verifies nothing. Claimed: the answer
/// is a function of the three byte strings.
#[verifier::external_body]
fn verify_message(public: &[u8; 32], msg: &[u8], sig: &[u8; 64]) -> (ok: bool)
    ensures
        ok == ed25519_accepts(public@, msg@, sig@),
        !ed25519_valid_public(public@) ==> !ok,
{
    match ed25519_dalek::VerifyingKey::from_bytes(public) {
        Ok(vk) => vk.verify(msg, &ed25519_dalek::Signature::from_bytes(sig)).is_ok(),
        Err(_) => false,
    }
}

/// Calls `VerifyingKey::from_bytes` of `ed25519-dalek`. Claimed: it succeeds
/// exactly on valid public keys; the error text is the crate's own message.
#[verifier::external_body]
fn parse_public(public: &[u8; 32]) -> (res: Result<(), String>)
    ensures
        res is Ok <==> ed25519_valid_public(public@),
{
    match ed25519_dalek::VerifyingKey::from_bytes(public) {
        Ok(_) => Ok(()),
        Err(e) => Err(e.to_string()),
    }
}

/// An ed25519 signing key, held as its 32 secret bytes.
pub struct SigningKey {
    secret: [u8; 32],
}

/// An ed25519 public key, held as its 32 compressed bytes.
pub struct VerifyingKey {
    bytes: [u8; 32],
}

impl SigningKey {
    /// The secret bytes of the key.
    pub closed spec fn secret(&self) -> Seq<u8> {
        self.secret@
    }

    /// The signing key with the given 32 secret bytes.
    pub fn from_bytes(secret: &[u8; 32]) -> (key: SigningKey)
        ensures
            key.secret() == secret@,
    {
        SigningKey { secret: *secret }
    }

    /// The 32 secret bytes.
    pub fn to_bytes(&self) -> (bytes: [u8; 32])
        ensures
            bytes@ == self.secret(),
    {
        self.secret
    }

    /// The public key that verifies this key's signatures.
    pub fn verifying_key(&self) -> (vk: VerifyingKey)
        ensures
            vk.key() == ed25519_public(self.secret()),
            ed25519_valid_public(vk.key()),
    {
        VerifyingKey { bytes: derive_public(&self.secret) }
    }

    /// Signs `msg`.
    pub fn sign(&self, msg: &[u8]) -> (sig: [u8; 64])
        ensures
            sig@ == ed25519_signature(self.secret(), msg@),
            ed25519_accepts(ed25519_public(self.secret()), msg@, sig@),
    {
        sign_message(&self.secret, msg)
    }
}

impl VerifyingKey {
    /// The compressed public-key bytes.
    pub closed spec fn key(&self) -> Seq<u8> {
        self.bytes@
    }

    /// Parses 32 compressed bytes; fails when they are not a valid public key,
    /// with the underlying crate's description of why.
    pub fn from_bytes(bytes: &[u8; 32]) -> (res: Result<VerifyingKey, String>)
        ensures
            res is Ok <==> ed25519_valid_public(bytes@),
            res matches Ok(vk) ==> vk.key() == bytes@,
    {
        match parse_public(bytes) {
            Ok(()) => Ok(VerifyingKey { bytes: *bytes }),
            Err(e) => Err(e),
        }
    }

    /// The 32 compressed bytes.
    pub fn to_bytes(&self) -> (bytes: [u8; 32])
        ensures
            bytes@ == self.key(),
    {
        self.bytes
    }

    /// Whether `sig` is a valid signature of `msg` under this key.
    pub fn verify(&self, msg: &[u8], sig: &[u8; 64]) -> (ok: bool)
        ensures
            ok == ed25519_accepts(self.key(), msg@, sig@),
    {
        verify_message(&self.bytes, msg, sig)
    }
}

} // verus!
