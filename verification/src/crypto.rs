//! Key pairs, signing and verification of signatures (ed25519).

use vstd::prelude::*;
use crate::primitives::{Public, Signature, zero_bytes};
use ed25519_dalek::{Signer, Verifier};

verus! {

/// The ed25519 public key of a secret seed.
pub uninterp spec fn ed25519_public(seed: Seq<u8>) -> Seq<u8>;

/// The ed25519 signature of a message under a secret seed.
pub uninterp spec fn ed25519_sign(seed: Seq<u8>, message: Seq<u8>) -> Seq<u8>;

/// Whether a signature of a message verifies under a public key.
pub uninterp spec fn ed25519_verify(public: Seq<u8>, message: Seq<u8>, signature: Seq<u8>) -> bool;

/// `SigningKey::from_bytes(seed).verifying_key().to_bytes()` of ed25519-dalek: the public key of
/// a secret seed, a function of the seed alone.
#[verifier::external_body]
fn dalek_public_key(seed: &[u8; 32]) -> (p: [u8; 32])
    ensures
        p@ == ed25519_public(seed@),
{
    ed25519_dalek::SigningKey::from_bytes(seed).verifying_key().to_bytes()
}

/// `SigningKey::sign` of ed25519-dalek (deterministic ed25519 signing). A signature made with a
/// seed verifies under that seed's public key.
#[verifier::external_body]
fn dalek_sign(seed: &[u8; 32], message: &[u8]) -> (s: [u8; 64])
    ensures
        s@ == ed25519_sign(seed@, message@),
        ed25519_verify(ed25519_public(seed@), message@, s@),
{
    ed25519_dalek::SigningKey::from_bytes(seed).sign(message).to_bytes()
}

/// `VerifyingKey::verify` of ed25519-dalek on the key decoded from `public`; a key that does not
/// decode verifies nothing.
#[verifier::external_body]
fn dalek_verify(public: &[u8; 32], message: &[u8], signature: &[u8; 64]) -> (b: bool)
    ensures
        b == ed25519_verify(public@, message@, signature@),
{
    match ed25519_dalek::VerifyingKey::from_bytes(public) {
        Ok(key) => key.verify(message, &ed25519_dalek::Signature::from_bytes(signature)).is_ok(),
        Err(_) => false,
    }
}

/// `rand::random` of the rand crate: 32 random bytes.
#[verifier::external_body]
pub(crate) fn random_seed() -> (seed: [u8; 32]) {
    rand::random::<[u8; 32]>()
}

/// A key pair: a secret seed and the public key it gives.
#[derive(Clone, Copy, Debug, PartialEq, Eq)]
pub struct Pair {
    seed: [u8; 32],
    public: Public,
}

impl Pair {
    /// Whether the public key is the one the seed gives.
    pub closed spec fn consistent(&self) -> bool {
        self.public.bytes() == ed25519_public(self.seed@)
    }

    /// The key pair of a secret seed.
    pub fn from_seed(seed: [u8; 32]) -> (p: Pair)
        ensures
            p.consistent(),
            p.public().bytes() == ed25519_public(seed@),
    {
        let public = Public(dalek_public_key(&seed));
        Pair { seed, public }
    }

    /// A key pair made of the all-zero seed and the all-zero public key.
    pub fn zero() -> (p: Pair)
        ensures
            p.public().bytes() == zero_bytes(),
    {
        Pair { seed: [0u8; 32], public: Public::zero() }
    }

    /// The public key of the pair.
    #[verifier::when_used_as_spec(spec_public)]
    pub fn public(&self) -> (p: Public)
        ensures
            p == self.spec_public(),
    {
        self.public
    }

    pub closed spec fn spec_public(&self) -> Public {
        self.public
    }

    /// Sign a message.
    pub fn sign(&self, message: &[u8]) -> (s: Signature)
        ensures
            self.consistent() ==> ed25519_verify(self.spec_public().bytes(), message@, s.0@),
    {
        Signature(dalek_sign(&self.seed, message))
    }
}

impl Public {
    /// True when `signature` is a signature of `message` under this key.
    pub fn verify(&self, message: &[u8], signature: &Signature) -> (b: bool)
        ensures
            b == ed25519_verify(self.bytes(), message@, signature.0@),
    {
        dalek_verify(&self.0, message, &signature.0)
    }
}

} // verus!
