//! Well known key pairs for tests and examples.

use vstd::prelude::*;
use crate::primitives::zero_bytes;
use crate::crypto::{ed25519_public, random_seed, Pair};

verus! {

/// The seed of a well known pair: 32 times the same byte.
pub open spec fn seed_of(byte: u8) -> Seq<u8> {
    Seq::new(32, |i: int| byte)
}

/// The public key of a well known pair.
pub open spec fn public_of(byte: u8) -> Seq<u8> {
    ed25519_public(seed_of(byte))
}

fn pair_of(byte: u8) -> (p: Pair)
    ensures
        p.consistent(),
        p.spec_public().bytes() == public_of(byte),
{
    let seed = [byte; 32];
    proof {
        assert(seed@ =~= seed_of(byte));
    }
    Pair::from_seed(seed)
}

pub fn alice() -> (p: Pair)
    ensures
        p.consistent(),
        p.spec_public().bytes() == public_of(1),
{
    pair_of(1)
}

pub fn bob() -> (p: Pair)
    ensures
        p.consistent(),
        p.spec_public().bytes() == public_of(2),
{
    pair_of(2)
}

pub fn charlie() -> (p: Pair)
    ensures
        p.consistent(),
        p.spec_public().bytes() == public_of(3),
{
    pair_of(3)
}

pub fn dave() -> (p: Pair)
    ensures
        p.consistent(),
        p.spec_public().bytes() == public_of(4),
{
    pair_of(4)
}

pub fn eve() -> (p: Pair)
    ensures
        p.consistent(),
        p.spec_public().bytes() == public_of(5),
{
    pair_of(5)
}

/// The pair whose public key is the default (all-zero) account.
pub fn default() -> (p: Pair)
    ensures
        p.public().bytes() == zero_bytes(),
{
    Pair::zero()
}

/// A fresh random key pair.
pub fn random() -> (p: Pair)
    ensures
        p.consistent(),
{
    Pair::from_seed(random_seed())
}

} // verus!
