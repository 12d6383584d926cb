//! Seeds and key pairs.

use crate::random::fill_bytes;
use crate::types::{PublicKey, SecretKey};
use vstd::prelude::*;

verus! {

/// Thirty-two bytes drawn at random, from which a key pair can be made.
pub fn create_seed() -> (r: [u8; 32]) {
    let mut seed: [u8; 32] = [0;32];
    fill_bytes(&mut seed);
    seed
}

/// A key pair that consists of zero bytes. Keys are made outside this
/// library.
pub fn create_keypair() -> (r: (PublicKey, SecretKey))
    ensures
        r.0.0@ == Seq::new(32, |i: int| 0u8),
        r.1.0@ == Seq::new(64, |i: int| 0u8),
{
    (PublicKey::default(), SecretKey::default())
}

} // verus!
