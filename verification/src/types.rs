//! Keys, signatures and sequence numbers of mutable items.

use vstd::prelude::*;

verus! {

/// The number by which the versions of a mutable item are told apart.
pub type SequenceNumber = i64;

/// An Ed25519 public key.
#[derive(Debug, Clone, Copy, PartialEq, Eq)]
pub struct PublicKey(pub [u8; 32]);

/// An Ed25519 secret key.
#[derive(Debug, Clone, Copy, PartialEq, Eq)]
pub struct SecretKey(pub [u8; 64]);

/// An Ed25519 signature.
#[derive(Debug, Clone, Copy, PartialEq, Eq)]
pub struct Signature(pub [u8; 64]);

impl Default for PublicKey {
    fn default() -> (r: Self)
        ensures
            r.0@ == Seq::new(32, |i: int| 0u8),
    {
        let r = PublicKey([0;32]);
        proof {
            assert(r.0@ =~= Seq::new(32, |i: int| 0u8));
        }
        r
    }
}

impl Default for SecretKey {
    fn default() -> (r: Self)
        ensures
            r.0@ == Seq::new(64, |i: int| 0u8),
    {
        let r = SecretKey([0;64]);
        proof {
            assert(r.0@ =~= Seq::new(64, |i: int| 0u8));
        }
        r
    }
}

impl Default for Signature {
    fn default() -> (r: Self)
        ensures
            r.0@ == Seq::new(64, |i: int| 0u8),
    {
        let r = Signature([0;64]);
        proof {
            assert(r.0@ =~= Seq::new(64, |i: int| 0u8));
        }
        r
    }
}

} // verus!
