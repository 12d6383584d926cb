//! Sets of flags, each flag being one bit.

use vstd::prelude::*;

verus! {

/// What a peer says of itself when it announces.
#[derive(Debug, Clone, Copy, PartialEq, Eq)]
pub struct Announce {
    pub bits: u8,
}

/// How a key of a message is to be treated when the message is checked.
#[derive(Debug, Clone, Copy, PartialEq, Eq)]
pub struct Flags {
    pub bits: u8,
}

/// The state of a query that has been sent.
#[derive(Debug, Clone, Copy, PartialEq, Eq)]
pub struct ObserverFlags {
    pub bits: u8,
}

/// The peer holds the whole torrent.
pub const ANNOUNCE_SEED: u8 = 1;

/// The peer is to be reached at the port it sent from.
pub const ANNOUNCE_IMPLIED_PORT: u8 = 2;

/// The torrent is transferred over SSL.
pub const ANNOUNCE_SSL_TORRENT: u8 = 4;

/// The key may be missing.
pub const KEY_OPTIONAL: u8 = 1;

/// The keys that follow belong to the dictionary under this key.
pub const KEY_PARSE_CHILDREN: u8 = 2;

/// The key is the last of its dictionary.
pub const KEY_LAST_CHILD: u8 = 4;

/// The length of the value is a multiple of the size, not the size itself.
pub const KEY_SIZE_DIVISIBLE: u8 = 8;

/// The query has been sent.
pub const OBSERVER_QUERIED: u8 = 1;

/// The node was among those the traversal started with.
pub const OBSERVER_INITIAL: u8 = 2;

/// The id of the node is not known.
pub const OBSERVER_NO_ID: u8 = 4;

/// The short timeout has passed.
pub const OBSERVER_SHORT_TIMEOUT: u8 = 8;

/// The query has failed.
pub const OBSERVER_FAILED: u8 = 16;

/// The node is reached at an IPv6 address.
pub const OBSERVER_IPV6_ADDRESS: u8 = 32;

/// The node has answered.
pub const OBSERVER_ALIVE: u8 = 64;

/// The query is done with.
pub const OBSERVER_DONE: u8 = 128;

/// Whether every bit of `wanted` is set in `bits`.
pub open spec fn has_all(bits: u8, wanted: u8) -> bool {
    bits & wanted == wanted
}

impl Announce {
    /// The set with the bits `bits`.
    pub fn from_bits(bits: u8) -> (r: Announce)
        ensures
            r.bits == bits,
    {
        Announce { bits }
    }

    /// Whether every flag of `wanted` is set.
    pub fn contains(&self, wanted: u8) -> (r: bool)
        ensures
            r == has_all(self.bits, wanted),
    {
        self.bits & wanted == wanted
    }
}

impl Flags {
    /// The set with the bits `bits`.
    pub fn from_bits(bits: u8) -> (r: Flags)
        ensures
            r.bits == bits,
    {
        Flags { bits }
    }

    /// Whether every flag of `wanted` is set.
    pub fn contains(&self, wanted: u8) -> (r: bool)
        ensures
            r == has_all(self.bits, wanted),
    {
        self.bits & wanted == wanted
    }
}

impl ObserverFlags {
    /// The empty set.
    pub fn empty() -> (r: ObserverFlags)
        ensures
            r.bits == 0,
    {
        ObserverFlags { bits: 0 }
    }

    /// The set with the bits `bits`.
    pub fn from_bits(bits: u8) -> (r: ObserverFlags)
        ensures
            r.bits == bits,
    {
        ObserverFlags { bits }
    }

    /// Whether every flag of `wanted` is set.
    pub fn contains(&self, wanted: u8) -> (r: bool)
        ensures
            r == has_all(self.bits, wanted),
    {
        self.bits & wanted == wanted
    }

    /// Sets the flags of `flags`.
    pub fn insert(&mut self, flags: u8)
        ensures
            final(self).bits == old(self).bits | flags,
            has_all(final(self).bits, flags),
    {
        let before: u8 = self.bits;
        self.bits = before | flags;
        proof {
            assert((before | flags) & flags == flags) by (bit_vector);
        }
    }

    /// Clears the flags of `flags`.
    pub fn remove(&mut self, flags: u8)
        ensures
            final(self).bits == old(self).bits & !flags,
    {
        self.bits = self.bits & !flags;
    }
}

} // verus!
