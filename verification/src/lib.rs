//! The core of a node of a Kademlia-style distributed hash table for
//! BitTorrent: 160-bit ids and their metric, the bencode codec, the routing
//! table, the storage of peers and items, and the search from node to node.
//! Every function carries a contract that is proved of its body; the few
//! that call into other crates say in their comments what is taken on trust.

pub mod bigend;
pub mod bloom_filter;
pub mod bloom_laws;
pub mod codec_laws;
pub mod contacts;
pub mod detail;
pub mod ed25519;
pub mod error;
pub mod find_data;
pub mod flags;
pub mod halving;
pub mod hex;
pub mod id;
pub mod items;
pub mod machine;
pub mod model;
pub mod msg;
pub mod node;
pub mod observer;
pub mod order;
pub mod peers;
pub mod protocol;
pub mod random;
pub mod reader;
pub mod routing;
pub mod seqs;
pub mod settings;
pub mod sha1;
pub mod state;
pub mod storage;
pub mod str_utl;
pub mod text;
pub mod traversal_algorithm;
pub mod types;
pub mod utf8;
pub mod value;
pub mod value_ref;

pub use crate::error::Error;
pub use crate::sha1::Sha1Hash;
pub use crate::value::Value;
pub use crate::value_ref::ValueRef;

use vstd::prelude::*;

verus! {

/// Limits `v` to the closed interval from `lo` to `hi`.
pub fn clamp(v: usize, lo: usize, hi: usize) -> (r: usize)
    requires
        lo <= hi,
    ensures
        r == if v < lo {
            lo
        } else if v > hi {
            hi
        } else {
            v
        },
{
    if v < lo {
        lo
    } else if v > hi {
        hi
    } else {
        v
    }
}

} // verus!
