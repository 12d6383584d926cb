//! Immutable and mutable items, and how much each of them matters.

use crate::bloom_filter::{bit_at, key_bits, key_index, BloomFilter};
use crate::detail::IpAddress;
use crate::node::{min_distance_exp, min_distance_exp_of, NodeId};
use crate::sha1::{sha1_digest, Sha1Hash};
use crate::types::{PublicKey, SequenceNumber, Signature};
use vstd::prelude::*;

verus! {

/// The size in bytes of the filter that tells the announcers of an item
/// apart.
pub const ANNOUNCER_FILTER_SIZE: usize = 128;

/// An item that is found by the hash of its value.
pub struct DhtImmutableItem {
    /// The value, as it came over the wire.
    pub value: Vec<u8>,
    /// A filter of the addresses that announced the item.
    pub ips: BloomFilter,
    /// When the item was announced last, in seconds.
    pub last_seen: u64,
    /// How many different addresses announced the item, as far as the
    /// filter can tell.
    pub num_announcers: usize,
}

/// The mathematical value of a `DhtImmutableItem`.
pub struct ImmutableModel {
    pub value: Seq<u8>,
    pub ips: Seq<u8>,
    pub last_seen: u64,
    pub num_announcers: usize,
}

/// An item that is found by a public key and a salt, and of which the
/// version with the greatest sequence number counts.
pub struct DhtMutableItem {
    pub inner: DhtImmutableItem,
    pub sig: Signature,
    pub seq: SequenceNumber,
    pub key: PublicKey,
    pub salt: Vec<u8>,
}

/// The mathematical value of a `DhtMutableItem`.
pub struct MutableModel {
    pub inner: ImmutableModel,
    pub sig: Seq<u8>,
    pub seq: SequenceNumber,
    pub key: Seq<u8>,
    pub salt: Seq<u8>,
}

impl View for DhtImmutableItem {
    type V = ImmutableModel;

    open spec fn view(&self) -> ImmutableModel {
        ImmutableModel {
            value: self.value@,
            ips: self.ips@,
            last_seen: self.last_seen,
            num_announcers: self.num_announcers,
        }
    }
}

impl View for DhtMutableItem {
    type V = MutableModel;

    open spec fn view(&self) -> MutableModel {
        MutableModel {
            inner: self.inner@,
            sig: self.sig.0@,
            seq: self.seq,
            key: self.key.0@,
            salt: self.salt@,
        }
    }
}

impl ImmutableModel {
    /// An item that nobody has announced yet.
    pub open spec fn fresh(value: Seq<u8>, now: u64) -> ImmutableModel {
        ImmutableModel {
            value,
            ips: Seq::new(ANNOUNCER_FILTER_SIZE as nat, |i: int| 0u8),
            last_seen: now,
            num_announcers: 0,
        }
    }

    /// Whether the filter reports the address with the octets `octets` as
    /// an announcer.
    pub open spec fn knows(self, octets: Seq<u8>) -> bool {
        let key = sha1_digest(octets);
        bit_at(self.ips, key_index(key[0], key[1], self.ips.len() as int * 8)) && bit_at(
            self.ips,
            key_index(key[2], key[3], self.ips.len() as int * 8),
        )
    }

    /// The item after the address with the octets `octets` has announced it
    /// at the time `now`: the time is noted, and an address that the filter
    /// does not know yet is put into it and counted.
    pub open spec fn touched(self, octets: Seq<u8>, now: u64) -> ImmutableModel {
        ImmutableModel {
            value: self.value,
            ips: if self.knows(octets) {
                self.ips
            } else {
                key_bits(self.ips, sha1_digest(octets))
            },
            last_seen: now,
            num_announcers: if self.knows(octets) || self.num_announcers == usize::MAX {
                self.num_announcers
            } else {
                (self.num_announcers + 1) as usize
            },
        }
    }
}

/// How much an item matters: a fifth of the number of its announcers, less
/// the exponent of its distance to the nearest local id. The item that
/// matters least is the first to go.
pub open spec fn importance(announcers: usize, min_dist: nat) -> int {
    announcers as int / 5 - min_dist as int
}

/// Something of which the announcers are counted.
pub trait ImmutableItem {
    /// How many different addresses announced the item.
    spec fn announcers(&self) -> usize;

    /// How many different addresses announced the item.
    fn num_announcers(&self) -> (r: usize)
        ensures
            r == self.announcers(),
    ;

    /// When the item was announced last, in seconds.
    spec fn seen(&self) -> u64;

    /// When the item was announced last, in seconds.
    fn last_seen(&self) -> (r: u64)
        ensures
            r == self.seen(),
    ;
}

impl ImmutableItem for DhtImmutableItem {
    open spec fn announcers(&self) -> usize {
        self.num_announcers
    }

    fn num_announcers(&self) -> (r: usize) {
        self.num_announcers
    }

    open spec fn seen(&self) -> u64 {
        self.last_seen
    }

    fn last_seen(&self) -> (r: u64) {
        self.last_seen
    }
}

impl ImmutableItem for DhtMutableItem {
    open spec fn announcers(&self) -> usize {
        self.inner.num_announcers
    }

    fn num_announcers(&self) -> (r: usize) {
        self.inner.num_announcers
    }

    open spec fn seen(&self) -> u64 {
        self.inner.last_seen
    }

    fn last_seen(&self) -> (r: u64) {
        self.inner.last_seen
    }
}

/// How much the entry at `i` of `table` matters to a node with the ids
/// `node_ids`.
pub open spec fn score_at<T: ImmutableItem>(
    node_ids: Seq<NodeId>,
    table: Seq<(NodeId, T)>,
    i: int,
) -> int {
    importance(table[i].1.announcers(), min_distance_exp_of(table[i].0@, node_ids))
}

/// How much an item with the key `key` and `announcers` announcers matters.
pub fn score(node_ids: &[NodeId], key: &NodeId, announcers: usize) -> (r: i64)
    ensures
        r == importance(announcers, min_distance_exp_of(key@, node_ids@)),
{
    let d = min_distance_exp(key, node_ids);
    ((announcers / 5) as u64) as i64 - d as i64
}

/// The index of an entry of `table` that matters least, if there is an
/// entry at all. Of several such entries the first is named.
pub fn pick_least_imp<T: ImmutableItem>(node_ids: &[NodeId], table: &Vec<(NodeId, T)>) -> (r:
    Option<usize>)
    ensures
        table@.len() == 0 <==> r.is_none(),
        r matches Some(i) ==> i < table@.len() && forall|j: int|
            0 <= j < table@.len() ==> score_at(node_ids@, table@, i as int) <= score_at(
                node_ids@,
                table@,
                j,
            ),
        r matches Some(i) ==> forall|j: int|
            0 <= j < i ==> score_at(node_ids@, table@, i as int) < score_at(node_ids@, table@, j),
{
    if table.len() == 0 {
        return None;
    }
    let mut best: usize = 0;
    let mut best_score: i64 = score(node_ids, &table[0].0, table[0].1.num_announcers());
    let mut i: usize = 1;
    while i < table.len()
        invariant
            1 <= i <= table@.len(),
            0 <= best < i,
            best_score == score_at(node_ids@, table@, best as int),
            forall|j: int| 0 <= j < i ==> best_score <= score_at(node_ids@, table@, j),
            forall|j: int| 0 <= j < best ==> best_score < score_at(node_ids@, table@, j),
        decreases table@.len() - i,
    {
        let s = score(node_ids, &table[i].0, table[i].1.num_announcers());
        if s < best_score {
            best = i;
            best_score = s;
        }
        i += 1;
    }
    Some(best)
}

impl DhtImmutableItem {
    /// The filter of the announcers has its full size.
    pub open spec fn well_formed(&self) -> bool {
        self.ips@.len() == ANNOUNCER_FILTER_SIZE
    }

    /// An item with the value `value` that nobody has announced yet.
    pub fn new(value: Vec<u8>, now: u64) -> (r: DhtImmutableItem)
        ensures
            r@ == ImmutableModel::fresh(value@, now),
            r.well_formed(),
    {
        DhtImmutableItem {
            value,
            ips: BloomFilter::new(ANNOUNCER_FILTER_SIZE),
            last_seen: now,
            num_announcers: 0,
        }
    }

    /// Replaces the value.
    pub fn set_value(&mut self, buf: &[u8])
        ensures
            final(self)@ == (ImmutableModel { value: buf@, ..old(self)@ }),
    {
        self.value = vstd::slice::slice_to_vec(buf);
    }

    /// Notes that `addr` has announced the item at the time `now`.
    pub fn touch_item(&mut self, addr: &IpAddress, now: u64)
        requires
            old(self).well_formed(),
        ensures
            final(self)@ == old(self)@.touched(addr.octets(), now),
            final(self).well_formed(),
    {
        self.last_seen = now;
        let iphash = Sha1Hash::from_address(addr);
        if !self.ips.find(&iphash) {
            proof {
                crate::bloom_filter::lemma_with_bit(
                    self.ips@,
                    self.ips.first_bit(&iphash),
                    self.ips.first_bit(&iphash),
                );
                crate::bloom_filter::lemma_with_bit(
                    crate::bloom_filter::with_bit(self.ips@, self.ips.first_bit(&iphash)),
                    self.ips.second_bit(&iphash),
                    self.ips.second_bit(&iphash),
                );
            }
            self.ips.set(&iphash);
            if self.num_announcers < usize::MAX {
                self.num_announcers += 1;
            }
        }
    }
}

impl DhtMutableItem {
    /// The filter of the announcers has its full size.
    pub open spec fn well_formed(&self) -> bool {
        self.inner.well_formed()
    }

    /// An item with the value `value`, with sequence number zero and with a
    /// key, a signature and a salt that are still empty.
    pub fn new(value: Vec<u8>, now: u64) -> (r: DhtMutableItem)
        ensures
            r@ == (MutableModel {
                inner: ImmutableModel::fresh(value@, now),
                sig: Seq::new(64, |i: int| 0u8),
                seq: 0,
                key: Seq::new(32, |i: int| 0u8),
                salt: Seq::empty(),
            }),
            r.well_formed(),
    {
        DhtMutableItem {
            inner: DhtImmutableItem::new(value, now),
            sig: Signature::default(),
            seq: 0,
            key: PublicKey::default(),
            salt: Vec::new(),
        }
    }
}

/// Infohashes that are handed out as a sample, and when they were chosen.
pub struct InfohashesSample {
    pub samples: Vec<Sha1Hash>,
    pub created: u64,
}

impl InfohashesSample {
    /// An empty sample.
    pub fn new() -> (r: InfohashesSample)
        ensures
            r.samples@.len() == 0,
            r.created == 0,
    {
        InfohashesSample { samples: Vec::new(), created: 0 }
    }

    /// The number of infohashes in the sample.
    pub fn count(&self) -> (r: usize)
        ensures
            r == self.samples@.len(),
    {
        self.samples.len()
    }
}

} // verus!
