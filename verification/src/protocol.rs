//! What a node does when it meets another: it hands over what the other is
//! now responsible for, and keeps its routing table fresh.

use crate::id::Id;
use crate::node::{be_distance, distance, Node, NodeId};
use crate::routing::RoutingTable;
use crate::sha1::Sha1Hash;
use crate::storage::DefaultDhtStorage;
use crypto::digest::Digest;
use crypto::sha1::Sha1;
use vstd::prelude::*;
use vstd::string::StringSliceAdditionalSpecFns;

verus! {

/// The SHA-1 digest of a byte string, as the crate `rust-crypto` computes
/// it.
pub uninterp spec fn crypto_sha1(bytes: Seq<u8>) -> Seq<u8>;

/// The SHA-1 digest of `bytes`.
///
/// Calls `Sha1::new`, `Digest::input` and `Digest::result` of the crate
/// `rust-crypto`, with a buffer of twenty bytes for the result. The digest
/// is a function of the input alone; the contract gives it the name
/// `crypto_sha1` and claims nothing else of it.
#[verifier::external_body]
fn digest_bytes(bytes: &[u8]) -> (r: [u8; 20])
    ensures
        r@ == crypto_sha1(bytes@),
{
    let mut sha1 = Sha1::new();
    sha1.input(bytes);
    let mut buf = [0u8; 20];
    sha1.result(&mut buf);
    buf
}

/// The id that the text `text` is stored under: the SHA-1 digest of its
/// bytes.
pub fn digest(text: &str) -> (r: Id)
    ensures
        r@ == crypto_sha1(text.spec_bytes()),
{
    Id(digest_bytes(text.as_bytes()))
}

/// The id that the key `key` is looked up under: the SHA-1 digest of its
/// bytes.
pub fn key_id(key: &Sha1Hash) -> (r: NodeId)
    ensures
        r@ == crypto_sha1(key@),
{
    Sha1Hash { data: digest_bytes(key.as_bytes()) }
}

/// What is to be done after a node has been welcomed.
pub struct Welcome {
    /// The keys whose data is to be stored at the new node.
    pub store: Vec<Sha1Hash>,
    /// The node that is to be asked whether it is still alive, if any.
    pub ping: Option<Node>,
}

/// The routing table and the storage of a node.
pub struct Protocol {
    pub router: RoutingTable,
    pub storage: DefaultDhtStorage,
    pub source_node: Node,
}

/// Whether the data under a key is to be handed to a new node: it is where
/// no neighbour of the key is known, and where the new node is nearer to
/// the key than the farthest neighbour while the own node is nearer to it
/// than the nearest.
pub open spec fn hands_over(neighbours: Seq<Node>, own: Node, new: Node, key: NodeId) -> bool {
    neighbours.len() == 0 || (be_distance(new.id@, key@) < be_distance(
        neighbours.last().id@,
        key@,
    ) && be_distance(own.id@, key@) < be_distance(neighbours[0].id@, key@))
}

/// Whether the data under the key with the id `key` is to be handed to the
/// node `new`, given the neighbours of the key that are known.
pub fn should_store(neighbours: &Vec<Node>, own: &Node, new: &Node, key: &NodeId) -> (r: bool)
    ensures
        r == hands_over(neighbours@, *own, *new, *key),
{
    if neighbours.len() == 0 {
        return true;
    }
    let last = distance(&neighbours[neighbours.len() - 1].id, key);
    let first = distance(&neighbours[0].id, key);
    let new_close = distance(&new.id, key).lt(&last);
    let this_closest = distance(&own.id, key).lt(&first);
    new_close && this_closest
}

impl Protocol {
    /// The routing table and the storage are well formed, and the table is
    /// that of the own node.
    pub open spec fn well_formed(&self) -> bool {
        &&& self.router.well_formed()
        &&& self.storage.well_formed()
        &&& self.router.node == self.source_node
    }

    /// A node with an empty routing table.
    pub fn new(source_node: Node, storage: DefaultDhtStorage, ksize: usize, now: u64) -> (r:
        Protocol)
        requires
            ksize >= 1,
            storage.well_formed(),
        ensures
            r.well_formed(),
            r.source_node == source_node,
            r.storage == storage,
            r.router.ksize == ksize,
            r.router.buckets@.len() == 1,
    {
        Protocol { router: RoutingTable::new(source_node, ksize, now), source_node, storage }
    }

    /// One id for each bucket that is stale at the time `now`, drawn at
    /// random from the range of the bucket, to look up so that the bucket
    /// is filled again.
    pub fn get_refresh_ids(&mut self, now: u64) -> (r: Vec<Id>)
        requires
            old(self).well_formed(),
        ensures
            *final(self) == *old(self),
            exists|stale: Seq<usize>|
                crate::routing::is_stale_list(old(self).router.buckets@, now, stale)
                    && crate::routing::in_ranges(old(self).router.buckets@, stale, r@),
    {
        let stale = self.router.stale_buckets(now);
        let mut out: Vec<Id> = Vec::new();
        let mut k: usize = 0;
        while k < stale.len()
            invariant
                0 <= k <= stale@.len(),
                *self == *old(self),
                self.well_formed(),
                out@.len() == k,
                forall|j: int|
                    0 <= j < stale@.len() ==> #[trigger] stale@[j] < self.router.buckets@.len(),
                forall|j: int|
                    0 <= j < k ==> self.router.buckets@[stale@[j] as int].lower.value()
                        <= (#[trigger] out@[j]).value()
                        <= self.router.buckets@[stale@[j] as int].upper.value(),
            decreases stale@.len() - k,
        {
            let bucket = &self.router.buckets[stale[k]];
            let lower = Id::from_hash(&bucket.lower);
            let upper = Id::from_hash(&bucket.upper);
            let id = if bucket.lower.lt(&bucket.upper) {
                Id::ranged_random(&lower, &upper)
            } else {
                lower
            };
            proof {
                assert(self.router.buckets@[stale@[k as int] as int].well_formed());
                reveal(crate::routing::Bucket::well_formed);
            }
            out.push(id);
            k += 1;
        }
        proof {
            assert(crate::routing::in_ranges(self.router.buckets@, stale@, out@));
        }
        out
    }

    /// Welcomes the node `node` at the time `now`. Where it is not a live
    /// node of the routing table yet, the keys of the storage are gone
    /// through, those of the torrents first, then those of the immutable and
    /// of the mutable items: the data under a key is to be stored at the
    /// new node where `should_store` says so of the neighbours that the
    /// routing table names for the key. In any case the node is taken into
    /// the routing table.
    pub fn welcome_if_new(&mut self, node: Node, now: u64) -> (r: Welcome)
        requires
            old(self).well_formed(),
        ensures
            final(self).well_formed(),
            final(self).source_node == old(self).source_node,
            final(self).storage == old(self).storage,
            crate::routing::contact_added(old(self).router, final(self).router, node, r.ping),
            exists|steps: nat|
                crate::routing::added_in(
                    old(self).router.buckets@,
                    crate::routing::bucket_of(old(self).router.buckets@, node.id.value()),
                    old(self).router.node,
                    node,
                    final(self).router.buckets@,
                    r.ping,
                    steps,
                ),
            r.store@ == if is_new(old(self).router.buckets@, node) {
                offered_among(
                    old(self).storage.map@,
                    old(self).storage.map@.len() as int,
                    old(self).router,
                    node,
                ) + offered_among(
                    old(self).storage.immutable_table@,
                    old(self).storage.immutable_table@.len() as int,
                    old(self).router,
                    node,
                ) + offered_among(
                    old(self).storage.mutable_table@,
                    old(self).storage.mutable_table@.len() as int,
                    old(self).router,
                    node,
                )
            } else {
                Seq::<Sha1Hash>::empty()
            },
    {
        let mut store: Vec<Sha1Hash> = Vec::new();
        if self.router.is_new_node(&node) {
            offer_keys(&self.router, &self.storage.map, &node, &mut store);
            offer_keys(&self.router, &self.storage.immutable_table, &node, &mut store);
            offer_keys(&self.router, &self.storage.mutable_table, &node, &mut store);
            proof {
                assert(store@ =~= offered_among(
                    self.storage.map@,
                    self.storage.map@.len() as int,
                    self.router,
                    node,
                ) + offered_among(
                    self.storage.immutable_table@,
                    self.storage.immutable_table@.len() as int,
                    self.router,
                    node,
                ) + offered_among(
                    self.storage.mutable_table@,
                    self.storage.mutable_table@.len() as int,
                    self.router,
                    node,
                ));
            }
        }
        let ping = self.router.add_contact(node, now);
        Welcome { store, ping }
    }
}

/// Whether the node `node` is not a live node of the buckets yet.
pub open spec fn is_new(buckets: Seq<crate::routing::Bucket>, node: Node) -> bool {
    !exists|i: int|
        0 <= i < buckets.len() && buckets[i].contains(node.id.value()) && crate::contacts::has_id(
            buckets[i].nodes@,
            node.id,
        )
}

/// The id that the key `key` is looked up under.
pub open spec fn key_node_id(key: Sha1Hash) -> NodeId {
    choose|h: NodeId| h@ == crypto_sha1(key@)
}

/// Whether the data under `key` is to be stored at the node `node`: what
/// `hands_over` says of the neighbours that the routing table names for
/// the id of the key.
pub open spec fn offered(router: RoutingTable, key: Sha1Hash, node: Node) -> bool {
    hands_over(
        crate::routing::neighbours(router.buckets@, key_node_id(key), None, router.ksize as nat),
        router.node,
        node,
        key_node_id(key),
    )
}

/// The keys among the first `upto` of `table` whose data is to be stored at
/// the node `node`, in the order of the table.
pub open spec fn offered_among<T>(
    table: Seq<(Sha1Hash, T)>,
    upto: int,
    router: RoutingTable,
    node: Node,
) -> Seq<Sha1Hash>
    decreases upto,
{
    if upto <= 0 {
        Seq::empty()
    } else if offered(router, table[upto - 1].0, node) {
        offered_among(table, upto - 1, router, node).push(table[upto - 1].0)
    } else {
        offered_among(table, upto - 1, router, node)
    }
}

/// Whether the data under `key` is to be stored at the node `node`.
pub fn offers(router: &RoutingTable, key: &Sha1Hash, node: &Node) -> (r: bool)
    requires
        router.well_formed(),
    ensures
        r == offered(*router, *key, *node),
{
    let key_node = Node::with_id(key_id(key));
    proof {
        let h = key_node_id(*key);
        assert(h@ == key_node.id@);
        assert(h.data@ =~= key_node.id.data@);
        assert(h.data =~= key_node.id.data);
    }
    let near = router.find_neighbours(&key_node, None, None);
    should_store(&near, &router.node, node, &key_node.id)
}

/// Adds to `store` the keys of `table` whose data is to be stored at the
/// node `node`.
pub fn offer_keys<T>(
    router: &RoutingTable,
    table: &Vec<(Sha1Hash, T)>,
    node: &Node,
    store: &mut Vec<Sha1Hash>,
)
    requires
        router.well_formed(),
    ensures
        final(store)@ == old(store)@ + offered_among(table@, table@.len() as int, *router, *node),
{
    let mut i: usize = 0;
    proof {
        assert(store@ =~= old(store)@ + offered_among(table@, 0, *router, *node));
    }
    while i < table.len()
        invariant
            0 <= i <= table@.len(),
            router.well_formed(),
            store@ == old(store)@ + offered_among(table@, i as int, *router, *node),
        decreases table@.len() - i,
    {
        let key = table[i].0;
        if offers(router, &key, node) {
            store.push(key);
        }
        i += 1;
        proof {
            assert(store@ =~= old(store)@ + offered_among(table@, i as int, *router, *node));
        }
    }
}

} // verus!
