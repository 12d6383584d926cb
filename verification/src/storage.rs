//! The storage of a node: the peers of torrents, and immutable and mutable
//! items.

use crate::bloom_filter::{key_bits, key_index, with_bit, BloomFilter};
use crate::error::Error;
use crate::items::{
    pick_least_imp, score_at, DhtImmutableItem, DhtMutableItem, ImmutableItem, ImmutableModel,
    InfohashesSample, MutableModel,
};
use crate::machine::decoding;
use crate::types::{PublicKey, SequenceNumber, Signature};
use crate::model::{dict_index, dict_insert, keys_sorted, Bencode};
use crate::random::{keeps, random_usize};
use crate::seqs::{lemma_filter_has, lemma_filter_len, lemma_filter_order, lemma_filter_origin,
    origin};
use crate::sha1::sha1_digest;
use crate::value::{values_view, Value};
use crate::detail::{IpAddress, SocketAddress};
use crate::node::NodeId;
use crate::peers::{contains, has_peer, peers_sorted, peers_with, record, PeerEntry};
use crate::settings::DhtSettings;
use crate::sha1::Sha1Hash;
use vstd::prelude::*;
use vstd::string::{StrSliceExecFns, StringSliceAdditionalSpecFns};

verus! {

/// For how many seconds an announce of a peer is kept.
pub const PEER_LIFETIME: u64 = 1800;

/// The longest interval, in seconds, that a sample of infohashes is valid.
pub const SAMPLE_INFOHASHES_INTERVAL_MAX: usize = 21600;

/// The most infohashes in one sample.
pub const INFOHASHES_SAMPLE_COUNT_MAX: usize = 20;

/// For how many seconds an item is kept where the settings name no lifetime.
pub const DEFAULT_ITEM_LIFETIME: u64 = 7200;

/// How many characters of a torrent's name are kept.
pub const NAME_LIMIT: usize = 100;

/// The bytes that are kept of a name: those that spell its first
/// `NAME_LIMIT` characters.
pub open spec fn kept_name(name: Seq<char>) -> Seq<u8> {
    vstd::utf8::encode_utf8(
        if name.len() > NAME_LIMIT {
            name.take(NAME_LIMIT as int)
        } else {
            name
        },
    )
}

/// How much a storage holds.
#[derive(Debug, Default, Copy, Clone, PartialEq, Eq)]
pub struct DhtStorageCounter {
    pub torrents: i32,
    pub peers: i32,
    pub immutable_data: i32,
    pub mutable_data: i32,
}

impl DhtStorageCounter {
    /// Sets every count to zero.
    pub fn reset(&mut self)
        ensures
            final(self).torrents == 0,
            final(self).peers == 0,
            final(self).immutable_data == 0,
            final(self).mutable_data == 0,
    {
        self.torrents = 0;
        self.peers = 0;
        self.immutable_data = 0;
        self.mutable_data = 0;
    }
}

/// What is known of one torrent: its name and the peers that announced it,
/// those with an IPv4 address apart from those with an IPv6 address.
pub struct TorrentEntry {
    pub name: Vec<u8>,
    pub peers4: Vec<PeerEntry>,
    pub peers6: Vec<PeerEntry>,
}

/// The mathematical value of a `TorrentEntry`.
pub struct TorrentModel {
    pub name: Seq<u8>,
    pub peers4: Seq<PeerEntry>,
    pub peers6: Seq<PeerEntry>,
}

impl View for TorrentEntry {
    type V = TorrentModel;

    open spec fn view(&self) -> TorrentModel {
        TorrentModel { name: self.name@, peers4: self.peers4@, peers6: self.peers6@ }
    }
}

impl TorrentModel {
    /// Both lists are sorted by endpoint without duplicates, and each holds
    /// the addresses of its family only.
    pub open spec fn well_formed(self) -> bool {
        &&& peers_sorted(self.peers4)
        &&& peers_sorted(self.peers6)
        &&& forall|i: int| 0 <= i < self.peers4.len() ==> self.peers4[i].addr.ip is V4
        &&& forall|i: int| 0 <= i < self.peers6.len() ==> self.peers6[i].addr.ip is V6
    }

    /// The list of the peers of one address family.
    pub open spec fn peers(self, v4: bool) -> Seq<PeerEntry> {
        if v4 {
            self.peers4
        } else {
            self.peers6
        }
    }

    /// The entry of a torrent of which nothing is known.
    pub open spec fn empty() -> TorrentModel {
        TorrentModel { name: Seq::empty(), peers4: Seq::empty(), peers6: Seq::empty() }
    }

    /// The entry after an announce: a name is taken where none was known,
    /// cut to its first `NAME_LIMIT` characters, and the peer is recorded in
    /// the list of its address family.
    pub open spec fn announced(self, e: PeerEntry, name: Seq<char>,
        max_peers: usize) -> TorrentModel {
        TorrentModel {
            name: if name.len() > 0 && self.name.len() == 0 {
                kept_name(name)
            } else {
                self.name
            },
            peers4: if e.addr.ip is V4 {
                peers_with(self.peers4, e, max_peers)
            } else {
                self.peers4
            },
            peers6: if e.addr.ip is V6 {
                peers_with(self.peers6, e, max_peers)
            } else {
                self.peers6
            },
        }
    }
}

/// Whether a peer may be handed out: a seed is left out where the requester
/// asked for no seeds.
pub open spec fn eligible(p: PeerEntry, no_seed: bool) -> bool {
    !(no_seed && p.seed)
}

/// How many of the peers from index `from` on may be handed out.
pub open spec fn eligible_from(peers: Seq<PeerEntry>, no_seed: bool, from: int) -> nat
    decreases peers.len() - from,
{
    if from < 0 || from >= peers.len() {
        0
    } else {
        (if eligible(peers[from], no_seed) {
            1nat
        } else {
            0nat
        }) + eligible_from(peers, no_seed, from + 1)
    }
}

/// `picks` are the endpoints of the peers at the indices `idx`, which
/// ascend and name peers that may be handed out.
pub open spec fn is_selection(
    idx: Seq<int>,
    picks: Seq<SocketAddress>,
    peers: Seq<PeerEntry>,
    no_seed: bool,
) -> bool {
    &&& idx.len() == picks.len()
    &&& forall|k: int|
        0 <= k < idx.len() ==> 0 <= #[trigger] idx[k] < peers.len() && eligible(
            peers[idx[k]],
            no_seed,
        ) && picks[k] == peers[idx[k]].addr
    &&& forall|k: int, m: int| 0 <= k < m < idx.len() ==> idx[k] < idx[m]
}

/// `picks` are endpoints of different peers of `peers` that may be handed
/// out, in the order of the list.
pub open spec fn picked(picks: Seq<SocketAddress>, peers: Seq<PeerEntry>, no_seed: bool) -> bool {
    exists|idx: Seq<int>| is_selection(idx, picks, peers, no_seed)
}

/// How many peers a reply names: as many as asked for, or all that may be
/// handed out where those are fewer.
pub open spec fn sample_size(peers: Seq<PeerEntry>, no_seed: bool, to_pick: usize) -> nat {
    if to_pick <= eligible_from(peers, no_seed, 0) {
        to_pick as nat
    } else {
        eligible_from(peers, no_seed, 0)
    }
}

/// How many peers a reply may name at most: the limit of the settings, and
/// a quarter of it for a requester with an IPv6 address where peers are
/// known.
pub open spec fn quota(max_peers_reply: usize, peers: Seq<PeerEntry>, v6: bool) -> usize {
    if peers.len() > 0 && v6 {
        max_peers_reply / 4
    } else {
        max_peers_reply
    }
}

/// The 256-byte filter of the addresses of the first `upto` peers that are
/// seeds, or of those that are not.
pub open spec fn scrape_bits(peers: Seq<PeerEntry>, seeds: bool, upto: int) -> Seq<u8>
    decreases upto,
{
    if upto <= 0 {
        Seq::new(256, |i: int| 0u8)
    } else {
        let rest = scrape_bits(peers, seeds, upto - 1);
        let p = peers[upto - 1];
        if p.seed == seeds {
            key_bits(rest, sha1_digest(p.addr.ip.octets()))
        } else {
            rest
        }
    }
}

/// The compact forms of `picks` as byte strings.
pub open spec fn packed_values(picks: Seq<SocketAddress>) -> Seq<Bencode> {
    Seq::new(picks.len(), |k: int| Bencode::Bytes(picks[k].packed()))
}

/// The dictionary of a reply after the name of the torrent has been put
/// under `n`, where a name is known.
pub open spec fn named(d: Seq<(Seq<u8>, Bencode)>, name: Seq<u8>) -> Seq<(Seq<u8>, Bencode)> {
    if name.len() > 0 {
        dict_insert(d, "n".spec_bytes(), Bencode::Bytes(name))
    } else {
        d
    }
}

/// Whether a requester is told to go on and announce: it is not recorded
/// yet and the list has room.
pub open spec fn admits(peers: Seq<PeerEntry>, requester: SocketAddress, max_peers: usize) -> bool {
    !has_peer(peers, requester) && peers.len() < max_peers
}

/// What a reply that names peers holds: under `values` the list that stood
/// there, followed by the compact forms of `picks`.
pub open spec fn with_values(
    d: Seq<(Seq<u8>, Bencode)>,
    i: int,
    picks: Seq<SocketAddress>,
) -> Bencode {
    Bencode::Dict(d.update(i, (d[i].0, Bencode::List(d[i].1->List_0 + packed_values(picks)))))
}

/// What `get_peers` leaves in the dictionary of a reply that names peers:
/// a sample of the right size under `values`.
pub open spec fn names_sample(
    after: Bencode,
    d: Seq<(Seq<u8>, Bencode)>,
    i: int,
    peers: Seq<PeerEntry>,
    no_seed: bool,
    to_pick: usize,
) -> bool {
    exists|picks: Seq<SocketAddress>|
        picked(picks, peers, no_seed) && picks.len() == sample_size(peers, no_seed, to_pick)
            && after == with_values(d, i, picks)
}

/// Draws a sample of `to_pick` of the peers that may be handed out, or all
/// of them where they are fewer. Every such peer is as likely to be drawn
/// as any other; which ones are drawn is left to chance.
pub fn pick_peers(peers: &Vec<PeerEntry>, no_seed: bool, to_pick: usize) -> (r: Vec<SocketAddress>)
    ensures
        picked(r@, peers@, no_seed),
        r@.len() == sample_size(peers@, no_seed, to_pick),
{
    let mut candidates: usize = 0;
    let mut j: usize = peers.len();
    while j > 0
        invariant
            peers@.len() <= usize::MAX,
            0 <= j <= peers@.len(),
            candidates == eligible_from(peers@, no_seed, j as int),
            candidates <= peers@.len() - j,
        decreases j,
    {
        j -= 1;
        if !(no_seed && peers[j].seed) {
            candidates += 1;
        }
    }
    let mut to_pick: usize = if to_pick <= candidates {
        to_pick
    } else {
        candidates
    };
    let ghost want = to_pick;
    let mut out: Vec<SocketAddress> = Vec::new();
    let ghost mut idx: Seq<int> = Seq::empty();
    let mut i: usize = 0;
    while to_pick > 0
        invariant
            peers@.len() <= usize::MAX,
            0 <= i <= peers@.len(),
            candidates == eligible_from(peers@, no_seed, i as int),
            to_pick <= candidates,
            out@.len() + to_pick == want,
            is_selection(idx, out@, peers@, no_seed),
            forall|k: int| 0 <= k < idx.len() ==> idx[k] < i,
        decreases peers@.len() - i,
    {
        proof {
            assert(eligible_from(peers@, no_seed, i as int) > 0);
            assert(i < peers@.len());
        }
        let p = peers[i];
        i += 1;
        if !(no_seed && p.seed) {
            candidates -= 1;
            let draw = random_usize(candidates + 1);
            if keeps(draw, to_pick) {
                out.push(p.addr);
                proof {
                    idx = idx.push(i - 1);
                }
                to_pick -= 1;
            }
        }
    }
    as_sample(out, Ghost(idx), Ghost(peers@), no_seed)
}

/// Hands a finished sample on, with the indices that show it to be one.
fn as_sample(
    out: Vec<SocketAddress>,
    Ghost(idx): Ghost<Seq<int>>,
    Ghost(peers): Ghost<Seq<PeerEntry>>,
    no_seed: bool,
) -> (r: Vec<SocketAddress>)
    requires
        is_selection(idx, out@, peers, no_seed),
    ensures
        r == out,
        picked(r@, peers, no_seed),
{
    out
}

/// The 256-byte filter of the addresses of the peers that are seeds, or of
/// those that are not.
pub fn scrape_filter(peers: &Vec<PeerEntry>, seeds: bool) -> (r: BloomFilter)
    ensures
        r@ == scrape_bits(peers@, seeds, peers@.len() as int),
{
    let mut filter = BloomFilter::new(256);
    let mut i: usize = 0;
    while i < peers.len()
        invariant
            0 <= i <= peers@.len(),
            filter.well_formed(),
            filter@.len() == 256,
            filter@ == scrape_bits(peers@, seeds, i as int),
        decreases peers@.len() - i,
    {
        let p = peers[i];
        if p.seed == seeds {
            let ip_hash = Sha1Hash::from_address(&p.addr.ip);
            proof {
                crate::bloom_filter::lemma_with_bit(
                    filter@,
                    filter.first_bit(&ip_hash),
                    filter.first_bit(&ip_hash),
                );
            }
            filter.set(&ip_hash);
            proof {
                let n1 = key_index(ip_hash@[0], ip_hash@[1], 2048);
                let n2 = key_index(ip_hash@[2], ip_hash@[3], 2048);
                let mid = with_bit(scrape_bits(peers@, seeds, i as int), n1);
                crate::bloom_filter::lemma_with_bit(mid, n2, n2);
            }
        }
        i += 1;
    }
    filter
}

/// No key occurs twice.
pub open spec fn keys_unique<T>(s: Seq<(Sha1Hash, T)>) -> bool {
    forall|i: int, j: int| 0 <= i < j < s.len() ==> s[i].0 != s[j].0
}

/// Whether the table holds the key `k`.
pub open spec fn has_key<T>(s: Seq<(Sha1Hash, T)>, k: Sha1Hash) -> bool {
    exists|i: int| 0 <= i < s.len() && s[i].0 == k
}

/// The index of the key `k`, where the table holds it.
pub open spec fn index_of<T>(s: Seq<(Sha1Hash, T)>, k: Sha1Hash) -> int {
    choose|i: int| 0 <= i < s.len() && s[i].0 == k
}

/// Among unique keys the index of a key is unique.
pub proof fn lemma_index_of<T>(s: Seq<(Sha1Hash, T)>, k: Sha1Hash, i: int)
    requires
        keys_unique(s),
        0 <= i < s.len(),
        s[i].0 == k,
    ensures
        has_key(s, k),
        index_of(s, k) == i,
{
    let c = index_of(s, k);
    if c < i {
    } else if i < c {
    }
}

/// The index of the key `key` in `table`.
pub fn find<T>(table: &Vec<(Sha1Hash, T)>, key: &Sha1Hash) -> (r: Option<usize>)
    ensures
        match r {
            Some(i) => i < table@.len() && table@[i as int].0 == *key && has_key(table@, *key) && (
            keys_unique(table@) ==> index_of(table@, *key) == i),
            None => !has_key(table@, *key),
        },
{
    let mut i: usize = 0;
    while i < table.len()
        invariant
            0 <= i <= table@.len(),
            forall|j: int| 0 <= j < i ==> table@[j].0 != *key,
        decreases table@.len() - i,
    {
        if table[i].0.same(key) {
            proof {
                if keys_unique(table@) {
                    lemma_index_of(table@, *key, i as int);
                }
            }
            return Some(i);
        }
        i += 1;
    }
    None
}

/// The entry at `i` of one of the two tables of items matters no more than
/// any entry of either table.
pub open spec fn is_least(
    node_ids: Seq<NodeId>,
    imm: Seq<(NodeId, DhtImmutableItem)>,
    mu: Seq<(NodeId, DhtMutableItem)>,
    in_mutable: bool,
    i: int,
) -> bool {
    let s = if in_mutable {
        score_at(node_ids, mu, i)
    } else {
        score_at(node_ids, imm, i)
    };
    &&& 0 <= i
    &&& if in_mutable {
        i < mu.len()
    } else {
        i < imm.len()
    }
    &&& forall|j: int| 0 <= j < imm.len() ==> s <= score_at(node_ids, imm, j)
    &&& forall|j: int| 0 <= j < mu.len() ==> s <= score_at(node_ids, mu, j)
}

/// The tables `imm1` and `mu1` are what is left of `imm0` and `mu0` once
/// there is room for one more item: they are the same where fewer than
/// `max` items were stored, and else an entry that mattered least has gone.
pub open spec fn room_made(
    node_ids: Seq<NodeId>,
    max: usize,
    imm0: Seq<(NodeId, DhtImmutableItem)>,
    mu0: Seq<(NodeId, DhtMutableItem)>,
    imm1: Seq<(NodeId, DhtImmutableItem)>,
    mu1: Seq<(NodeId, DhtMutableItem)>,
) -> bool {
    if imm0.len() + mu0.len() < max {
        imm1 == imm0 && mu1 == mu0
    } else {
        exists|in_mutable: bool, i: int|
            is_least(node_ids, imm0, mu0, in_mutable, i) && if in_mutable {
                imm1 == imm0 && mu1 == mu0.remove(i)
            } else {
                imm1 == imm0.remove(i) && mu1 == mu0
            }
    }
}

/// The storage of a node.
pub struct DefaultDhtStorage {
    pub settings: DhtSettings,
    pub node_ids: Vec<NodeId>,
    pub map: Vec<(NodeId, TorrentEntry)>,
    pub immutable_table: Vec<(NodeId, DhtImmutableItem)>,
    pub mutable_table: Vec<(NodeId, DhtMutableItem)>,
    pub infohashes_sample: InfohashesSample,
}

impl DefaultDhtStorage {
    /// No infohash occurs twice, there are no more torrents than the
    /// settings allow, and every torrent's peer lists are sorted, free of
    /// duplicates, of one address family each and no longer than the
    /// settings allow.
    pub open spec fn well_formed(&self) -> bool {
        &&& self.torrents_well_formed()
        &&& self.items_well_formed()
    }

    /// No key occurs twice in a table of items, the two tables together
    /// hold no more items than the settings allow, and the filter of every
    /// item has its full size.
    pub open spec fn items_well_formed(&self) -> bool {
        &&& keys_unique(self.immutable_table@)
        &&& keys_unique(self.mutable_table@)
        &&& self.immutable_table@.len() + self.mutable_table@.len() <= self.settings.max_dht_items
        &&& forall|i: int|
            0 <= i < self.immutable_table@.len() ==> (
            #[trigger] self.immutable_table@[i]).1.well_formed()
        &&& forall|i: int|
            0 <= i < self.mutable_table@.len() ==> (
            #[trigger] self.mutable_table@[i]).1.well_formed()
    }

    /// The invariant of the torrents (see `well_formed`).
    pub open spec fn torrents_well_formed(&self) -> bool {
        &&& keys_unique(self.map@)
        &&& self.map@.len() <= self.settings.max_torrents
        &&& forall|i: int| 0 <= i < self.map@.len() ==> (#[trigger] self.map@[i]).1@.well_formed()
        &&& forall|i: int|
            0 <= i < self.map@.len() ==> (#[trigger] self.map@[i]).1@.peers4.len()
                <= self.settings.max_peers
        &&& forall|i: int|
            0 <= i < self.map@.len() ==> (#[trigger] self.map@[i]).1@.peers6.len()
                <= self.settings.max_peers
    }

    /// What is known of the torrent `h`, if anything.
    pub open spec fn torrent(&self, h: Sha1Hash) -> Option<TorrentModel> {
        lookup_torrent(self.map@, h)
    }

    /// An empty storage.
    pub fn new(settings: &DhtSettings) -> (r: DefaultDhtStorage)
        ensures
            r.well_formed(),
            r.settings == *settings,
            r.map@.len() == 0,
            r.node_ids@.len() == 0,
            r.immutable_table@.len() == 0,
            r.mutable_table@.len() == 0,
            r.infohashes_sample.samples@.len() == 0,
    {
        DefaultDhtStorage {
            settings: *settings,
            node_ids: Vec::new(),
            map: Vec::new(),
            immutable_table: Vec::new(),
            mutable_table: Vec::new(),
            infohashes_sample: InfohashesSample::new(),
        }
    }

    /// Replaces the ids of the local node, one for each network, by which
    /// the importance of an item is judged.
    pub fn update_node_ids(&mut self, ids: &[NodeId])
        ensures
            final(self).node_ids@ == ids@,
            final(self).settings == old(self).settings,
            final(self).map == old(self).map,
            final(self).immutable_table == old(self).immutable_table,
            final(self).mutable_table == old(self).mutable_table,
            final(self).infohashes_sample == old(self).infohashes_sample,
    {
        let mut v: Vec<NodeId> = Vec::new();
        let mut i: usize = 0;
        while i < ids.len()
            invariant
                0 <= i <= ids@.len(),
                v@ == ids@.take(i as int),
            decreases ids@.len() - i,
        {
            v.push(ids[i]);
            i += 1;
            proof {
                assert(v@ =~= ids@.take(i as int));
            }
        }
        proof {
            assert(ids@.take(ids@.len() as int) =~= ids@);
        }
        self.node_ids = v;
    }

    /// Records that the peer at `endpoint` has announced the torrent
    /// `info_hash` at the time `now`. A torrent that is not known yet gets an
    /// entry unless the storage holds as many torrents as the settings
    /// allow; the announce is dropped then. A peer that is known is
    /// brought up to date; a new one is put at its place in the sorted list
    /// unless the list is full.
    pub fn announce_peer(
        &mut self,
        info_hash: &Sha1Hash,
        endpoint: &SocketAddress,
        name: &str,
        seed: bool,
        now: u64,
    )
        requires
            old(self).well_formed(),
        ensures
            final(self).well_formed(),
            final(self).settings == old(self).settings,
            final(self).node_ids == old(self).node_ids,
            final(self).immutable_table == old(self).immutable_table,
            final(self).mutable_table == old(self).mutable_table,
            final(self).infohashes_sample == old(self).infohashes_sample,
            forall|h: Sha1Hash| h != *info_hash ==> final(self).torrent(h) == old(self).torrent(h),
            final(self).map@.len() == if has_key(old(self).map@, *info_hash) || old(
                self,
            ).map@.len() >= old(self).settings.max_torrents {
                old(self).map@.len()
            } else {
                old(self).map@.len() + 1
            },
            forall|j: int|
                0 <= j < old(self).map@.len() ==> final(self).map@[j].0 == old(self).map@[j].0,
            final(self).map@.len() > old(self).map@.len() ==> final(self).map@.last().0
                == *info_hash,
            final(self).torrent(*info_hash) == match old(self).torrent(*info_hash) {
                Some(t) => Some(
                    t.announced(
                        PeerEntry { added: now, addr: *endpoint, seed },
                        name@,
                        old(self).settings.max_peers,
                    ),
                ),
                None => if old(self).map@.len() >= old(self).settings.max_torrents {
                    None
                } else {
                    Some(
                        TorrentModel::empty().announced(
                            PeerEntry { added: now, addr: *endpoint, seed },
                            name@,
                            old(self).settings.max_peers,
                        ),
                    )
                },
            },
    {
        let ghost before = self.map@;
        let index: usize = match find(&self.map, info_hash) {
            Some(i) => i,
            None => {
                if self.map.len() >= self.settings.max_torrents {
                    proof {
                        assert forall|h: Sha1Hash| h != *info_hash implies final(self).torrent(h)
                            == old(self).torrent(h) by {}
                    }
                    return ;
                }
                let fresh = TorrentEntry {
                    name: Vec::new(),
                    peers4: Vec::new(),
                    peers6: Vec::new(),
                };
                self.map.push((*info_hash, fresh));
                self.map.len() - 1
            },
        };
        let ghost middle = self.map@;
        let ghost start = middle[index as int].1@;
        let max_peers = self.settings.max_peers;
        let peer = PeerEntry { added: now, addr: *endpoint, seed };
        let entry = &mut self.map[index];
        let letters: usize = name.unicode_len();
        if letters > 0 && entry.1.name.len() == 0 {
            let kept: &str = if letters > NAME_LIMIT {
                name.substring_char(0, NAME_LIMIT)
            } else {
                name
            };
            entry.1.name = kept.as_bytes_vec();
        }
        if endpoint.is_ipv4() {
            record(&mut entry.1.peers4, peer, max_peers);
        } else {
            record(&mut entry.1.peers6, peer, max_peers);
        }
        proof {
            let after = self.map@;
            let done = start.announced(peer, name@, max_peers);
            assert(after.len() == middle.len());
            assert(after[index as int].0 == *info_hash);
            assert(after[index as int].1@ == done);
            assert(forall|j: int| 0 <= j < after.len() && j != index ==> after[j] == middle[j]);
            assert(keys_unique(after)) by {
                assert forall|i: int, j: int| 0 <= i < j < after.len() implies after[i].0
                    != after[j].0 by {
                    assert(after[i].0 == middle[i].0 && after[j].0 == middle[j].0);
                    if j < before.len() {
                        assert(middle[i] == before[i] && middle[j] == before[j]);
                    } else {
                        assert(middle[i] == before[i]);
                    }
                }
            }
            lemma_index_of(after, *info_hash, index as int);
            assert forall|h: Sha1Hash| h != *info_hash implies final(self).torrent(h)
                == old(self).torrent(h) by {
                if has_key(before, h) {
                    let i = index_of(before, h);
                    assert(after[i].0 == h);
                    lemma_index_of(after, h, i);
                    assert(after[i] == before[i]);
                } else if has_key(after, h) {
                    let i = index_of(after, h);
                    if i < before.len() {
                        assert(before[i].0 == h);
                    }
                }
            }
        }
    }

    /// Answers a request for the peers of the torrent `info_hash`, and says
    /// whether the requester is to go on and announce itself.
    ///
    /// For a torrent that is not known nothing is written, and the answer
    /// says whether the storage is full. Else the name of the torrent is
    /// put under `n` where one is known; then either two filters of the
    /// peers' addresses are put under `BFpe` and `BFsd`, or the compact
    /// forms of a sample of the peers are added to the list under
    /// `values`. The answer is then whether the requester is not recorded
    /// yet and the list has room.
    pub fn get_peers(
        &self,
        info_hash: &Sha1Hash,
        no_seed: bool,
        scrape: bool,
        requester: &SocketAddress,
        peers: &mut Value,
    ) -> (r: Result<bool, Error>)
        requires
            self.well_formed(),
            old(peers)@ is Dict ==> keys_sorted(old(peers)@->Dict_0),
        ensures
            old(peers)@.sorted() ==> final(peers)@.sorted(),
            match self.torrent(*info_hash) {
                None => r == Ok::<bool, Error>(self.map@.len() >= self.settings.max_torrents)
                    && final(peers)@ == old(peers)@,
                Some(t) => match old(peers)@ {
                    Bencode::Dict(d) => {
                        let list = t.peers(requester.ip is V4);
                        let answer = Ok::<bool, Error>(
                            admits(list, *requester, self.settings.max_peers),
                        );
                        if scrape {
                            r == answer && final(peers)@ == Bencode::Dict(
                                dict_insert(
                                    dict_insert(
                                        named(d, t.name),
                                        "BFpe".spec_bytes(),
                                        Bencode::Bytes(
                                            scrape_bits(list, false, list.len() as int),
                                        ),
                                    ),
                                    "BFsd".spec_bytes(),
                                    Bencode::Bytes(scrape_bits(list, true, list.len() as int)),
                                ),
                            )
                        } else {
                            match dict_index(named(d, t.name), "values".spec_bytes()) {
                                Some(i) => if named(d, t.name)[i].1 is List {
                                    r == answer && names_sample(
                                        final(peers)@,
                                        named(d, t.name),
                                        i,
                                        list,
                                        no_seed,
                                        quota(
                                            self.settings.max_peers_reply,
                                            list,
                                            requester.ip is V6,
                                        ),
                                    )
                                } else {
                                    r == Err::<bool, Error>(Error::ParseList) && final(peers)@
                                        == Bencode::Dict(named(d, t.name))
                                },
                                None => r == Err::<bool, Error>(Error::ParseList)
                                    && final(peers)@ == Bencode::Dict(named(d, t.name)),
                            }
                        }
                    },
                    _ => r == Err::<bool, Error>(Error::ParseDict) && final(peers)@ == old(peers)@,
                },
            },
    {
        let index: usize = match find(&self.map, info_hash) {
            Some(i) => i,
            None => {
                return Ok(self.map.len() >= self.settings.max_torrents);
            },
        };
        let v = &self.map[index].1;
        proof {
            assert(self.map@[index as int].1@.well_formed());
        }
        let peersv: &Vec<PeerEntry> = if requester.is_ipv4() {
            &v.peers4
        } else {
            &v.peers6
        };
        if !peers.is_dict() {
            return Err(Error::ParseDict);
        }
        if v.name.len() > 0 {
            let mut name: Vec<u8> = Vec::new();
            crate::value_ref::push_bytes(&mut name, v.name.as_slice());
            peers.dict_insert("n", Value::Bytes(name));
        }
        let answer: bool = !contains(peersv, requester) && peersv.len() < self.settings.max_peers;
        if scrape {
            let downloaders = scrape_filter(peersv, false);
            let seeds = scrape_filter(peersv, true);
            peers.dict_insert(
                "BFpe",
                Value::Bytes(vstd::slice::slice_to_vec(downloaders.as_bytes())),
            );
            peers.dict_insert("BFsd", Value::Bytes(vstd::slice::slice_to_vec(seeds.as_bytes())));
            Ok(answer)
        } else {
            let mut to_pick: usize = self.settings.max_peers_reply;
            if peersv.len() > 0 && requester.is_ipv6() {
                to_pick = to_pick / 4;
            }
            let picks = pick_peers(peersv, no_seed, to_pick);
            let mut items: Vec<Value> = Vec::new();
            let mut k: usize = 0;
            while k < picks.len()
                invariant
                    0 <= k <= picks@.len(),
                    items@.len() == k,
                    forall|j: int| 0 <= j < k ==> (#[trigger] items@[j])@ == Bencode::Bytes(
                        picks@[j].packed(),
                    ),
                decreases picks@.len() - k,
            {
                let mut buf: Vec<u8> = Vec::new();
                crate::detail::write_socket_addr(&mut buf, &picks[k]);
                items.push(Value::Bytes(buf));
                k += 1;
            }
            proof {
                assert(values_view(items@) =~= packed_values(picks@));
            }
            match peers.append_to_list("values", items) {
                Ok(()) => Ok(answer),
                Err(e) => Err(e),
            }
        }
    }

    /// How much the storage holds. A count that a counter cannot show is
    /// shown as the largest number it can.
    pub fn counters(&self) -> (r: DhtStorageCounter)
        ensures
            r.torrents == shown(self.map@.len()),
            r.peers == shown(peer_total(self.map@, self.map@.len() as int)),
            r.immutable_data == shown(self.immutable_table@.len()),
            r.mutable_data == shown(self.mutable_table@.len()),
    {
        let mut total: usize = 0;
        let mut i: usize = 0;
        while i < self.map.len()
            invariant
                0 <= i <= self.map@.len(),
                total == if peer_total(self.map@, i as int) > usize::MAX {
                    usize::MAX as nat
                } else {
                    peer_total(self.map@, i as int)
                },
            decreases self.map@.len() - i,
        {
            total = total.saturating_add(self.map[i].1.peers4.len());
            total = total.saturating_add(self.map[i].1.peers6.len());
            i += 1;
        }
        DhtStorageCounter {
            torrents: show(self.map.len()),
            peers: show(total),
            immutable_data: show(self.immutable_table.len()),
            mutable_data: show(self.mutable_table.len()),
        }
    }

    /// Forgets what has grown old by the time `now`: the peers that
    /// announced more than `PEER_LIFETIME` seconds ago, the torrents that
    /// are left without peers, and the items that were seen last longer ago
    /// than the lifetime of the settings.
    pub fn tick(&mut self, now: u64)
        requires
            old(self).well_formed(),
        ensures
            final(self).well_formed(),
            final(self).settings == old(self).settings,
            final(self).node_ids == old(self).node_ids,
            final(self).infohashes_sample == old(self).infohashes_sample,
            forall|h: Sha1Hash|
                #[trigger] final(self).torrent(h) == ticked(old(self).torrent(h), now),
            exists|mid: Seq<(NodeId, TorrentEntry)>| #[trigger]
                all_pruned(old(self).map@, mid, now) && final(self).map@ == mid.filter(
                    |e: (NodeId, TorrentEntry)| has_peers(e),
                ),
            final(self).immutable_table@ == old(self).immutable_table@.filter(
                |e: (NodeId, DhtImmutableItem)|
                    !is_stale(e.1.seen(), item_lifetime_of(old(self).settings), now),
            ),
            final(self).mutable_table@ == old(self).mutable_table@.filter(
                |e: (NodeId, DhtMutableItem)|
                    !is_stale(e.1.seen(), item_lifetime_of(old(self).settings), now),
            ),
    {
        let ghost map0 = self.map@;
        prune_torrents(&mut self.map, now);
        let ghost map1 = self.map@;
        drop_empty_torrents(&mut self.map);
        let lifetime: u64 = if self.settings.item_lifetime == 0 {
            DEFAULT_ITEM_LIFETIME
        } else if self.settings.item_lifetime as u64 as usize != self.settings.item_lifetime {
            0xffff_ffff_ffff_ffff
        } else {
            self.settings.item_lifetime as u64
        };
        let ghost imm0 = self.immutable_table@;
        let ghost mu0 = self.mutable_table@;
        drop_stale_items(&mut self.immutable_table, lifetime, now);
        drop_stale_items(&mut self.mutable_table, lifetime, now);
        proof {
            lemma_tick_well_formed(map0, map1, self.settings.max_peers, now);
            lemma_fresh_immutable(
                imm0,
                |e: (NodeId, DhtImmutableItem)| !is_stale(e.1.seen(), lifetime, now),
            );
            lemma_fresh_mutable(
                mu0,
                |e: (NodeId, DhtMutableItem)| !is_stale(e.1.seen(), lifetime, now),
            );
            assert forall|h: Sha1Hash|
                #[trigger] final(self).torrent(h) == ticked(old(self).torrent(h), now) by {
                lemma_tick_lookup(map0, map1, h, now);
            }
        }
    }

    /// Writes what a request for a sample of infohashes is answered with
    /// into the dictionary `item`, and gives the number of infohashes in
    /// the sample. The interval for which the sample is valid is put under
    /// `interval`, the number of torrents under `num`, and the infohashes of
    /// the sample, one after another, under `samples`. A sample that is not
    /// fresh any more is replaced first by the infohashes of the torrents
    /// that were stored first, as many as a sample holds. Nothing is
    /// written where `item` is no dictionary.
    pub fn get_infohashes_sample(&mut self, item: &mut Value, now: u64) -> (r: usize)
        requires
            old(self).well_formed(),
            old(item)@ is Dict ==> keys_sorted(old(item)@->Dict_0),
        ensures
            old(item)@.sorted() ==> final(item)@.sorted(),
            final(self).well_formed(),
            final(self).settings == old(self).settings,
            final(self).node_ids == old(self).node_ids,
            final(self).map == old(self).map,
            final(self).immutable_table == old(self).immutable_table,
            final(self).mutable_table == old(self).mutable_table,
            r == final(self).infohashes_sample.samples@.len(),
            if sample_is_fresh(
                old(self).settings,
                old(self).infohashes_sample.created,
                old(self).infohashes_sample.samples@.len(),
                now,
            ) {
                final(self).infohashes_sample == old(self).infohashes_sample
            } else {
                final(self).infohashes_sample.created == now
                    && final(self).infohashes_sample.samples@.len()
                    == (if sample_limit(old(self).settings) <= old(self).map@.len() {
                    sample_limit(old(self).settings) as nat
                } else {
                    old(self).map@.len()
                }) && forall|j: int|
                    0 <= j < final(self).infohashes_sample.samples@.len()
                        ==> final(self).infohashes_sample.samples@[j] == old(self).map@[j].0
            },
            final(item)@ == match old(item)@ {
                Bencode::Dict(d) => Bencode::Dict(
                    dict_insert(
                        dict_insert(
                            dict_insert(
                                d,
                                "interval".spec_bytes(),
                                Bencode::Int(sample_interval(old(self).settings) as i64),
                            ),
                            "num".spec_bytes(),
                            Bencode::Int(crate::settings::count_to_int(old(self).map@.len() as usize)),
                        ),
                        "samples".spec_bytes(),
                        Bencode::Bytes(
                            sample_bytes(
                                final(self).infohashes_sample.samples@,
                                final(self).infohashes_sample.samples@.len() as int,
                            ),
                        ),
                    ),
                ),
                _ => old(item)@,
            },
    {
        let interval: usize = crate::clamp(
            self.settings.sample_infohashes_interval,
            0,
            SAMPLE_INFOHASHES_INTERVAL_MAX,
        );
        let limit: usize = crate::clamp(
            self.settings.max_infohashes_sample_count,
            0,
            INFOHASHES_SAMPLE_COUNT_MAX,
        );
        let fresh: bool = interval > 0 && self.infohashes_sample.samples.len() >= limit && (
        self.infohashes_sample.created >= now
            || now - self.infohashes_sample.created < interval as u64);
        if !fresh {
            let count: usize = if limit <= self.map.len() {
                limit
            } else {
                self.map.len()
            };
            let mut samples: Vec<Sha1Hash> = Vec::new();
            let mut i: usize = 0;
            while i < count
                invariant
                    0 <= i <= count <= self.map@.len(),
                    samples@.len() == i,
                    forall|j: int| 0 <= j < i ==> samples@[j] == self.map@[j].0,
                decreases count - i,
            {
                samples.push(self.map[i].0);
                i += 1;
            }
            self.infohashes_sample.samples = samples;
            self.infohashes_sample.created = now;
        }
        if item.is_dict() {
            let num: usize = self.map.len();
            let shown_num: i64 =
                #[verifier::truncate]
                (num as i64);
            item.dict_insert("interval", Value::with_int(interval as i64));
            item.dict_insert("num", Value::with_int(shown_num));
            let mut bytes: Vec<u8> = Vec::new();
            let mut j: usize = 0;
            while j < self.infohashes_sample.samples.len()
                invariant
                    0 <= j <= self.infohashes_sample.samples@.len(),
                    bytes@ == sample_bytes(self.infohashes_sample.samples@, j as int),
                decreases self.infohashes_sample.samples@.len() - j,
            {
                crate::value_ref::push_bytes(
                    &mut bytes,
                    self.infohashes_sample.samples[j].as_bytes(),
                );
                j += 1;
            }
            item.dict_insert("samples", Value::Bytes(bytes));
        }
        self.infohashes_sample.samples.len()
    }

    /// The immutable item under `target`, if there is one.
    pub open spec fn immutable(&self, target: Sha1Hash) -> Option<ImmutableModel> {
        if has_key(self.immutable_table@, target) {
            Some(self.immutable_table@[index_of(self.immutable_table@, target)].1@)
        } else {
            None
        }
    }

    /// The mutable item under `target`, if there is one.
    pub open spec fn mutable(&self, target: Sha1Hash) -> Option<MutableModel> {
        if has_key(self.mutable_table@, target) {
            Some(self.mutable_table@[index_of(self.mutable_table@, target)].1@)
        } else {
            None
        }
    }

    /// Makes room for one more item, and says whether there is room now.
    /// Where the two tables hold as many items as the settings allow, an
    /// item that matters least is removed. There is no room only where the
    /// settings allow no item at all.
    pub fn make_room(&mut self) -> (r: bool)
        requires
            old(self).well_formed(),
        ensures
            final(self).well_formed(),
            final(self).settings == old(self).settings,
            final(self).node_ids == old(self).node_ids,
            final(self).map == old(self).map,
            final(self).infohashes_sample == old(self).infohashes_sample,
            r == (old(self).settings.max_dht_items > 0),
            r ==> room_made(
                old(self).node_ids@,
                old(self).settings.max_dht_items,
                old(self).immutable_table@,
                old(self).mutable_table@,
                final(self).immutable_table@,
                final(self).mutable_table@,
            ),
            r ==> final(self).immutable_table@.len() + final(self).mutable_table@.len()
                < old(self).settings.max_dht_items,
            !r ==> final(self).immutable_table == old(self).immutable_table
                && final(self).mutable_table == old(self).mutable_table,
    {
        if self.immutable_table.len() < self.settings.max_dht_items && self.mutable_table.len()
            < self.settings.max_dht_items - self.immutable_table.len() {
            return true;
        }
        let a = pick_least_imp(self.node_ids.as_slice(), &self.immutable_table);
        let b = pick_least_imp(self.node_ids.as_slice(), &self.mutable_table);
        let ghost imm0 = self.immutable_table@;
        let ghost mu0 = self.mutable_table@;
        let ghost ids = self.node_ids@;
        match (a, b) {
            (None, None) => false,
            (Some(i), None) => {
                proof {
                    assert(is_least(ids, imm0, mu0, false, i as int));
                }
                self.immutable_table.remove(i);
                proof {
                    lemma_remove_unique(imm0, i as int);
                }
                true
            },
            (None, Some(i)) => {
                proof {
                    assert(is_least(ids, imm0, mu0, true, i as int));
                }
                self.mutable_table.remove(i);
                proof {
                    lemma_remove_unique(mu0, i as int);
                }
                true
            },
            (Some(i), Some(j)) => {
                let si = crate::items::score(
                    self.node_ids.as_slice(),
                    &self.immutable_table[i].0,
                    self.immutable_table[i].1.num_announcers(),
                );
                let sj = crate::items::score(
                    self.node_ids.as_slice(),
                    &self.mutable_table[j].0,
                    self.mutable_table[j].1.num_announcers(),
                );
                if si <= sj {
                    proof {
                        assert(is_least(ids, imm0, mu0, false, i as int));
                    }
                    self.immutable_table.remove(i);
                    proof {
                        lemma_remove_unique(imm0, i as int);
                    }
                } else {
                    proof {
                        assert(is_least(ids, imm0, mu0, true, j as int));
                    }
                    self.mutable_table.remove(j);
                    proof {
                        lemma_remove_unique(mu0, j as int);
                    }
                }
                true
            },
        }
    }

    /// Stores the immutable item `item` under `target`, announced by `addr`
    /// at the time `now`. An item that is stored already is only noted as
    /// announced. For a new item room is made first; it is dropped where
    /// the settings allow no item at all.
    pub fn put_immutable_item(&mut self, target: &Sha1Hash, item: &[u8], addr: &IpAddress, now: u64)
        requires
            old(self).well_formed(),
        ensures
            final(self).well_formed(),
            final(self).settings == old(self).settings,
            final(self).node_ids == old(self).node_ids,
            final(self).map == old(self).map,
            final(self).infohashes_sample == old(self).infohashes_sample,
            match old(self).immutable(*target) {
                Some(m) => final(self).immutable(*target) == Some(m.touched(addr.octets(), now))
                    && final(self).mutable_table == old(self).mutable_table
                        && final(self).immutable_table@.len() == old(self).immutable_table@.len()
                        && forall|j: int|
                    0 <= j < old(self).immutable_table@.len() && old(self).immutable_table@[j].0
                        != *target
                            ==> final(self).immutable_table@[j] == old(self).immutable_table@[j],
                None => if old(self).settings.max_dht_items == 0 {
                    final(self).immutable_table == old(self).immutable_table
                        && final(self).mutable_table == old(self).mutable_table
                } else {
                    final(self).immutable(*target) == Some(
                        ImmutableModel::fresh(item@, now).touched(addr.octets(), now),
                    ) && final(self).immutable_table@.len() > 0
                        && final(self).immutable_table@.last().0 == *target && room_made(
                        old(self).node_ids@,
                        old(self).settings.max_dht_items,
                        old(self).immutable_table@,
                        old(self).mutable_table@,
                        final(self).immutable_table@.drop_last(),
                        final(self).mutable_table@,
                    )
                },
            },
    {
        match find(&self.immutable_table, target) {
            Some(i) => {
                let ghost before = self.immutable_table@;
                self.immutable_table[i].1.touch_item(addr, now);
                proof {
                    let after = self.immutable_table@;
                    assert(forall|j: int| 0 <= j < after.len() && j != i ==> after[j] == before[j]);
                    assert(after[i as int].0 == before[i as int].0);
                    lemma_same_keys_unique(before, after);
                    lemma_index_of(after, *target, i as int);
                }
            },
            None => {
                if !self.make_room() {
                    return ;
                }
                let mut fresh = DhtImmutableItem::new(vstd::slice::slice_to_vec(item), now);
                fresh.touch_item(addr, now);
                let ghost mid = self.immutable_table@;
                proof {
                    lemma_room_keeps_absent(
                        old(self).node_ids@,
                        old(self).settings.max_dht_items,
                        old(self).immutable_table@,
                        old(self).mutable_table@,
                        mid,
                        self.mutable_table@,
                        *target,
                    );
                }
                self.immutable_table.push((*target, fresh));
                proof {
                    let after = self.immutable_table@;
                    assert(after.drop_last() =~= mid);
                    lemma_push_unique(mid, (*target, fresh));
                    lemma_index_of(after, *target, after.len() - 1);
                }
            },
        }
    }

    /// Writes the immutable item under `target` into the dictionary `item`
    /// and says whether there is such an item. The stored bytes are decoded
    /// and put under `v`; nothing is written where they do not decode or
    /// where `item` is no dictionary.
    pub fn get_immutable_item(&self, target: &Sha1Hash, item: &mut Value) -> (r: bool)
        requires
            self.well_formed(),
            old(item)@ is Dict ==> keys_sorted(old(item)@->Dict_0),
        ensures
            old(item)@.sorted() ==> final(item)@.sorted(),
            r == self.immutable(*target).is_some(),
            final(item)@ == match (self.immutable(*target), old(item)@) {
                (Some(m), Bencode::Dict(d)) => match decoding(m.value, None, None) {
                    Ok(v) => Bencode::Dict(dict_insert(d, "v".spec_bytes(), v)),
                    Err(_) => old(item)@,
                },
                _ => old(item)@,
            },
    {
        match find(&self.immutable_table, target) {
            Some(i) => {
                if item.is_dict() {
                    match Value::decode(self.immutable_table[i].1.value.as_slice()) {
                        Ok(v) => {
                            item.dict_insert("v", v);
                        },
                        Err(_) => {},
                    }
                }
                true
            },
            None => false,
        }
    }

    /// Stores a version of the mutable item under `target`, announced by
    /// `addr` at the time `now`. Of an item that is stored already the
    /// value, the sequence number and the signature are replaced where the
    /// new sequence number is greater; in any case it is noted as
    /// announced. For a new item room is made first; it is dropped where
    /// the settings allow no item at all.
    pub fn put_mutable_item(
        &mut self,
        target: &Sha1Hash,
        buf: &[u8],
        signature: &Signature,
        seq: SequenceNumber,
        pk: &PublicKey,
        salt: &[u8],
        addr: &IpAddress,
        now: u64,
    )
        requires
            old(self).well_formed(),
        ensures
            final(self).well_formed(),
            final(self).settings == old(self).settings,
            final(self).node_ids == old(self).node_ids,
            final(self).map == old(self).map,
            final(self).infohashes_sample == old(self).infohashes_sample,
            match old(self).mutable(*target) {
                Some(m) => final(self).mutable(*target) == Some(
                    if m.seq < seq {
                        MutableModel {
                            inner: (ImmutableModel { value: buf@, ..m.inner }).touched(
                                addr.octets(),
                                now,
                            ),
                            sig: signature.0@,
                            seq,
                            ..m
                        }
                    } else {
                        MutableModel { inner: m.inner.touched(addr.octets(), now), ..m }
                    },
                ) && final(self).immutable_table == old(self).immutable_table
                    && final(self).mutable_table@.len() == old(self).mutable_table@.len()
                    && forall|j: int|
                    0 <= j < old(self).mutable_table@.len() && old(self).mutable_table@[j].0
                        != *target ==> final(self).mutable_table@[j] == old(self).mutable_table@[j],
                None => if old(self).settings.max_dht_items == 0 {
                    final(self).immutable_table == old(self).immutable_table
                        && final(self).mutable_table == old(self).mutable_table
                } else {
                    final(self).mutable(*target) == Some(
                        MutableModel {
                            inner: ImmutableModel::fresh(buf@, now).touched(addr.octets(), now),
                            sig: signature.0@,
                            seq,
                            key: pk.0@,
                            salt: salt@,
                        },
                    ) && final(self).mutable_table@.len() > 0
                        && final(self).mutable_table@.last().0 == *target && room_made(
                        old(self).node_ids@,
                        old(self).settings.max_dht_items,
                        old(self).immutable_table@,
                        old(self).mutable_table@,
                        final(self).immutable_table@,
                        final(self).mutable_table@.drop_last(),
                    )
                },
            },
    {
        match find(&self.mutable_table, target) {
            Some(i) => {
                let ghost before = self.mutable_table@;
                let entry = &mut self.mutable_table[i];
                if entry.1.seq < seq {
                    entry.1.inner.set_value(buf);
                    entry.1.seq = seq;
                    entry.1.sig = *signature;
                }
                entry.1.inner.touch_item(addr, now);
                proof {
                    let after = self.mutable_table@;
                    assert(forall|j: int| 0 <= j < after.len() && j != i ==> after[j] == before[j]);
                    assert(after[i as int].0 == before[i as int].0);
                    lemma_same_keys_unique(before, after);
                    lemma_index_of(after, *target, i as int);
                }
            },
            None => {
                if !self.make_room() {
                    return ;
                }
                let mut fresh = DhtMutableItem::new(vstd::slice::slice_to_vec(buf), now);
                fresh.seq = seq;
                fresh.salt = vstd::slice::slice_to_vec(salt);
                fresh.sig = *signature;
                fresh.key = *pk;
                fresh.inner.touch_item(addr, now);
                let ghost mid = self.mutable_table@;
                proof {
                    lemma_room_keeps_absent_mutable(
                        old(self).node_ids@,
                        old(self).settings.max_dht_items,
                        old(self).immutable_table@,
                        old(self).mutable_table@,
                        self.immutable_table@,
                        mid,
                        *target,
                    );
                }
                self.mutable_table.push((*target, fresh));
                proof {
                    let after = self.mutable_table@;
                    assert(after.drop_last() =~= mid);
                    lemma_push_unique(mid, (*target, fresh));
                    lemma_index_of(after, *target, after.len() - 1);
                }
            },
        }
    }

    /// The sequence number of the mutable item under `target`: it is written
    /// to `seq` where there is such an item, and the result says whether
    /// there is.
    pub fn get_mutable_item_seq(&self, target: &Sha1Hash, seq: &mut SequenceNumber) -> (r: bool)
        requires
            self.well_formed(),
        ensures
            r == self.mutable(*target).is_some(),
            *final(seq) == match self.mutable(*target) {
                Some(m) => m.seq,
                None => *old(seq),
            },
    {
        match find(&self.mutable_table, target) {
            Some(i) => {
                *seq = self.mutable_table[i].1.seq;
                true
            },
            None => false,
        }
    }

    /// Writes the mutable item under `target` into the dictionary `item` and
    /// says whether there is such an item. The sequence number is always
    /// put under `seq`. The value, the signature and the key are put under
    /// `v`, `sig` and `k` where `force_fill` asks for them or where the
    /// caller's sequence number `seq` is not negative and less than the
    /// stored one; a value that does not decode is left out. Nothing is
    /// written where `item` is no dictionary.
    pub fn get_mutable_item(
        &self,
        target: &Sha1Hash,
        seq: SequenceNumber,
        force_fill: bool,
        item: &mut Value,
    ) -> (r: bool)
        requires
            self.well_formed(),
            old(item)@ is Dict ==> keys_sorted(old(item)@->Dict_0),
        ensures
            old(item)@.sorted() ==> final(item)@.sorted(),
            r == self.mutable(*target).is_some(),
            final(item)@ == match (self.mutable(*target), old(item)@) {
                (Some(m), Bencode::Dict(d)) => Bencode::Dict(
                    mutable_reply(d, m, force_fill || (0 <= seq && seq < m.seq)),
                ),
                _ => old(item)@,
            },
    {
        match find(&self.mutable_table, target) {
            Some(i) => {
                let f = &self.mutable_table[i].1;
                if item.is_dict() {
                    item.dict_insert("seq", Value::with_int(f.seq));
                    if force_fill || (0 <= seq && seq < f.seq) {
                        match Value::decode(f.inner.value.as_slice()) {
                            Ok(v) => {
                                item.dict_insert("v", v);
                            },
                            Err(_) => {},
                        }
                        item.dict_insert(
                            "sig",
                            Value::Bytes(vstd::slice::slice_to_vec(f.sig.0.as_slice())),
                        );
                        item.dict_insert(
                            "k",
                            Value::Bytes(vstd::slice::slice_to_vec(f.key.0.as_slice())),
                        );
                    }
                }
                true
            },
            None => false,
        }
    }
}

/// Whether something that was seen at the time `seen` is older than
/// `lifetime` seconds at the time `now`.
pub open spec fn is_stale(seen: u64, lifetime: u64, now: u64) -> bool {
    seen + lifetime < now
}

/// Whether something that was seen at the time `seen` is older than
/// `lifetime` seconds at the time `now`.
pub fn stale(seen: u64, lifetime: u64, now: u64) -> (r: bool)
    ensures
        r == is_stale(seen, lifetime, now),
{
    now > seen && now - seen > lifetime
}

/// For how many seconds the settings keep an item: two hours where they
/// name no lifetime.
pub open spec fn item_lifetime_of(settings: DhtSettings) -> u64 {
    if settings.item_lifetime == 0 {
        DEFAULT_ITEM_LIFETIME
    } else if settings.item_lifetime > u64::MAX {
        u64::MAX
    } else {
        settings.item_lifetime as u64
    }
}

/// The peers that are left at the time `now`: those that announced within
/// `PEER_LIFETIME`.
pub open spec fn pruned(peers: Seq<PeerEntry>, now: u64) -> Seq<PeerEntry> {
    peers.filter(|p: PeerEntry| !is_stale(p.added, PEER_LIFETIME, now))
}

/// The torrent as it is left at the time `now`.
pub open spec fn pruned_torrent(t: TorrentModel, now: u64) -> TorrentModel {
    TorrentModel { name: t.name, peers4: pruned(t.peers4, now), peers6: pruned(t.peers6, now) }
}

/// A filter leaves the keys of a table unique.
pub proof fn lemma_filter_unique<T>(s: Seq<(Sha1Hash, T)>, p: spec_fn((Sha1Hash, T)) -> bool)
    requires
        keys_unique(s),
    ensures
        keys_unique(s.filter(p)),
{
    let f = s.filter(p);
    assert forall|a: int, b: int| 0 <= a < b < f.len() implies f[a].0 != f[b].0 by {
        lemma_filter_origin(s, p, a);
        lemma_filter_origin(s, p, b);
        lemma_filter_order(s, p, a, b);
    }
}

/// Removes the peers of `list` that announced more than `PEER_LIFETIME`
/// seconds before `now`.
pub fn prune_peers(list: &mut Vec<PeerEntry>, now: u64)
    ensures
        final(list)@ == pruned(old(list)@, now),
{
    let ghost s = list@;
    let ghost p = |e: PeerEntry| !is_stale(e.added, PEER_LIFETIME, now);
    let ghost mut k: int = 0;
    let mut i: usize = 0;
    proof {
        reveal(Seq::filter);
        assert(s.take(0) =~= Seq::<PeerEntry>::empty());
        assert(s.skip(0) =~= s);
        assert(list@ =~= s.take(0).filter(p) + s.skip(0));
    }
    while i < list.len()
        invariant
            0 <= k <= s.len(),
            p == (|e: PeerEntry| !is_stale(e.added, PEER_LIFETIME, now)),
            i == s.take(k).filter(p).len(),
            list@ == s.take(k).filter(p) + s.skip(k),
        decreases s.len() - k,
    {
        proof {
            reveal(Seq::filter);
            assert(k < s.len());
            assert(list@[i as int] == s.skip(k)[0]);
            assert(s.take(k + 1).drop_last() =~= s.take(k));
            assert(s.take(k + 1).last() == s[k]);
        }
        if stale(list[i].added, PEER_LIFETIME, now) {
            list.remove(i);
            proof {
                assert(list@ =~= s.take(k + 1).filter(p) + s.skip(k + 1));
            }
        } else {
            proof {
                assert(list@ =~= s.take(k + 1).filter(p) + s.skip(k + 1));
            }
            i += 1;
        }
        proof {
            k = k + 1;
        }
    }
    proof {
        assert(k == s.len()) by {
            if k < s.len() {
                assert((s.take(k).filter(p) + s.skip(k)).len() > i);
            }
        }
        assert(s.take(k) =~= s);
        assert(list@ =~= s.filter(p));
    }
}

/// Removes the entries of `table` that were seen last more than `lifetime`
/// seconds before `now`.
pub fn drop_stale_items<T: ImmutableItem>(table: &mut Vec<(NodeId, T)>, lifetime: u64, now: u64)
    ensures
        final(table)@ == old(table)@.filter(
            |e: (NodeId, T)| !is_stale(e.1.seen(), lifetime, now),
        ),
{
    let ghost s = table@;
    let ghost p = |e: (NodeId, T)| !is_stale(e.1.seen(), lifetime, now);
    let ghost mut k: int = 0;
    let mut i: usize = 0;
    proof {
        reveal(Seq::filter);
        assert(s.take(0) =~= Seq::<(NodeId, T)>::empty());
        assert(s.skip(0) =~= s);
        assert(table@ =~= s.take(0).filter(p) + s.skip(0));
    }
    while i < table.len()
        invariant
            0 <= k <= s.len(),
            p == (|e: (NodeId, T)| !is_stale(e.1.seen(), lifetime, now)),
            i == s.take(k).filter(p).len(),
            table@ == s.take(k).filter(p) + s.skip(k),
        decreases s.len() - k,
    {
        proof {
            reveal(Seq::filter);
            assert(k < s.len());
            assert(table@[i as int] == s.skip(k)[0]);
            assert(s.take(k + 1).drop_last() =~= s.take(k));
            assert(s.take(k + 1).last() == s[k]);
        }
        if stale(table[i].1.last_seen(), lifetime, now) {
            table.remove(i);
            proof {
                assert(table@ =~= s.take(k + 1).filter(p) + s.skip(k + 1));
            }
        } else {
            proof {
                assert(table@ =~= s.take(k + 1).filter(p) + s.skip(k + 1));
            }
            i += 1;
        }
        proof {
            k = k + 1;
        }
    }
    proof {
        assert(k == s.len()) by {
            if k < s.len() {
                assert((s.take(k).filter(p) + s.skip(k)).len() > i);
            }
        }
        assert(s.take(k) =~= s);
        assert(table@ =~= s.filter(p));
    }
}

/// How many peers the first `upto` torrents have.
pub open spec fn peer_total(map: Seq<(NodeId, TorrentEntry)>, upto: int) -> nat
    decreases upto,
{
    if upto <= 0 {
        0
    } else {
        peer_total(map, upto - 1) + map[upto - 1].1@.peers4.len() + map[upto - 1].1@.peers6.len()
    }
}

/// A count as a counter shows it: the count itself, or the largest number
/// of the counter where the count is larger.
pub open spec fn shown(n: nat) -> i32 {
    if n > i32::MAX {
        i32::MAX
    } else {
        n as i32
    }
}

fn show(n: usize) -> (r: i32)
    ensures
        r == shown(n as nat),
{
    if n > 0x7fff_ffff {
        0x7fff_ffff
    } else {
        n as i32
    }
}

/// The twenty bytes of each of `samples`, one after another.
pub open spec fn sample_bytes(samples: Seq<Sha1Hash>, upto: int) -> Seq<u8>
    decreases upto,
{
    if upto <= 0 {
        Seq::empty()
    } else {
        sample_bytes(samples, upto - 1) + samples[upto - 1]@
    }
}

/// The interval, in seconds, for which a sample of infohashes is valid.
pub open spec fn sample_interval(settings: DhtSettings) -> usize {
    if settings.sample_infohashes_interval > SAMPLE_INFOHASHES_INTERVAL_MAX {
        SAMPLE_INFOHASHES_INTERVAL_MAX
    } else {
        settings.sample_infohashes_interval
    }
}

/// The most infohashes that a sample holds.
pub open spec fn sample_limit(settings: DhtSettings) -> usize {
    if settings.max_infohashes_sample_count > INFOHASHES_SAMPLE_COUNT_MAX {
        INFOHASHES_SAMPLE_COUNT_MAX
    } else {
        settings.max_infohashes_sample_count
    }
}

/// Whether the sample that was made at the time `created` and holds
/// `count` infohashes is still handed out at the time `now`.
pub open spec fn sample_is_fresh(settings: DhtSettings, created: u64, count: nat,
    now: u64) -> bool {
    sample_interval(settings) > 0 && created + sample_interval(settings) > now && count
        >= sample_limit(settings)
}

/// Pruning a sorted list leaves it sorted and makes it no longer.
pub proof fn lemma_pruned_list(l: Seq<PeerEntry>, now: u64)
    requires
        peers_sorted(l),
    ensures
        peers_sorted(pruned(l, now)),
        pruned(l, now).len() <= l.len(),
{
    let p = |e: PeerEntry| !is_stale(e.added, PEER_LIFETIME, now);
    let f = pruned(l, now);
    lemma_filter_len(l, p);
    assert forall|i: int, j: int| 0 <= i < j < f.len() implies f[i].addr.rank()
        < f[j].addr.rank() by {
        lemma_filter_origin(l, p, i);
        lemma_filter_origin(l, p, j);
        lemma_filter_order(l, p, i, j);
    }
}

/// Pruning a well-formed torrent leaves it well formed and makes no list
/// longer.
pub proof fn lemma_pruned_sorted(t: TorrentModel, now: u64)
    requires
        t.well_formed(),
    ensures
        pruned_torrent(t, now).well_formed(),
        pruned(t.peers4, now).len() <= t.peers4.len(),
        pruned(t.peers6, now).len() <= t.peers6.len(),
{
    lemma_pruned_list(t.peers4, now);
    lemma_pruned_list(t.peers6, now);
    let f4 = pruned(t.peers4, now);
    let f6 = pruned(t.peers6, now);
    let p = |e: PeerEntry| !is_stale(e.added, PEER_LIFETIME, now);
    assert forall|i: int| 0 <= i < f4.len() implies f4[i].addr.ip is V4 by {
        lemma_filter_origin(t.peers4, p, i);
        assert(t.peers4[origin(t.peers4, p, i)] == f4[i]);
    }
    assert forall|i: int| 0 <= i < f6.len() implies f6[i].addr.ip is V6 by {
        lemma_filter_origin(t.peers6, p, i);
        assert(t.peers6[origin(t.peers6, p, i)] == f6[i]);
    }
}

/// What is known of the torrent `h` in the table `map`, if anything.
pub open spec fn lookup_torrent(map: Seq<(NodeId, TorrentEntry)>, h: Sha1Hash) -> Option<
    TorrentModel,
> {
    if has_key(map, h) {
        Some(map[index_of(map, h)].1@)
    } else {
        None
    }
}

/// Whether a torrent has a peer.
pub open spec fn has_peers(e: (NodeId, TorrentEntry)) -> bool {
    e.1@.peers4.len() + e.1@.peers6.len() > 0
}

/// The table `map1` holds the torrents of `map0` as they are left at the
/// time `now`, each at its place.
pub open spec fn all_pruned(
    map0: Seq<(NodeId, TorrentEntry)>,
    map1: Seq<(NodeId, TorrentEntry)>,
    now: u64,
) -> bool {
    &&& map1.len() == map0.len()
    &&& forall|j: int| 0 <= j < map0.len() ==> (#[trigger] map1[j]).0 == map0[j].0
    &&& forall|j: int|
        0 <= j < map0.len() ==> (#[trigger] map1[j]).1@ == pruned_torrent(map0[j].1@, now)
}

/// What a tick leaves of one torrent.
pub open spec fn ticked(t: Option<TorrentModel>, now: u64) -> Option<TorrentModel> {
    match t {
        Some(t) => if pruned(t.peers4, now).len() + pruned(t.peers6, now).len() > 0 {
            Some(pruned_torrent(t, now))
        } else {
            None
        },
        None => None,
    }
}

/// Pruning every torrent and dropping those without peers leaves of each
/// torrent what `ticked` says.
pub proof fn lemma_tick_lookup(
    map0: Seq<(NodeId, TorrentEntry)>,
    map1: Seq<(NodeId, TorrentEntry)>,
    h: Sha1Hash,
    now: u64,
)
    requires
        keys_unique(map0),
        all_pruned(map0, map1, now),
    ensures
        lookup_torrent(map1.filter(|e: (NodeId, TorrentEntry)| has_peers(e)), h) == ticked(
            lookup_torrent(map0, h),
            now,
        ),
{
    let keep = |e: (NodeId, TorrentEntry)| has_peers(e);
    let map2 = map1.filter(keep);
    lemma_same_keys_unique(map0, map1);
    lemma_filter_unique(map1, keep);
    if has_key(map2, h) {
        let j = index_of(map2, h);
        lemma_filter_origin(map1, keep, j);
        let a0 = origin(map1, keep, j);
        assert(map1[a0].0 == h);
        assert(map0[a0].0 == h);
        lemma_index_of(map0, h, a0);
        assert(map1[a0].1@ == pruned_torrent(map0[a0].1@, now));
    } else if has_key(map0, h) {
        let a0 = index_of(map0, h);
        assert(map1[a0].0 == h);
        assert(map1[a0].1@ == pruned_torrent(map0[a0].1@, now));
        if has_peers(map1[a0]) {
            let j = lemma_filter_has(map1, keep, a0);
            assert(map2[j].0 == h);
        }
    }
}

/// Pruning every torrent and dropping those without peers keeps the table
/// of torrents well formed.
pub proof fn lemma_tick_well_formed(
    map0: Seq<(NodeId, TorrentEntry)>,
    map1: Seq<(NodeId, TorrentEntry)>,
    max_peers: usize,
    now: u64,
)
    requires
        keys_unique(map0),
        all_pruned(map0, map1, now),
        forall|i: int| 0 <= i < map0.len() ==> (#[trigger] map0[i]).1@.well_formed(),
        forall|i: int| 0 <= i < map0.len() ==> (#[trigger] map0[i]).1@.peers4.len() <= max_peers,
        forall|i: int| 0 <= i < map0.len() ==> (#[trigger] map0[i]).1@.peers6.len() <= max_peers,
    ensures
        ({
            let map2 = map1.filter(|e: (NodeId, TorrentEntry)| has_peers(e));
            &&& keys_unique(map2)
            &&& map2.len() <= map0.len()
            &&& forall|i: int| 0 <= i < map2.len() ==> (#[trigger] map2[i]).1@.well_formed()
            &&& forall|i: int| 0 <= i < map2.len()
                ==> (#[trigger] map2[i]).1@.peers4.len() <= max_peers
            &&& forall|i: int| 0 <= i < map2.len()
                ==> (#[trigger] map2[i]).1@.peers6.len() <= max_peers
        }),
{
    let keep = |e: (NodeId, TorrentEntry)| has_peers(e);
    let map2 = map1.filter(keep);
    lemma_same_keys_unique(map0, map1);
    lemma_filter_unique(map1, keep);
    lemma_filter_len(map1, keep);
    assert forall|i: int| 0 <= i < map2.len() implies (#[trigger] map2[i]).1@.well_formed()
        && map2[i].1@.peers4.len() <= max_peers && map2[i].1@.peers6.len() <= max_peers by {
        lemma_filter_origin(map1, keep, i);
        let a0 = origin(map1, keep, i);
        assert(map1[a0].1@ == pruned_torrent(map0[a0].1@, now));
        assert(map0[a0].1@.well_formed());
        lemma_pruned_sorted(map0[a0].1@, now);
    }
}

/// Dropping the stale items of a table keeps what is left as it was: its
/// keys stay unique and its items well formed.
pub proof fn lemma_fresh_immutable(
    s: Seq<(NodeId, DhtImmutableItem)>,
    p: spec_fn((NodeId, DhtImmutableItem)) -> bool,
)
    requires
        keys_unique(s),
        forall|i: int| 0 <= i < s.len() ==> (#[trigger] s[i]).1.well_formed(),
    ensures
        keys_unique(s.filter(p)),
        s.filter(p).len() <= s.len(),
        forall|i: int| 0 <= i < s.filter(p).len() ==> (#[trigger] s.filter(p)[i]).1.well_formed(),
{
    lemma_filter_unique(s, p);
    lemma_filter_len(s, p);
    assert forall|i: int| 0 <= i < s.filter(p).len() implies (
    #[trigger] s.filter(p)[i]).1.well_formed() by {
        lemma_filter_origin(s, p, i);
        assert(s[origin(s, p, i)].1.well_formed());
    }
}

/// Dropping the stale items of a table keeps what is left as it was: its
/// keys stay unique and its items well formed.
pub proof fn lemma_fresh_mutable(
    s: Seq<(NodeId, DhtMutableItem)>,
    p: spec_fn((NodeId, DhtMutableItem)) -> bool,
)
    requires
        keys_unique(s),
        forall|i: int| 0 <= i < s.len() ==> (#[trigger] s[i]).1.well_formed(),
    ensures
        keys_unique(s.filter(p)),
        s.filter(p).len() <= s.len(),
        forall|i: int| 0 <= i < s.filter(p).len() ==> (#[trigger] s.filter(p)[i]).1.well_formed(),
{
    lemma_filter_unique(s, p);
    lemma_filter_len(s, p);
    assert forall|i: int| 0 <= i < s.filter(p).len() implies (
    #[trigger] s.filter(p)[i]).1.well_formed() by {
        lemma_filter_origin(s, p, i);
        assert(s[origin(s, p, i)].1.well_formed());
    }
}

/// Prunes the peers of every torrent of `map`.
pub fn prune_torrents(map: &mut Vec<(NodeId, TorrentEntry)>, now: u64)
    ensures
        all_pruned(old(map)@, final(map)@, now),
{
    let ghost map0 = map@;
    let mut i: usize = 0;
    while i < map.len()
        invariant
            0 <= i <= map@.len(),
            map@.len() == map0.len(),
            forall|j: int| 0 <= j < map0.len() ==> (#[trigger] map@[j]).0 == map0[j].0,
            forall|j: int|
                0 <= j < i ==> (#[trigger] map@[j]).1@ == pruned_torrent(map0[j].1@, now),
            forall|j: int| i <= j < map0.len() ==> (#[trigger] map@[j]) == map0[j],
        decreases map@.len() - i,
    {
        let ghost before = map@;
        let entry = &mut map[i];
        prune_peers(&mut entry.1.peers4, now);
        prune_peers(&mut entry.1.peers6, now);
        proof {
            let after = map@;
            assert(forall|j: int| 0 <= j < after.len() && j != i ==> after[j] == before[j]);
        }
        i += 1;
    }
}

/// Removes the torrents of `map` that have no peer.
pub fn drop_empty_torrents(map: &mut Vec<(NodeId, TorrentEntry)>)
    ensures
        final(map)@ == old(map)@.filter(|e: (NodeId, TorrentEntry)| has_peers(e)),
{
    let ghost map1 = map@;
    let ghost keep = |e: (NodeId, TorrentEntry)| has_peers(e);
    let ghost mut k: int = 0;
    let mut n: usize = 0;
    proof {
        reveal(Seq::filter);
        assert(map1.take(0) =~= Seq::<(NodeId, TorrentEntry)>::empty());
        assert(map1.skip(0) =~= map1);
        assert(map@ =~= map1.take(0).filter(keep) + map1.skip(0));
    }
    while n < map.len()
        invariant
            0 <= k <= map1.len(),
            keep == (|e: (NodeId, TorrentEntry)| has_peers(e)),
            n == map1.take(k).filter(keep).len(),
            map@ == map1.take(k).filter(keep) + map1.skip(k),
        decreases map1.len() - k,
    {
        proof {
            reveal(Seq::filter);
            assert(k < map1.len());
            assert(map@[n as int] == map1.skip(k)[0]);
            assert(map1.take(k + 1).drop_last() =~= map1.take(k));
            assert(map1.take(k + 1).last() == map1[k]);
        }
        if map[n].1.peers4.len() == 0 && map[n].1.peers6.len() == 0 {
            map.remove(n);
            proof {
                assert(map@ =~= map1.take(k + 1).filter(keep) + map1.skip(k + 1));
            }
        } else {
            proof {
                assert(map@ =~= map1.take(k + 1).filter(keep) + map1.skip(k + 1));
            }
            n += 1;
        }
        proof {
            k = k + 1;
        }
    }
    proof {
        assert(k == map1.len()) by {
            if k < map1.len() {
                assert((map1.take(k).filter(keep) + map1.skip(k)).len() > n);
            }
        }
        assert(map1.take(k) =~= map1);
        assert(map@ =~= map1.filter(keep));
    }
}

/// The peers of every torrent of a well-formed storage are sorted by
/// address and port, and no endpoint occurs twice in a list. A storage is
/// well formed when it is made, and every operation keeps it so.
pub proof fn lemma_peer_lists_sorted(s: DefaultDhtStorage, h: Sha1Hash, v4: bool, i: int, j: int)
    requires
        s.well_formed(),
        s.torrent(h).is_some(),
        0 <= i < j < s.torrent(h).unwrap().peers(v4).len(),
    ensures
        s.torrent(h).unwrap().peers(v4)[i].addr.rank() < s.torrent(h).unwrap().peers(
            v4,
        )[j].addr.rank(),
        s.torrent(h).unwrap().peers(v4)[i].addr != s.torrent(h).unwrap().peers(v4)[j].addr,
{
    let k = index_of(s.map@, h);
    assert(s.map@[k].1@.well_formed());
}

/// The dictionary of a reply that names a mutable item: the sequence
/// number, and where `fill` holds the value, if it decodes, the signature
/// and the key.
pub open spec fn mutable_reply(d: Seq<(Seq<u8>, Bencode)>, m: MutableModel, fill: bool) -> Seq<
    (Seq<u8>, Bencode),
> {
    let with_seq = dict_insert(d, "seq".spec_bytes(), Bencode::Int(m.seq));
    if fill {
        let with_v = match decoding(m.inner.value, None, None) {
            Ok(v) => dict_insert(with_seq, "v".spec_bytes(), v),
            Err(_) => with_seq,
        };
        dict_insert(
            dict_insert(with_v, "sig".spec_bytes(), Bencode::Bytes(m.sig)),
            "k".spec_bytes(),
            Bencode::Bytes(m.key),
        )
    } else {
        with_seq
    }
}

/// Taking an entry out leaves the keys unique, and every entry that is left
/// was there before.
pub proof fn lemma_remove_unique<T>(s: Seq<(Sha1Hash, T)>, i: int)
    requires
        keys_unique(s),
        0 <= i < s.len(),
    ensures
        keys_unique(s.remove(i)),
        forall|j: int|
            0 <= j < s.remove(i).len() ==> #[trigger] s.remove(i)[j] == s[if j < i {
                j
            } else {
                j + 1
            }],
{
    let r = s.remove(i);
    assert forall|a: int, b: int| 0 <= a < b < r.len() implies r[a].0 != r[b].0 by {
        let a0 = if a < i {
            a
        } else {
            a + 1
        };
        let b0 = if b < i {
            b
        } else {
            b + 1
        };
        assert(r[a] == s[a0] && r[b] == s[b0]);
    }
}

/// Adding an entry with a new key leaves the keys unique.
pub proof fn lemma_push_unique<T>(s: Seq<(Sha1Hash, T)>, e: (Sha1Hash, T))
    requires
        keys_unique(s),
        !has_key(s, e.0),
    ensures
        keys_unique(s.push(e)),
{
    let r = s.push(e);
    assert forall|a: int, b: int| 0 <= a < b < r.len() implies r[a].0 != r[b].0 by {
        if b < s.len() {
            assert(r[a] == s[a] && r[b] == s[b]);
        } else {
            assert(r[a] == s[a]);
        }
    }
}

/// A table with the same keys at the same places has unique keys too.
pub proof fn lemma_same_keys_unique<T>(s: Seq<(Sha1Hash, T)>, t: Seq<(Sha1Hash, T)>)
    requires
        keys_unique(s),
        s.len() == t.len(),
        forall|j: int| 0 <= j < s.len() ==> s[j].0 == t[j].0,
    ensures
        keys_unique(t),
{
    assert forall|a: int, b: int| 0 <= a < b < t.len() implies t[a].0 != t[b].0 by {
        assert(s[a].0 == t[a].0 && s[b].0 == t[b].0);
    }
}

/// Making room brings no key into the table of immutable items.
pub proof fn lemma_room_keeps_absent(
    node_ids: Seq<NodeId>,
    max: usize,
    imm0: Seq<(NodeId, DhtImmutableItem)>,
    mu0: Seq<(NodeId, DhtMutableItem)>,
    imm1: Seq<(NodeId, DhtImmutableItem)>,
    mu1: Seq<(NodeId, DhtMutableItem)>,
    k: Sha1Hash,
)
    requires
        keys_unique(imm0),
        room_made(node_ids, max, imm0, mu0, imm1, mu1),
        !has_key(imm0, k),
    ensures
        !has_key(imm1, k),
{
    if has_key(imm1, k) {
        let j = index_of(imm1, k);
        if imm0.len() + mu0.len() < max {
        } else {
            let (in_mutable, i) = choose|in_mutable: bool, i: int|
                is_least(node_ids, imm0, mu0, in_mutable, i) && if in_mutable {
                    imm1 == imm0 && mu1 == mu0.remove(i)
                } else {
                    imm1 == imm0.remove(i) && mu1 == mu0
                };
            if !in_mutable {
                lemma_remove_unique(imm0, i);
                let j0 = if j < i {
                    j
                } else {
                    j + 1
                };
                assert(imm0[j0].0 == k);
            }
        }
    }
}

/// Making room brings no key into the table of mutable items.
pub proof fn lemma_room_keeps_absent_mutable(
    node_ids: Seq<NodeId>,
    max: usize,
    imm0: Seq<(NodeId, DhtImmutableItem)>,
    mu0: Seq<(NodeId, DhtMutableItem)>,
    imm1: Seq<(NodeId, DhtImmutableItem)>,
    mu1: Seq<(NodeId, DhtMutableItem)>,
    k: Sha1Hash,
)
    requires
        keys_unique(mu0),
        room_made(node_ids, max, imm0, mu0, imm1, mu1),
        !has_key(mu0, k),
    ensures
        !has_key(mu1, k),
{
    if has_key(mu1, k) {
        let j = index_of(mu1, k);
        if imm0.len() + mu0.len() < max {
        } else {
            let (in_mutable, i) = choose|in_mutable: bool, i: int|
                is_least(node_ids, imm0, mu0, in_mutable, i) && if in_mutable {
                    imm1 == imm0 && mu1 == mu0.remove(i)
                } else {
                    imm1 == imm0.remove(i) && mu1 == mu0
                };
            if in_mutable {
                lemma_remove_unique(mu0, i);
                let j0 = if j < i {
                    j
                } else {
                    j + 1
                };
                assert(mu0[j0].0 == k);
            }
        }
    }
}

/// What a node asks of its storage. A storage other than the one of this
/// library can stand in for it.
pub trait DhtStorage {
    /// What the storage relies on between two calls.
    spec fn valid(&self) -> bool;

    /// Replaces the ids of the local node.
    fn update_node_ids(&mut self, ids: &[NodeId])
        requires
            old(self).valid(),
        ensures
            final(self).valid(),
    ;

    /// Answers a request for the peers of a torrent.
    fn get_peers(
        &self,
        info_hash: &Sha1Hash,
        no_seed: bool,
        scrape: bool,
        requester: &SocketAddress,
        peers: &mut Value,
    ) -> (r: Result<bool, Error>)
        requires
            self.valid(),
            old(peers)@ is Dict ==> keys_sorted(old(peers)@->Dict_0),
        ensures
            old(peers)@.sorted() ==> final(peers)@.sorted(),
    ;

    /// Records that a peer has announced a torrent.
    fn announce_peer(
        &mut self,
        info_hash: &Sha1Hash,
        endpoint: &SocketAddress,
        name: &str,
        seed: bool,
        now: u64,
    )
        requires
            old(self).valid(),
        ensures
            final(self).valid(),
    ;

    /// Writes an immutable item into a dictionary.
    fn get_immutable_item(&self, target: &Sha1Hash, item: &mut Value) -> (r: bool)
        requires
            self.valid(),
            old(item)@ is Dict ==> keys_sorted(old(item)@->Dict_0),
        ensures
            old(item)@.sorted() ==> final(item)@.sorted(),
    ;

    /// Stores an immutable item.
    fn put_immutable_item(&mut self, target: &Sha1Hash, item: &[u8], addr: &IpAddress, now: u64)
        requires
            old(self).valid(),
        ensures
            final(self).valid(),
    ;

    /// The sequence number of a mutable item.
    fn get_mutable_item_seq(&self, target: &Sha1Hash, seq: &mut SequenceNumber) -> (r: bool)
        requires
            self.valid(),
    ;

    /// Writes a mutable item into a dictionary.
    fn get_mutable_item(
        &self,
        target: &Sha1Hash,
        seq: SequenceNumber,
        force_fill: bool,
        item: &mut Value,
    ) -> (r: bool)
        requires
            self.valid(),
            old(item)@ is Dict ==> keys_sorted(old(item)@->Dict_0),
        ensures
            old(item)@.sorted() ==> final(item)@.sorted(),
    ;

    /// Stores a version of a mutable item.
    fn put_mutable_item(
        &mut self,
        target: &Sha1Hash,
        buf: &[u8],
        signature: &Signature,
        seq: SequenceNumber,
        pk: &PublicKey,
        salt: &[u8],
        addr: &IpAddress,
        now: u64,
    )
        requires
            old(self).valid(),
        ensures
            final(self).valid(),
    ;

    /// Writes a sample of infohashes into a dictionary.
    fn get_infohashes_sample(&mut self, item: &mut Value, now: u64) -> (r: usize)
        requires
            old(self).valid(),
            old(item)@ is Dict ==> keys_sorted(old(item)@->Dict_0),
        ensures
            old(item)@.sorted() ==> final(item)@.sorted(),
            final(self).valid(),
    ;

    /// Forgets what has grown old.
    fn tick(&mut self, now: u64)
        requires
            old(self).valid(),
        ensures
            final(self).valid(),
    ;

    /// How much the storage holds.
    fn counters(&self) -> (r: DhtStorageCounter)
        requires
            self.valid(),
    ;
}

impl DhtStorage for DefaultDhtStorage {
    open spec fn valid(&self) -> bool {
        self.well_formed()
    }

    fn update_node_ids(&mut self, ids: &[NodeId])
        ensures
            final(self).node_ids@ == ids@,
            final(self).settings == old(self).settings,
            final(self).map == old(self).map,
            final(self).immutable_table == old(self).immutable_table,
            final(self).mutable_table == old(self).mutable_table,
            final(self).infohashes_sample == old(self).infohashes_sample,
    {
        DefaultDhtStorage::update_node_ids(self, ids)
    }

    fn get_peers(
        &self,
        info_hash: &Sha1Hash,
        no_seed: bool,
        scrape: bool,
        requester: &SocketAddress,
        peers: &mut Value,
    ) -> (r: Result<bool, Error>)
        ensures
            match self.torrent(*info_hash) {
                None => r == Ok::<bool, Error>(self.map@.len() >= self.settings.max_torrents)
                    && final(peers)@ == old(peers)@,
                Some(t) => match old(peers)@ {
                    Bencode::Dict(d) => {
                        let list = t.peers(requester.ip is V4);
                        let answer = Ok::<bool, Error>(
                            admits(list, *requester, self.settings.max_peers),
                        );
                        if scrape {
                            r == answer && final(peers)@ == Bencode::Dict(
                                dict_insert(
                                    dict_insert(
                                        named(d, t.name),
                                        "BFpe".spec_bytes(),
                                        Bencode::Bytes(
                                            scrape_bits(list, false, list.len() as int),
                                        ),
                                    ),
                                    "BFsd".spec_bytes(),
                                    Bencode::Bytes(scrape_bits(list, true, list.len() as int)),
                                ),
                            )
                        } else {
                            match dict_index(named(d, t.name), "values".spec_bytes()) {
                                Some(i) => if named(d, t.name)[i].1 is List {
                                    r == answer && names_sample(
                                        final(peers)@,
                                        named(d, t.name),
                                        i,
                                        list,
                                        no_seed,
                                        quota(
                                            self.settings.max_peers_reply,
                                            list,
                                            requester.ip is V6,
                                        ),
                                    )
                                } else {
                                    r == Err::<bool, Error>(Error::ParseList) && final(peers)@
                                        == Bencode::Dict(named(d, t.name))
                                },
                                None => r == Err::<bool, Error>(Error::ParseList)
                                    && final(peers)@ == Bencode::Dict(named(d, t.name)),
                            }
                        }
                    },
                    _ => r == Err::<bool, Error>(Error::ParseDict) && final(peers)@ == old(peers)@,
                },
            },
    {
        DefaultDhtStorage::get_peers(self, info_hash, no_seed, scrape, requester, peers)
    }

    fn announce_peer(
        &mut self,
        info_hash: &Sha1Hash,
        endpoint: &SocketAddress,
        name: &str,
        seed: bool,
        now: u64,
    )
        ensures
            final(self).well_formed(),
            final(self).settings == old(self).settings,
            final(self).node_ids == old(self).node_ids,
            final(self).immutable_table == old(self).immutable_table,
            final(self).mutable_table == old(self).mutable_table,
            final(self).infohashes_sample == old(self).infohashes_sample,
            forall|h: Sha1Hash| h != *info_hash ==> final(self).torrent(h) == old(self).torrent(h),
            final(self).map@.len() == if has_key(old(self).map@, *info_hash) || old(
                self,
            ).map@.len() >= old(self).settings.max_torrents {
                old(self).map@.len()
            } else {
                old(self).map@.len() + 1
            },
            forall|j: int|
                0 <= j < old(self).map@.len() ==> final(self).map@[j].0 == old(self).map@[j].0,
            final(self).map@.len() > old(self).map@.len() ==> final(self).map@.last().0
                == *info_hash,
            final(self).torrent(*info_hash) == match old(self).torrent(*info_hash) {
                Some(t) => Some(
                    t.announced(
                        PeerEntry { added: now, addr: *endpoint, seed },
                        name@,
                        old(self).settings.max_peers,
                    ),
                ),
                None => if old(self).map@.len() >= old(self).settings.max_torrents {
                    None
                } else {
                    Some(
                        TorrentModel::empty().announced(
                            PeerEntry { added: now, addr: *endpoint, seed },
                            name@,
                            old(self).settings.max_peers,
                        ),
                    )
                },
            },
    {
        DefaultDhtStorage::announce_peer(self, info_hash, endpoint, name, seed, now)
    }

    fn get_immutable_item(&self, target: &Sha1Hash, item: &mut Value) -> (r: bool)
        ensures
            r == self.immutable(*target).is_some(),
            final(item)@ == match (self.immutable(*target), old(item)@) {
                (Some(m), Bencode::Dict(d)) => match decoding(m.value, None, None) {
                    Ok(v) => Bencode::Dict(dict_insert(d, "v".spec_bytes(), v)),
                    Err(_) => old(item)@,
                },
                _ => old(item)@,
            },
    {
        DefaultDhtStorage::get_immutable_item(self, target, item)
    }

    fn put_immutable_item(&mut self, target: &Sha1Hash, item: &[u8], addr: &IpAddress, now: u64)
        ensures
            final(self).well_formed(),
            final(self).settings == old(self).settings,
            final(self).node_ids == old(self).node_ids,
            final(self).map == old(self).map,
            final(self).infohashes_sample == old(self).infohashes_sample,
            match old(self).immutable(*target) {
                Some(m) => final(self).immutable(*target) == Some(m.touched(addr.octets(), now))
                    && final(self).mutable_table == old(self).mutable_table
                        && final(self).immutable_table@.len() == old(self).immutable_table@.len()
                        && forall|j: int|
                    0 <= j < old(self).immutable_table@.len() && old(self).immutable_table@[j].0
                        != *target
                            ==> final(self).immutable_table@[j] == old(self).immutable_table@[j],
                None => if old(self).settings.max_dht_items == 0 {
                    final(self).immutable_table == old(self).immutable_table
                        && final(self).mutable_table == old(self).mutable_table
                } else {
                    final(self).immutable(*target) == Some(
                        ImmutableModel::fresh(item@, now).touched(addr.octets(), now),
                    ) && final(self).immutable_table@.len() > 0
                        && final(self).immutable_table@.last().0 == *target && room_made(
                        old(self).node_ids@,
                        old(self).settings.max_dht_items,
                        old(self).immutable_table@,
                        old(self).mutable_table@,
                        final(self).immutable_table@.drop_last(),
                        final(self).mutable_table@,
                    )
                },
            },
    {
        DefaultDhtStorage::put_immutable_item(self, target, item, addr, now)
    }

    fn get_mutable_item_seq(&self, target: &Sha1Hash, seq: &mut SequenceNumber) -> (r: bool)
        ensures
            r == self.mutable(*target).is_some(),
            *final(seq) == match self.mutable(*target) {
                Some(m) => m.seq,
                None => *old(seq),
            },
    {
        DefaultDhtStorage::get_mutable_item_seq(self, target, seq)
    }

    fn get_mutable_item(
        &self,
        target: &Sha1Hash,
        seq: SequenceNumber,
        force_fill: bool,
        item: &mut Value,
    ) -> (r: bool)
        ensures
            r == self.mutable(*target).is_some(),
            final(item)@ == match (self.mutable(*target), old(item)@) {
                (Some(m), Bencode::Dict(d)) => Bencode::Dict(
                    mutable_reply(d, m, force_fill || (0 <= seq && seq < m.seq)),
                ),
                _ => old(item)@,
            },
    {
        DefaultDhtStorage::get_mutable_item(self, target, seq, force_fill, item)
    }

    fn put_mutable_item(
        &mut self,
        target: &Sha1Hash,
        buf: &[u8],
        signature: &Signature,
        seq: SequenceNumber,
        pk: &PublicKey,
        salt: &[u8],
        addr: &IpAddress,
        now: u64,
    )
        ensures
            final(self).well_formed(),
            final(self).settings == old(self).settings,
            final(self).node_ids == old(self).node_ids,
            final(self).map == old(self).map,
            final(self).infohashes_sample == old(self).infohashes_sample,
            match old(self).mutable(*target) {
                Some(m) => final(self).mutable(*target) == Some(
                    if m.seq < seq {
                        MutableModel {
                            inner: (ImmutableModel { value: buf@, ..m.inner }).touched(
                                addr.octets(),
                                now,
                            ),
                            sig: signature.0@,
                            seq,
                            ..m
                        }
                    } else {
                        MutableModel { inner: m.inner.touched(addr.octets(), now), ..m }
                    },
                ) && final(self).immutable_table == old(self).immutable_table
                    && final(self).mutable_table@.len() == old(self).mutable_table@.len()
                    && forall|j: int|
                    0 <= j < old(self).mutable_table@.len() && old(self).mutable_table@[j].0
                        != *target ==> final(self).mutable_table@[j] == old(self).mutable_table@[j],
                None => if old(self).settings.max_dht_items == 0 {
                    final(self).immutable_table == old(self).immutable_table
                        && final(self).mutable_table == old(self).mutable_table
                } else {
                    final(self).mutable(*target) == Some(
                        MutableModel {
                            inner: ImmutableModel::fresh(buf@, now).touched(addr.octets(), now),
                            sig: signature.0@,
                            seq,
                            key: pk.0@,
                            salt: salt@,
                        },
                    ) && final(self).mutable_table@.len() > 0
                        && final(self).mutable_table@.last().0 == *target && room_made(
                        old(self).node_ids@,
                        old(self).settings.max_dht_items,
                        old(self).immutable_table@,
                        old(self).mutable_table@,
                        final(self).immutable_table@,
                        final(self).mutable_table@.drop_last(),
                    )
                },
            },
    {
        DefaultDhtStorage::put_mutable_item(self, target, buf, signature, seq, pk, salt, addr, now)
    }

    fn get_infohashes_sample(&mut self, item: &mut Value, now: u64) -> (r: usize)
        ensures
            final(self).well_formed(),
            final(self).settings == old(self).settings,
            final(self).node_ids == old(self).node_ids,
            final(self).map == old(self).map,
            final(self).immutable_table == old(self).immutable_table,
            final(self).mutable_table == old(self).mutable_table,
            r == final(self).infohashes_sample.samples@.len(),
            if sample_is_fresh(
                old(self).settings,
                old(self).infohashes_sample.created,
                old(self).infohashes_sample.samples@.len(),
                now,
            ) {
                final(self).infohashes_sample == old(self).infohashes_sample
            } else {
                final(self).infohashes_sample.created == now
                    && final(self).infohashes_sample.samples@.len()
                    == (if sample_limit(old(self).settings) <= old(self).map@.len() {
                    sample_limit(old(self).settings) as nat
                } else {
                    old(self).map@.len()
                }) && forall|j: int|
                    0 <= j < final(self).infohashes_sample.samples@.len()
                        ==> final(self).infohashes_sample.samples@[j] == old(self).map@[j].0
            },
            final(item)@ == match old(item)@ {
                Bencode::Dict(d) => Bencode::Dict(
                    dict_insert(
                        dict_insert(
                            dict_insert(
                                d,
                                "interval".spec_bytes(),
                                Bencode::Int(sample_interval(old(self).settings) as i64),
                            ),
                            "num".spec_bytes(),
                            Bencode::Int(crate::settings::count_to_int(old(self).map@.len() as usize)),
                        ),
                        "samples".spec_bytes(),
                        Bencode::Bytes(
                            sample_bytes(
                                final(self).infohashes_sample.samples@,
                                final(self).infohashes_sample.samples@.len() as int,
                            ),
                        ),
                    ),
                ),
                _ => old(item)@,
            },
    {
        DefaultDhtStorage::get_infohashes_sample(self, item, now)
    }

    fn tick(&mut self, now: u64)
        ensures
            final(self).well_formed(),
            final(self).settings == old(self).settings,
            final(self).node_ids == old(self).node_ids,
            final(self).infohashes_sample == old(self).infohashes_sample,
            forall|h: Sha1Hash|
                #[trigger] final(self).torrent(h) == ticked(old(self).torrent(h), now),
            exists|mid: Seq<(NodeId, TorrentEntry)>| #[trigger]
                all_pruned(old(self).map@, mid, now) && final(self).map@ == mid.filter(
                    |e: (NodeId, TorrentEntry)| has_peers(e),
                ),
            final(self).immutable_table@ == old(self).immutable_table@.filter(
                |e: (NodeId, DhtImmutableItem)|
                    !is_stale(e.1.seen(), item_lifetime_of(old(self).settings), now),
            ),
            final(self).mutable_table@ == old(self).mutable_table@.filter(
                |e: (NodeId, DhtMutableItem)|
                    !is_stale(e.1.seen(), item_lifetime_of(old(self).settings), now),
            ),
    {
        DefaultDhtStorage::tick(self, now)
    }

    fn counters(&self) -> (r: DhtStorageCounter)
        ensures
            r.torrents == shown(self.map@.len()),
            r.peers == shown(peer_total(self.map@, self.map@.len() as int)),
            r.immutable_data == shown(self.immutable_table@.len()),
            r.mutable_data == shown(self.mutable_table@.len()),
    {
        DefaultDhtStorage::counters(self)
    }
}

} // verus!
