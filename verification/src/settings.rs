//! The policy of a node, and its wire form.

use crate::model::{dict_from_pairs, dict_get, lemma_pairs_lookup, Bencode};
use crate::value::{text_pairs_view, Value};
use crate::value_ref::ValueRef;
use vstd::prelude::*;
use vstd::string::StringSliceAdditionalSpecFns;

verus! {

/// The options that decide how a node behaves.
#[derive(Debug, Clone, Copy, PartialEq, Eq)]
pub struct DhtSettings {
    /// The most peer contacts returned in one reply to `get_peers`.
    pub max_peers_reply: usize,
    /// How many queries a traversal keeps outstanding.
    pub search_branching: usize,
    /// How many failures in a row remove a contact from the routing table.
    pub max_fail_count: usize,
    /// The most infohashes that are stored.
    pub max_torrents: usize,
    /// The most immutable and mutable items that are stored, taken together.
    pub max_dht_items: usize,
    /// The most peers that are stored for one torrent.
    pub max_peers: usize,
    /// The most hits returned by a search for a name.
    pub max_torrent_search_reply: usize,
    /// Whether the routing table takes one contact only from each network.
    pub restrict_routing_ips: bool,
    /// Whether traversals take one contact only from each network.
    pub restrict_search_ips: bool,
    /// Whether the buckets near the own id are larger.
    pub extended_routing_table: bool,
    /// Whether every reply sets off further queries.
    pub aggressive_lookups: bool,
    /// Whether the target of a lookup is obscured.
    pub privacy_lookups: bool,
    /// Whether node ids must derive from the address.
    pub enforce_node_id: bool,
    /// Whether peers that cannot be routed to are dropped.
    pub ignore_dark_internet: bool,
    /// For how many seconds a node that exceeded the rate limit is banned.
    pub block_timeout: usize,
    /// How many requests a second one address may send before it is banned.
    pub block_ratelimit: usize,
    /// Whether the node serves requests without taking part in routing.
    pub read_only: bool,
    /// For how many seconds an item is kept after it was last seen; zero stands for two hours.
    pub item_lifetime: usize,
    /// The most bytes sent in a second.
    pub upload_rate_limit: usize,
    /// For how many seconds a sample of infohashes is handed out before it is renewed.
    pub sample_infohashes_interval: usize,
    /// The most infohashes in one sample.
    pub max_infohashes_sample_count: usize,
}

/// The settings of a node together with what is not sent over the wire.
#[derive(Debug, Clone, Copy, PartialEq, Eq)]
pub struct Settings {
    pub dht_settings: DhtSettings,
    pub prefer_verified_node_ids: bool,
}

/// The wire form of a count: the integer of the wire with the bits of the
/// count. A count above the largest integer of the wire is written as a
/// negative integer.
pub open spec fn count_to_int(x: usize) -> i64 {
    x as i64
}

/// The count that an integer of the wire stands for: the count with the
/// low bits of the integer. A negative integer stands for a large count.
pub open spec fn int_to_count(n: i64) -> usize {
    n as usize
}

/// The wire form of a flag: one for set, zero for clear.
pub open spec fn flag_to_int(x: bool) -> i64 {
    if x {
        1
    } else {
        0
    }
}

/// The count that the integer under `key` stands for, or `default` where
/// the dictionary holds no integer there.
pub open spec fn count_or(d: Seq<(Seq<u8>, Bencode)>, key: &str, default: usize) -> usize {
    match dict_get(d, key.spec_bytes()) {
        Some(Bencode::Int(n)) => int_to_count(n),
        _ => default,
    }
}

/// The flag under `key`: set where the dictionary holds an integer other
/// than zero there, clear where it holds zero, and `default` otherwise.
pub open spec fn flag_or(d: Seq<(Seq<u8>, Bencode)>, key: &str, default: bool) -> bool {
    match dict_get(d, key.spec_bytes()) {
        Some(Bencode::Int(n)) => n != 0,
        _ => default,
    }
}

/// The settings a node starts with.
pub open spec fn default_settings() -> DhtSettings {
    DhtSettings {
        max_peers_reply: 100,
        search_branching: 5,
        max_fail_count: 20,
        max_torrents: 2000,
        max_dht_items: 700,
        max_peers: 500,
        max_torrent_search_reply: 20,
        restrict_routing_ips: true,
        restrict_search_ips: true,
        extended_routing_table: true,
        aggressive_lookups: true,
        privacy_lookups: false,
        enforce_node_id: false,
        ignore_dark_internet: true,
        block_timeout: 300,
        block_ratelimit: 5,
        read_only: false,
        item_lifetime: 0,
        upload_rate_limit: 8000,
        sample_infohashes_interval: 21600,
        max_infohashes_sample_count: 20,
    }
}

/// The keys and values that `save` writes, in the order of the fields.
pub open spec fn saved_pairs(s: DhtSettings) -> Seq<(Seq<u8>, Bencode)> {
    seq![
        ("max_peers_reply".spec_bytes(), Bencode::Int(count_to_int(s.max_peers_reply))),
        ("search_branching".spec_bytes(), Bencode::Int(count_to_int(s.search_branching))),
        ("max_fail_count".spec_bytes(), Bencode::Int(count_to_int(s.max_fail_count))),
        ("max_torrents".spec_bytes(), Bencode::Int(count_to_int(s.max_torrents))),
        ("max_dht_items".spec_bytes(), Bencode::Int(count_to_int(s.max_dht_items))),
        ("max_peers".spec_bytes(), Bencode::Int(count_to_int(s.max_peers))),
        ("max_torrent_search_reply".spec_bytes(),
            Bencode::Int(count_to_int(s.max_torrent_search_reply))),
        ("restrict_routing_ips".spec_bytes(), Bencode::Int(flag_to_int(s.restrict_routing_ips))),
        ("restrict_search_ips".spec_bytes(), Bencode::Int(flag_to_int(s.restrict_search_ips))),
        ("extended_routing_table".spec_bytes(),
            Bencode::Int(flag_to_int(s.extended_routing_table))),
        ("aggressive_lookups".spec_bytes(), Bencode::Int(flag_to_int(s.aggressive_lookups))),
        ("privacy_lookups".spec_bytes(), Bencode::Int(flag_to_int(s.privacy_lookups))),
        ("enforce_node_id".spec_bytes(), Bencode::Int(flag_to_int(s.enforce_node_id))),
        ("ignore_dark_internet".spec_bytes(), Bencode::Int(flag_to_int(s.ignore_dark_internet))),
        ("block_timeout".spec_bytes(), Bencode::Int(count_to_int(s.block_timeout))),
        ("block_ratelimit".spec_bytes(), Bencode::Int(count_to_int(s.block_ratelimit))),
        ("read_only".spec_bytes(), Bencode::Int(flag_to_int(s.read_only))),
        ("item_lifetime".spec_bytes(), Bencode::Int(count_to_int(s.item_lifetime))),
        ("upload_rate_limit".spec_bytes(), Bencode::Int(count_to_int(s.upload_rate_limit))),
        ("sample_infohashes_interval".spec_bytes(),
            Bencode::Int(count_to_int(s.sample_infohashes_interval))),
        ("max_infohashes_sample_count".spec_bytes(),
            Bencode::Int(count_to_int(s.max_infohashes_sample_count))),
    ]
}

/// The settings that `read` takes from the entries of a dictionary.
pub open spec fn settings_of(d: Seq<(Seq<u8>, Bencode)>) -> DhtSettings {
    DhtSettings {
        max_peers_reply: count_or(d, "max_peers_reply", default_settings().max_peers_reply),
        search_branching: count_or(d, "search_branching", default_settings().search_branching),
        max_fail_count: count_or(d, "max_fail_count", default_settings().max_fail_count),
        max_torrents: count_or(d, "max_torrents", default_settings().max_torrents),
        max_dht_items: count_or(d, "max_dht_items", default_settings().max_dht_items),
        max_peers: count_or(d, "max_peers", default_settings().max_peers),
        max_torrent_search_reply: count_or(d, "max_torrent_search_reply",
            default_settings().max_torrent_search_reply),
        restrict_routing_ips: flag_or(d, "restrict_routing_ips",
            default_settings().restrict_routing_ips),
        restrict_search_ips: flag_or(d, "restrict_search_ips",
            default_settings().restrict_search_ips),
        extended_routing_table: flag_or(d, "extended_routing_table",
            default_settings().extended_routing_table),
        aggressive_lookups: flag_or(d, "aggressive_lookups", default_settings().aggressive_lookups),
        privacy_lookups: flag_or(d, "privacy_lookups", default_settings().privacy_lookups),
        enforce_node_id: flag_or(d, "enforce_node_id", default_settings().enforce_node_id),
        ignore_dark_internet: flag_or(d, "ignore_dark_internet",
            default_settings().ignore_dark_internet),
        block_timeout: count_or(d, "block_timeout", default_settings().block_timeout),
        block_ratelimit: count_or(d, "block_ratelimit", default_settings().block_ratelimit),
        read_only: flag_or(d, "read_only", default_settings().read_only),
        item_lifetime: count_or(d, "item_lifetime", default_settings().item_lifetime),
        upload_rate_limit: count_or(d, "upload_rate_limit", default_settings().upload_rate_limit),
        sample_infohashes_interval: count_or(d, "sample_infohashes_interval",
            default_settings().sample_infohashes_interval),
        max_infohashes_sample_count: count_or(d, "max_infohashes_sample_count",
            default_settings().max_infohashes_sample_count),
    }
}

fn count_value(x: usize) -> (r: Value)
    ensures
        r@ == Bencode::Int(count_to_int(x)),
{
    Value::with_int(
        #[verifier::truncate]
        (x as i64),
    )
}

fn flag_value(x: bool) -> (r: Value)
    ensures
        r@ == Bencode::Int(flag_to_int(x)),
{
    Value::with_int(if x {
        1
    } else {
        0
    })
}

fn read_count(node: &ValueRef, key: &str, default: usize) -> (r: usize)
    requires
        node@ is Dict,
    ensures
        r == count_or(node@->Dict_0, key, default),
{
    match node.dict_find(key) {
        Some(v) => match v.as_int() {
            Some(n) => {
                #[verifier::truncate]
                (n as usize)
            },
            None => default,
        },
        None => default,
    }
}

fn read_flag(node: &ValueRef, key: &str, default: bool) -> (r: bool)
    requires
        node@ is Dict,
    ensures
        r == flag_or(node@->Dict_0, key, default),
{
    match node.dict_find(key) {
        Some(v) => match v.as_int() {
            Some(n) => n != 0,
            None => default,
        },
        None => default,
    }
}

impl Default for DhtSettings {
    fn default() -> (r: Self)
        ensures
            r == default_settings(),
    {
        DhtSettings {
            max_peers_reply: 100,
            search_branching: 5,
            max_fail_count: 20,
            max_torrents: 2000,
            max_dht_items: 700,
            max_peers: 500,
            max_torrent_search_reply: 20,
            restrict_routing_ips: true,
            restrict_search_ips: true,
            extended_routing_table: true,
            aggressive_lookups: true,
            privacy_lookups: false,
            enforce_node_id: false,
            ignore_dark_internet: true,
            block_timeout: 300,
            block_ratelimit: 5,
            read_only: false,
            item_lifetime: 0,
            upload_rate_limit: 8000,
            sample_infohashes_interval: 21600,
            max_infohashes_sample_count: 20,
        }
    }
}

impl Default for Settings {
    fn default() -> (r: Self)
        ensures
            r.dht_settings == default_settings(),
            r.prefer_verified_node_ids,
    {
        Settings { dht_settings: DhtSettings::default(), prefer_verified_node_ids: true }
    }
}

impl DhtSettings {
    /// The settings as a dictionary with one integer for each option, a
    /// flag being written as one or zero.
    pub fn save(&self) -> (r: Value)
        ensures
            r@ == Bencode::Dict(dict_from_pairs(saved_pairs(*self))),
            r@.sorted(),
    {
        let mut pairs: Vec<(String, Value)> = Vec::new();
        pairs.push(("max_peers_reply".to_owned(), count_value(self.max_peers_reply)));
        pairs.push(("search_branching".to_owned(), count_value(self.search_branching)));
        pairs.push(("max_fail_count".to_owned(), count_value(self.max_fail_count)));
        pairs.push(("max_torrents".to_owned(), count_value(self.max_torrents)));
        pairs.push(("max_dht_items".to_owned(), count_value(self.max_dht_items)));
        pairs.push(("max_peers".to_owned(), count_value(self.max_peers)));
        pairs.push(("max_torrent_search_reply".to_owned(),
            count_value(self.max_torrent_search_reply)));
        pairs.push(("restrict_routing_ips".to_owned(), flag_value(self.restrict_routing_ips)));
        pairs.push(("restrict_search_ips".to_owned(), flag_value(self.restrict_search_ips)));
        pairs.push(("extended_routing_table".to_owned(), flag_value(self.extended_routing_table)));
        pairs.push(("aggressive_lookups".to_owned(), flag_value(self.aggressive_lookups)));
        pairs.push(("privacy_lookups".to_owned(), flag_value(self.privacy_lookups)));
        pairs.push(("enforce_node_id".to_owned(), flag_value(self.enforce_node_id)));
        pairs.push(("ignore_dark_internet".to_owned(), flag_value(self.ignore_dark_internet)));
        pairs.push(("block_timeout".to_owned(), count_value(self.block_timeout)));
        pairs.push(("block_ratelimit".to_owned(), count_value(self.block_ratelimit)));
        pairs.push(("read_only".to_owned(), flag_value(self.read_only)));
        pairs.push(("item_lifetime".to_owned(), count_value(self.item_lifetime)));
        pairs.push(("upload_rate_limit".to_owned(), count_value(self.upload_rate_limit)));
        pairs.push(("sample_infohashes_interval".to_owned(),
            count_value(self.sample_infohashes_interval)));
        pairs.push(("max_infohashes_sample_count".to_owned(),
            count_value(self.max_infohashes_sample_count)));
        proof {
            assert(text_pairs_view(pairs@) =~= saved_pairs(*self));
        }
        Value::with_dict(pairs)
    }

    /// The settings that the dictionary `node` holds. A count is the
    /// integer under its key, cut to the width of a count; a flag is set
    /// where the integer under its key is not zero. An option that is
    /// missing, or whose value is no integer, keeps its default; keys that
    /// name no option are passed over. Anything but a dictionary gives the
    /// defaults.
    pub fn read(node: &ValueRef) -> (r: DhtSettings)
        ensures
            r == match node@ {
                Bencode::Dict(d) => settings_of(d),
                _ => default_settings(),
            },
    {
        let mut settings = DhtSettings::default();
        if !node.is_dict() {
            return settings;
        }
        settings.max_peers_reply = read_count(node, "max_peers_reply", settings.max_peers_reply);
        settings.search_branching = read_count(node, "search_branching", settings.search_branching);
        settings.max_fail_count = read_count(node, "max_fail_count", settings.max_fail_count);
        settings.max_torrents = read_count(node, "max_torrents", settings.max_torrents);
        settings.max_dht_items = read_count(node, "max_dht_items", settings.max_dht_items);
        settings.max_peers = read_count(node, "max_peers", settings.max_peers);
        settings.max_torrent_search_reply = read_count(node, "max_torrent_search_reply",
            settings.max_torrent_search_reply);
        settings.restrict_routing_ips = read_flag(node, "restrict_routing_ips",
            settings.restrict_routing_ips);
        settings.restrict_search_ips = read_flag(node, "restrict_search_ips",
            settings.restrict_search_ips);
        settings.extended_routing_table = read_flag(node, "extended_routing_table",
            settings.extended_routing_table);
        settings.aggressive_lookups = read_flag(node, "aggressive_lookups",
            settings.aggressive_lookups);
        settings.privacy_lookups = read_flag(node, "privacy_lookups", settings.privacy_lookups);
        settings.enforce_node_id = read_flag(node, "enforce_node_id", settings.enforce_node_id);
        settings.ignore_dark_internet = read_flag(node, "ignore_dark_internet",
            settings.ignore_dark_internet);
        settings.block_timeout = read_count(node, "block_timeout", settings.block_timeout);
        settings.block_ratelimit = read_count(node, "block_ratelimit", settings.block_ratelimit);
        settings.read_only = read_flag(node, "read_only", settings.read_only);
        settings.item_lifetime = read_count(node, "item_lifetime", settings.item_lifetime);
        settings.upload_rate_limit = read_count(node, "upload_rate_limit",
            settings.upload_rate_limit);
        settings.sample_infohashes_interval = read_count(node, "sample_infohashes_interval",
            settings.sample_infohashes_interval);
        settings.max_infohashes_sample_count = read_count(node, "max_infohashes_sample_count",
            settings.max_infohashes_sample_count);
        settings
    }
}

/// A count is the count that its wire form stands for.
pub proof fn lemma_count_round_trip(x: usize)
    ensures
        int_to_count(count_to_int(x)) == x,
{
    assert((x as i64) as usize == x) by (bit_vector);
}

/// An integer of the wire that is a count stands for that count.
pub proof fn lemma_count_in_range(n: i64)
    requires
        0 <= n <= usize::MAX,
    ensures
        int_to_count(n) == n,
{
}

/// The length and the first letter of a key tell it from every other key
/// of the settings.
pub open spec fn key_mark(key: &str) -> (nat, char) {
    (key@.len(), key@[0])
}

/// What is known of a key of the settings: its mark, and that its bytes
/// spell its letters.
pub open spec fn key_known(key: &str, len: nat, first: char) -> bool {
    key_mark(key) == (len, first) && vstd::utf8::decode_utf8(key.spec_bytes()) == key@
}

/// The keys of the settings, with their marks.
pub proof fn lemma_setting_keys()
    ensures
        key_known("max_peers_reply", 15, 'm'),
        key_known("search_branching", 16, 's'),
        key_known("max_fail_count", 14, 'm'),
        key_known("max_torrents", 12, 'm'),
        key_known("max_dht_items", 13, 'm'),
        key_known("max_peers", 9, 'm'),
        key_known("max_torrent_search_reply", 24, 'm'),
        key_known("restrict_routing_ips", 20, 'r'),
        key_known("restrict_search_ips", 19, 'r'),
        key_known("extended_routing_table", 22, 'e'),
        key_known("aggressive_lookups", 18, 'a'),
        key_known("privacy_lookups", 15, 'p'),
        key_known("enforce_node_id", 15, 'e'),
        key_known("ignore_dark_internet", 20, 'i'),
        key_known("block_timeout", 13, 'b'),
        key_known("block_ratelimit", 15, 'b'),
        key_known("read_only", 9, 'r'),
        key_known("item_lifetime", 13, 'i'),
        key_known("upload_rate_limit", 17, 'u'),
        key_known("sample_infohashes_interval", 26, 's'),
        key_known("max_infohashes_sample_count", 27, 'm'),
{
    reveal_strlit("max_peers_reply");
    vstd::utf8::encode_utf8_decode_utf8("max_peers_reply"@);
    reveal_strlit("search_branching");
    vstd::utf8::encode_utf8_decode_utf8("search_branching"@);
    reveal_strlit("max_fail_count");
    vstd::utf8::encode_utf8_decode_utf8("max_fail_count"@);
    reveal_strlit("max_torrents");
    vstd::utf8::encode_utf8_decode_utf8("max_torrents"@);
    reveal_strlit("max_dht_items");
    vstd::utf8::encode_utf8_decode_utf8("max_dht_items"@);
    reveal_strlit("max_peers");
    vstd::utf8::encode_utf8_decode_utf8("max_peers"@);
    reveal_strlit("max_torrent_search_reply");
    vstd::utf8::encode_utf8_decode_utf8("max_torrent_search_reply"@);
    reveal_strlit("restrict_routing_ips");
    vstd::utf8::encode_utf8_decode_utf8("restrict_routing_ips"@);
    reveal_strlit("restrict_search_ips");
    vstd::utf8::encode_utf8_decode_utf8("restrict_search_ips"@);
    reveal_strlit("extended_routing_table");
    vstd::utf8::encode_utf8_decode_utf8("extended_routing_table"@);
    reveal_strlit("aggressive_lookups");
    vstd::utf8::encode_utf8_decode_utf8("aggressive_lookups"@);
    reveal_strlit("privacy_lookups");
    vstd::utf8::encode_utf8_decode_utf8("privacy_lookups"@);
    reveal_strlit("enforce_node_id");
    vstd::utf8::encode_utf8_decode_utf8("enforce_node_id"@);
    reveal_strlit("ignore_dark_internet");
    vstd::utf8::encode_utf8_decode_utf8("ignore_dark_internet"@);
    reveal_strlit("block_timeout");
    vstd::utf8::encode_utf8_decode_utf8("block_timeout"@);
    reveal_strlit("block_ratelimit");
    vstd::utf8::encode_utf8_decode_utf8("block_ratelimit"@);
    reveal_strlit("read_only");
    vstd::utf8::encode_utf8_decode_utf8("read_only"@);
    reveal_strlit("item_lifetime");
    vstd::utf8::encode_utf8_decode_utf8("item_lifetime"@);
    reveal_strlit("upload_rate_limit");
    vstd::utf8::encode_utf8_decode_utf8("upload_rate_limit"@);
    reveal_strlit("sample_infohashes_interval");
    vstd::utf8::encode_utf8_decode_utf8("sample_infohashes_interval"@);
    reveal_strlit("max_infohashes_sample_count");
    vstd::utf8::encode_utf8_decode_utf8("max_infohashes_sample_count"@);
}

/// The settings round-trip: what is read from the dictionary that `save`
/// makes of settings is the settings.
pub proof fn lemma_settings_round_trip(s: DhtSettings)
    ensures
        settings_of(dict_from_pairs(saved_pairs(s))) == s,
{
    lemma_setting_keys();
    lemma_count_round_trip(s.max_peers_reply);
    lemma_count_round_trip(s.search_branching);
    lemma_count_round_trip(s.max_fail_count);
    lemma_count_round_trip(s.max_torrents);
    lemma_count_round_trip(s.max_dht_items);
    lemma_count_round_trip(s.max_peers);
    lemma_count_round_trip(s.max_torrent_search_reply);
    lemma_count_round_trip(s.block_timeout);
    lemma_count_round_trip(s.block_ratelimit);
    lemma_count_round_trip(s.item_lifetime);
    lemma_count_round_trip(s.upload_rate_limit);
    lemma_count_round_trip(s.sample_infohashes_interval);
    lemma_count_round_trip(s.max_infohashes_sample_count);
    let pairs = saved_pairs(s);
    lemma_pairs_lookup(pairs, 0);
    lemma_pairs_lookup(pairs, 1);
    lemma_pairs_lookup(pairs, 2);
    lemma_pairs_lookup(pairs, 3);
    lemma_pairs_lookup(pairs, 4);
    lemma_pairs_lookup(pairs, 5);
    lemma_pairs_lookup(pairs, 6);
    lemma_pairs_lookup(pairs, 7);
    lemma_pairs_lookup(pairs, 8);
    lemma_pairs_lookup(pairs, 9);
    lemma_pairs_lookup(pairs, 10);
    lemma_pairs_lookup(pairs, 11);
    lemma_pairs_lookup(pairs, 12);
    lemma_pairs_lookup(pairs, 13);
    lemma_pairs_lookup(pairs, 14);
    lemma_pairs_lookup(pairs, 15);
    lemma_pairs_lookup(pairs, 16);
    lemma_pairs_lookup(pairs, 17);
    lemma_pairs_lookup(pairs, 18);
    lemma_pairs_lookup(pairs, 19);
    lemma_pairs_lookup(pairs, 20);
}

} // verus!
