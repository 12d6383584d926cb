use dht::settings::{DhtSettings, Settings};
use dht::{Value, ValueRef};

#[test]
fn defaults_are_those_of_the_table() {
    let s = DhtSettings::default();
    assert_eq!(100, s.max_peers_reply);
    assert_eq!(5, s.search_branching);
    assert_eq!(20, s.max_fail_count);
    assert_eq!(2000, s.max_torrents);
    assert_eq!(700, s.max_dht_items);
    assert_eq!(500, s.max_peers);
    assert_eq!(20, s.max_torrent_search_reply);
    assert!(s.restrict_routing_ips);
    assert!(s.restrict_search_ips);
    assert!(s.extended_routing_table);
    assert!(s.aggressive_lookups);
    assert!(!s.privacy_lookups);
    assert!(!s.enforce_node_id);
    assert!(s.ignore_dark_internet);
    assert_eq!(300, s.block_timeout);
    assert_eq!(5, s.block_ratelimit);
    assert!(!s.read_only);
    assert_eq!(0, s.item_lifetime);
    assert_eq!(8000, s.upload_rate_limit);
    assert_eq!(21600, s.sample_infohashes_interval);
    assert_eq!(20, s.max_infohashes_sample_count);
    let all = Settings::default();
    assert_eq!(s, all.dht_settings);
    assert!(all.prefer_verified_node_ids);
}

#[test]
fn settings_round_trip() {
    let mut s = DhtSettings::default();
    s.max_torrents = 2;
    s.max_dht_items = 2;
    s.item_lifetime = 120 * 60;
    s.privacy_lookups = true;
    s.restrict_routing_ips = false;
    s.upload_rate_limit = 1;
    let saved = s.save();
    assert_eq!(Some(21), saved.dict_len());
    assert_eq!(Some(2), saved.dict_find_int_value("max_torrents"));
    assert_eq!(Some(1), saved.dict_find_int_value("privacy_lookups"));
    assert_eq!(Some(0), saved.dict_find_int_value("restrict_routing_ips"));
    let bytes = saved.to_vec();
    let read = DhtSettings::read(&ValueRef::decode(&bytes).unwrap());
    assert_eq!(s, read);
}

#[test]
fn missing_and_unknown_keys() {
    let v = ValueRef::decode(b"d9:max_peersi7e7:unknowni1e9:read_onlyi5e14:max_fail_count3:abc16:search_branchingi-4ee").unwrap();
    let s = DhtSettings::read(&v);
    let mut expected = DhtSettings::default();
    expected.max_peers = 7;
    expected.read_only = true;
    expected.search_branching = usize::MAX - 3;
    assert_eq!(expected, s);
    let not_a_dict = Value::with_str("x");
    assert_eq!(DhtSettings::default(), DhtSettings::read(&not_a_dict.as_ref()));
}

#[test]
fn counts_beyond_the_wire_round_trip() {
    let mut s = DhtSettings::default();
    s.max_peers = usize::MAX;
    s.block_timeout = usize::MAX / 2 + 1;
    let saved = s.save();
    assert_eq!(Some(-1), saved.dict_find_int_value("max_peers"));
    assert_eq!(Some(i64::MIN), saved.dict_find_int_value("block_timeout"));
    let bytes = saved.to_vec();
    let read = DhtSettings::read(&ValueRef::decode(&bytes).unwrap());
    assert_eq!(s, read);
}

#[test]
fn negative_count_is_cut_to_a_count() {
    let v = ValueRef::decode(b"d9:max_peersi-1ee").unwrap();
    let s = DhtSettings::read(&v);
    assert_eq!(usize::MAX, s.max_peers);
    assert_eq!(2000, s.max_torrents);
}
