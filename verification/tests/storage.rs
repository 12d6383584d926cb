use dht::detail::{IpAddress, SocketAddress};
use dht::items::{pick_least_imp, score, DhtImmutableItem, DhtMutableItem, InfohashesSample};
use dht::settings::DhtSettings;
use dht::storage::{DefaultDhtStorage, DhtStorageCounter};
use dht::types::{PublicKey, Signature};
use dht::{Error, Sha1Hash, Value};

fn test_settings() -> DhtSettings {
    let mut settings = DhtSettings::default();
    settings.max_torrents = 2;
    settings.max_dht_items = 2;
    settings.item_lifetime = 120 * 60;
    settings
}

fn v4(a: u8, port: u16) -> SocketAddress {
    SocketAddress::new(IpAddress::V4([10, 0, 0, a]), port)
}

fn empty_reply() -> Value {
    Value::with_dict(vec![("values".to_owned(), Value::with_list(vec![]))])
}

#[test]
fn peer_dedup() {
    let mut s = DefaultDhtStorage::new(&test_settings());
    let h = Sha1Hash::update(b"torrent");
    s.announce_peer(&h, &v4(1, 6881), "", false, 100);
    s.announce_peer(&h, &v4(1, 6881), "", true, 250);
    assert_eq!(1, s.map.len());
    assert_eq!(1, s.map[0].1.peers4.len());
    assert_eq!(250, s.map[0].1.peers4[0].added);
    assert!(s.map[0].1.peers4[0].seed);
    assert_eq!(1, s.counters().peers);
    assert_eq!(1, s.counters().torrents);
}

#[test]
fn peers_stay_sorted_by_address_and_port() {
    let mut s = DefaultDhtStorage::new(&test_settings());
    let h = Sha1Hash::update(b"torrent");
    for (a, port) in [(9u8, 1u16), (3, 7), (3, 2), (200, 1), (1, 65535), (3, 7)] {
        s.announce_peer(&h, &v4(a, port), "", false, 5);
    }
    s.announce_peer(
        &h,
        &SocketAddress::new(IpAddress::V6([0; 16]), 1),
        "",
        false,
        5,
    );
    let got: Vec<(u8, u16)> = s.map[0]
        .1
        .peers4
        .iter()
        .map(|p| match p.addr.ip {
            IpAddress::V4(o) => (o[3], p.addr.port),
            IpAddress::V6(_) => panic!("an IPv6 address among the IPv4 peers"),
        })
        .collect();
    assert_eq!(vec![(1, 65535), (3, 2), (3, 7), (9, 1), (200, 1)], got);
    assert_eq!(1, s.map[0].1.peers6.len());
    assert_eq!(6, s.counters().peers);
}

#[test]
fn announce_respects_the_limits() {
    let mut settings = test_settings();
    settings.max_peers = 2;
    let mut s = DefaultDhtStorage::new(&settings);
    let a = Sha1Hash::update(b"a");
    let b = Sha1Hash::update(b"b");
    let c = Sha1Hash::update(b"c");
    let long_name = "n".repeat(150);
    s.announce_peer(&a, &v4(1, 1), &long_name, false, 1);
    s.announce_peer(&a, &v4(2, 1), "other", false, 1);
    s.announce_peer(&a, &v4(3, 1), "", false, 1);
    assert_eq!(2, s.map[0].1.peers4.len());
    assert_eq!("n".repeat(100).as_bytes(), &s.map[0].1.name[..]);
    s.announce_peer(&a, &v4(2, 1), "", true, 9);
    assert_eq!(9, s.map[0].1.peers4[1].added);
    s.announce_peer(&b, &v4(1, 1), "", false, 1);
    s.announce_peer(&c, &v4(1, 1), "", false, 1);
    assert_eq!(2, s.map.len());
    assert_eq!(2, s.counters().torrents);
    assert_eq!(3, s.counters().peers);
}

#[test]
fn get_peers_of_an_unknown_torrent() {
    let mut s = DefaultDhtStorage::new(&test_settings());
    let mut reply = empty_reply();
    let h = Sha1Hash::update(b"unknown");
    assert_eq!(Ok(false), s.get_peers(&h, false, false, &v4(1, 1), &mut reply));
    assert_eq!("d6:valueslee", reply.to_string());
    s.announce_peer(&Sha1Hash::update(b"a"), &v4(1, 1), "", false, 1);
    s.announce_peer(&Sha1Hash::update(b"b"), &v4(1, 1), "", false, 1);
    assert_eq!(Ok(true), s.get_peers(&h, false, false, &v4(1, 1), &mut reply));
}

#[test]
fn get_peers_names_the_peers() {
    let mut s = DefaultDhtStorage::new(&test_settings());
    let h = Sha1Hash::update(b"torrent");
    s.announce_peer(&h, &v4(1, 0x1a0b), "name", false, 1);
    s.announce_peer(&h, &v4(2, 0x1a0c), "", true, 1);
    let mut reply = empty_reply();
    let go_on = s.get_peers(&h, false, false, &v4(7, 7), &mut reply).unwrap();
    assert!(go_on);
    assert_eq!(Some("name"), reply.dict_find_str_value("n"));
    let values = reply.dict_find_list_value("values").unwrap();
    assert_eq!(2, values.len());
    assert_eq!(&[10u8, 0, 0, 1, 0x1a, 0x0b][..], values[0].as_bytes().unwrap());
    assert_eq!(&[10u8, 0, 0, 2, 0x1a, 0x0c][..], values[1].as_bytes().unwrap());

    let mut reply = empty_reply();
    let go_on = s.get_peers(&h, true, false, &v4(1, 0x1a0b), &mut reply).unwrap();
    assert!(!go_on);
    let values = reply.dict_find_list_value("values").unwrap();
    assert_eq!(1, values.len());
    assert_eq!(&[10u8, 0, 0, 1, 0x1a, 0x0b][..], values[0].as_bytes().unwrap());

    let mut no_list = Value::with_dict(vec![("values".to_owned(), Value::with_int(1))]);
    assert_eq!(
        Err(Error::ParseList),
        s.get_peers(&h, false, false, &v4(7, 7), &mut no_list)
    );
    let mut no_values = Value::with_dict(vec![]);
    assert_eq!(
        Err(Error::ParseList),
        s.get_peers(&h, false, false, &v4(7, 7), &mut no_values)
    );
    let mut no_dict = Value::with_int(3);
    assert_eq!(
        Err(Error::ParseDict),
        s.get_peers(&h, false, false, &v4(7, 7), &mut no_dict)
    );
    assert_eq!("i3e", no_dict.to_string());
}

#[test]
fn get_peers_samples_no_more_than_asked_for() {
    let mut settings = test_settings();
    settings.max_peers_reply = 8;
    let mut s = DefaultDhtStorage::new(&settings);
    let h = Sha1Hash::update(b"torrent");
    for a in 0..50u8 {
        s.announce_peer(&h, &v4(a, 1), "", a % 2 == 0, 1);
        s.announce_peer(
            &h,
            &SocketAddress::new(IpAddress::V6([a; 16]), 1),
            "",
            false,
            1,
        );
    }
    for _ in 0..20 {
        let mut reply = empty_reply();
        s.get_peers(&h, true, false, &v4(200, 1), &mut reply).unwrap();
        let values = reply.dict_find_list_value("values").unwrap();
        assert_eq!(8, values.len());
        let mut last = None;
        for v in values {
            let b = v.as_bytes().unwrap();
            assert_eq!(6, b.len());
            assert_eq!(1, b[3] % 2);
            assert!(last < Some(b[3]));
            last = Some(b[3]);
        }
        let mut reply = empty_reply();
        let requester = SocketAddress::new(IpAddress::V6([0xee; 16]), 1);
        s.get_peers(&h, false, false, &requester, &mut reply).unwrap();
        let values = reply.dict_find_list_value("values").unwrap();
        assert_eq!(2, values.len());
        assert_eq!(18, values[0].as_bytes().unwrap().len());
    }
}

#[test]
fn scrape_gives_two_filters() {
    let mut s = DefaultDhtStorage::new(&test_settings());
    let h = Sha1Hash::update(b"torrent");
    s.announce_peer(&h, &v4(1, 1), "", false, 1);
    s.announce_peer(&h, &v4(2, 1), "", true, 1);
    let mut reply = Value::with_dict(vec![]);
    assert_eq!(Ok(true), s.get_peers(&h, false, true, &v4(9, 9), &mut reply));
    let downloaders = reply.dict_find("BFpe").unwrap().as_bytes().unwrap();
    let seeds = reply.dict_find("BFsd").unwrap().as_bytes().unwrap();
    assert_eq!(256, downloaders.len());
    assert_eq!(256, seeds.len());
    let ones = |b: &[u8]| b.iter().map(|x| x.count_ones()).sum::<u32>();
    assert!(ones(downloaders) >= 1 && ones(downloaders) <= 2);
    assert!(ones(seeds) >= 1 && ones(seeds) <= 2);
    assert_ne!(downloaders, seeds);
    let key = Sha1Hash::from_address(&IpAddress::V4([10, 0, 0, 1]));
    let filter = dht::bloom_filter::BloomFilter::from_bytes(downloaders.to_vec());
    assert!(filter.find(&key));
    assert!(reply.dict_find("values").is_none());
}

#[test]
fn eviction_importance() {
    let mut s = DefaultDhtStorage::new(&test_settings());
    let own = Sha1Hash::min();
    s.update_node_ids(&[own]);
    let mut a = Sha1Hash::min();
    *a.index_mut(0) = 0x80;
    let mut b = Sha1Hash::min();
    *b.index_mut(0) = 0x81;
    let mut c = Sha1Hash::min();
    *c.index_mut(0) = 0x82;
    s.put_immutable_item(&a, b"1:a", &IpAddress::V4([1, 1, 1, 1]), 1);
    for i in 0..10u8 {
        s.put_immutable_item(&b, b"1:b", &IpAddress::V4([2, 2, 2, i]), 1);
    }
    assert_eq!(1, s.immutable_table[0].1.num_announcers);
    assert_eq!(10, s.immutable_table[1].1.num_announcers);
    s.put_immutable_item(&c, b"1:c", &IpAddress::V4([3, 3, 3, 3]), 1);
    assert_eq!(2, s.immutable_table.len());
    assert_eq!(b, s.immutable_table[0].0);
    assert_eq!(c, s.immutable_table[1].0);
    let mut out = Value::with_dict(vec![]);
    assert!(!s.get_immutable_item(&a, &mut out));
    assert!(s.get_immutable_item(&b, &mut out));
    assert_eq!("d1:v1:be", out.to_string());
    assert_eq!(2, s.counters().immutable_data);
}

#[test]
fn importance_is_a_fifth_of_the_announcers_less_the_distance() {
    let own = [Sha1Hash::min()];
    let mut near = Sha1Hash::min();
    *near.index_mut(19) = 0x08;
    assert_eq!(-3, score(&own, &near, 0));
    assert_eq!(-3, score(&own, &near, 4));
    assert_eq!(-2, score(&own, &near, 5));
    assert_eq!(17, score(&own, &near, 100));
    assert_eq!(-159, score(&own, &Sha1Hash::max(), 0));
    assert_eq!(-160, score(&[], &near, 0));
    let table = vec![
        (near, DhtImmutableItem::new(vec![], 0)),
        (Sha1Hash::max(), DhtImmutableItem::new(vec![], 0)),
        (Sha1Hash::max().not(), DhtImmutableItem::new(vec![], 0)),
    ];
    assert_eq!(Some(1), pick_least_imp(&own, &table));
    let none: Vec<(Sha1Hash, DhtMutableItem)> = vec![];
    assert_eq!(None, pick_least_imp(&own, &none));
}

#[test]
fn items_of_both_kinds_share_the_limit() {
    let mut s = DefaultDhtStorage::new(&test_settings());
    s.update_node_ids(&[Sha1Hash::min()]);
    let sig = Signature([7; 64]);
    let pk = PublicKey([9; 32]);
    let addr = IpAddress::V4([1, 1, 1, 1]);
    let mut far = Sha1Hash::max();
    let near = Sha1Hash::min().successor();
    s.put_mutable_item(&far, b"i1e", &sig, 1, &pk, b"salt", &addr, 1);
    s.put_immutable_item(&near, b"i2e", &addr, 1);
    assert_eq!(1, s.counters().mutable_data);
    assert_eq!(1, s.counters().immutable_data);
    *far.index_mut(19) = 0;
    s.put_immutable_item(&far, b"i3e", &addr, 1);
    assert_eq!(0, s.mutable_table.len());
    assert_eq!(2, s.immutable_table.len());

    let mut none = test_settings();
    none.max_dht_items = 0;
    let mut s = DefaultDhtStorage::new(&none);
    s.put_immutable_item(&near, b"i2e", &addr, 1);
    s.put_mutable_item(&near, b"i1e", &sig, 1, &pk, b"", &addr, 1);
    assert_eq!(0, s.immutable_table.len() + s.mutable_table.len());
}

#[test]
fn mutable_items_follow_the_sequence_number() {
    let mut s = DefaultDhtStorage::new(&test_settings());
    s.update_node_ids(&[Sha1Hash::min()]);
    let t = Sha1Hash::update(b"mutable");
    let pk = PublicKey([9; 32]);
    let addr = IpAddress::V4([1, 1, 1, 1]);
    s.put_mutable_item(&t, b"3:one", &Signature([1; 64]), 5, &pk, b"salt", &addr, 10);
    s.put_mutable_item(&t, b"3:two", &Signature([2; 64]), 5, &pk, b"salt", &addr, 20);
    let mut seq = -1;
    assert!(s.get_mutable_item_seq(&t, &mut seq));
    assert_eq!(5, seq);
    assert_eq!(b"3:one", &s.mutable_table[0].1.inner.value[..]);
    assert_eq!(20, s.mutable_table[0].1.inner.last_seen);
    assert_eq!(1, s.mutable_table[0].1.inner.num_announcers);
    s.put_mutable_item(&t, b"5:three", &Signature([3; 64]), 6, &pk, b"x", &IpAddress::V4([2, 2, 2, 2]), 30);
    assert_eq!(b"5:three", &s.mutable_table[0].1.inner.value[..]);
    assert_eq!(6, s.mutable_table[0].1.seq);
    assert_eq!(Signature([3; 64]), s.mutable_table[0].1.sig);
    assert_eq!(b"salt", &s.mutable_table[0].1.salt[..]);
    assert_eq!(2, s.mutable_table[0].1.inner.num_announcers);

    let mut out = Value::with_dict(vec![]);
    assert!(s.get_mutable_item(&t, 6, false, &mut out));
    assert_eq!("d3:seqi6ee", out.to_string());
    let mut out = Value::with_dict(vec![]);
    assert!(s.get_mutable_item(&t, -1, false, &mut out));
    assert_eq!("d3:seqi6ee", out.to_string());
    let mut out = Value::with_dict(vec![]);
    assert!(s.get_mutable_item(&t, 5, false, &mut out));
    assert_eq!(Some(6), out.dict_find_int_value("seq"));
    assert_eq!(Some("three"), out.dict_find_str_value("v"));
    assert_eq!(&[3u8; 64][..], out.dict_find("sig").unwrap().as_bytes().unwrap());
    assert_eq!(&[9u8; 32][..], out.dict_find("k").unwrap().as_bytes().unwrap());
    let mut out = Value::with_dict(vec![]);
    assert!(s.get_mutable_item(&t, 100, true, &mut out));
    assert_eq!(Some(4), out.dict_len());
    let mut out = Value::with_dict(vec![]);
    let other = Sha1Hash::update(b"other");
    assert!(!s.get_mutable_item(&other, 0, true, &mut out));
    assert_eq!("de", out.to_string());
    assert!(!s.get_mutable_item_seq(&other, &mut seq));
    assert_eq!(5, seq);
}

#[test]
fn tick_forgets_what_is_old() {
    let mut s = DefaultDhtStorage::new(&test_settings());
    s.update_node_ids(&[Sha1Hash::min()]);
    let a = Sha1Hash::update(b"a");
    let b = Sha1Hash::update(b"b");
    s.announce_peer(&a, &v4(1, 1), "", false, 1000);
    s.announce_peer(&a, &v4(2, 1), "", false, 2000);
    s.announce_peer(&b, &v4(3, 1), "", false, 1000);
    s.put_immutable_item(&a, b"i1e", &IpAddress::V4([1, 1, 1, 1]), 1000);
    s.put_mutable_item(
        &b,
        b"i1e",
        &Signature([0; 64]),
        1,
        &PublicKey([0; 32]),
        b"",
        &IpAddress::V4([1, 1, 1, 1]),
        5000,
    );
    s.tick(2800);
    assert_eq!(2, s.counters().torrents);
    assert_eq!(3, s.counters().peers);
    s.tick(2801);
    assert_eq!(1, s.counters().torrents);
    assert_eq!(1, s.counters().peers);
    assert_eq!(a, s.map[0].0);
    assert_eq!(v4(2, 1), s.map[0].1.peers4[0].addr);
    assert_eq!(1, s.counters().immutable_data);
    s.tick(8200);
    assert_eq!(0, s.counters().torrents);
    assert_eq!(1, s.counters().immutable_data);
    s.tick(8201);
    assert_eq!(0, s.counters().immutable_data);
    assert_eq!(1, s.counters().mutable_data);
    s.tick(12201);
    assert_eq!(0, s.counters().mutable_data);
}

#[test]
fn infohashes_sample_is_kept_for_its_interval() {
    let mut settings = test_settings();
    settings.max_torrents = 100;
    settings.max_infohashes_sample_count = 3;
    settings.sample_infohashes_interval = 100_000;
    let mut s = DefaultDhtStorage::new(&settings);
    let keys: Vec<Sha1Hash> = (0..5u8).map(|i| Sha1Hash::from([i; 20])).collect();
    for k in keys.iter().take(2) {
        s.announce_peer(k, &v4(1, 1), "", false, 1);
    }
    let mut out = Value::with_dict(vec![]);
    assert_eq!(2, s.get_infohashes_sample(&mut out, 10));
    assert_eq!(Some(21600), out.dict_find_int_value("interval"));
    assert_eq!(Some(2), out.dict_find_int_value("num"));
    let mut expected = vec![0u8; 20];
    expected.extend_from_slice(&[1u8; 20]);
    assert_eq!(&expected[..], out.dict_find("samples").unwrap().as_bytes().unwrap());
    for k in keys.iter() {
        s.announce_peer(k, &v4(1, 1), "", false, 1);
    }
    let mut out = Value::with_dict(vec![]);
    assert_eq!(3, s.get_infohashes_sample(&mut out, 11));
    assert_eq!(Some(5), out.dict_find_int_value("num"));
    assert_eq!(11, s.infohashes_sample.created);
    let mut out = Value::with_dict(vec![]);
    assert_eq!(3, s.get_infohashes_sample(&mut out, 21610));
    assert_eq!(11, s.infohashes_sample.created);
    assert_eq!(3, s.get_infohashes_sample(&mut out, 21611));
    assert_eq!(21611, s.infohashes_sample.created);
    let mut no_dict = Value::with_int(1);
    assert_eq!(3, s.get_infohashes_sample(&mut no_dict, 21612));
    assert_eq!("i1e", no_dict.to_string());
    assert_eq!(0, InfohashesSample::new().count());
}

#[test]
fn counters_reset() {
    let mut c = DhtStorageCounter {
        torrents: 1,
        peers: 2,
        immutable_data: 3,
        mutable_data: 4,
    };
    c.reset();
    assert_eq!(DhtStorageCounter::default(), c);
}

#[test]
fn the_storage_answers_as_a_capability() {
    fn fill<S: dht::storage::DhtStorage>(s: &mut S) -> i32 {
        s.update_node_ids(&[Sha1Hash::min()]);
        s.announce_peer(&Sha1Hash::update(b"t"), &v4(1, 1), "", false, 1);
        s.put_immutable_item(&Sha1Hash::update(b"i"), b"i1e", &IpAddress::V4([1, 1, 1, 1]), 1);
        s.put_mutable_item(
            &Sha1Hash::update(b"m"),
            b"i1e",
            &Signature([0; 64]),
            1,
            &PublicKey([0; 32]),
            b"",
            &IpAddress::V4([1, 1, 1, 1]),
            1,
        );
        let mut out = Value::with_dict(vec![]);
        assert!(s.get_immutable_item(&Sha1Hash::update(b"i"), &mut out));
        assert!(s.get_mutable_item(&Sha1Hash::update(b"m"), 0, false, &mut out));
        let mut seq = 0;
        assert!(s.get_mutable_item_seq(&Sha1Hash::update(b"m"), &mut seq));
        assert_eq!(1, s.get_infohashes_sample(&mut out, 1));
        let mut reply = empty_reply();
        assert_eq!(
            Ok(true),
            s.get_peers(&Sha1Hash::update(b"t"), false, false, &v4(2, 2), &mut reply)
        );
        s.tick(2);
        let c = s.counters();
        c.torrents + c.peers + c.immutable_data + c.mutable_data
    }
    let mut s = DefaultDhtStorage::new(&test_settings());
    assert_eq!(4, fill(&mut s));
}

#[test]
fn a_name_is_cut_by_characters() {
    let mut s = DefaultDhtStorage::new(&test_settings());
    let a = Sha1Hash::update(b"a");
    let long_name = "\u{e9}".repeat(120);
    assert_eq!(240, long_name.len());
    s.announce_peer(&a, &v4(1, 1), &long_name, false, 1);
    assert_eq!("\u{e9}".repeat(100).as_bytes(), &s.map[0].1.name[..]);
    assert_eq!(200, s.map[0].1.name.len());
    let b = Sha1Hash::update(b"b");
    let short_name = "\u{4e2d}\u{6587}";
    s.announce_peer(&b, &v4(1, 1), short_name, false, 1);
    assert_eq!(short_name.as_bytes(), &s.map[1].1.name[..]);
}

#[test]
fn the_first_of_the_least_is_picked() {
    let own = [Sha1Hash::min()];
    let mut near = Sha1Hash::min();
    *near.index_mut(19) = 0x08;
    let mut as_near = Sha1Hash::min();
    *as_near.index_mut(19) = 0x0f;
    let table = vec![
        (Sha1Hash::min().successor(), DhtImmutableItem::new(vec![], 0)),
        (near, DhtImmutableItem::new(vec![], 0)),
        (as_near, DhtImmutableItem::new(vec![], 0)),
    ];
    assert_eq!(score(&own, &near, 0), score(&own, &as_near, 0));
    assert_eq!(Some(1), pick_least_imp(&own, &table));
}
