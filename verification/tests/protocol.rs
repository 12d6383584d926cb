use dht::detail::{IpAddress, SocketAddress};
use dht::flags::{
    Announce, Flags, ObserverFlags, ANNOUNCE_IMPLIED_PORT, ANNOUNCE_SEED, KEY_OPTIONAL,
    OBSERVER_ALIVE, OBSERVER_DONE, OBSERVER_QUERIED, OBSERVER_SHORT_TIMEOUT,
};
use dht::msg::{verify_message_impl, KeyDesc};
use dht::node::Node;
use dht::protocol::{digest, key_id, should_store, Protocol};
use dht::settings::DhtSettings;
use dht::storage::DefaultDhtStorage;
use dht::{Sha1Hash, ValueRef};

fn id(first: u8) -> Sha1Hash {
    let mut h = Sha1Hash::min();
    *h.index_mut(0) = first;
    h
}

fn node(first: u8) -> Node {
    Node::new(
        id(first),
        SocketAddress::new(IpAddress::V4([10, 0, 0, first]), 6881),
    )
}

#[test]
fn digest_is_sha1() {
    assert_eq!(
        "a9993e364706816aba3e25717850c26c9cd0d89d",
        digest("abc").to_string()
    );
    assert_eq!(Sha1Hash::update(b"abc"), digest("abc").to_hash());
    let key = Sha1Hash::update(b"key");
    assert_eq!(Sha1Hash::update(key.as_bytes()), key_id(&key));
    assert_ne!(key, key_id(&key));
}

#[test]
fn data_goes_to_a_node_that_is_nearer() {
    let key = id(0x00);
    let own = node(0x01);
    let neighbours = vec![node(0x02), node(0x04), node(0x08)];
    assert!(should_store(&vec![], &own, &node(0x70), &key));
    assert!(should_store(&neighbours, &own, &node(0x03), &key));
    assert!(!should_store(&neighbours, &own, &node(0x09), &key));
    assert!(!should_store(&neighbours, &node(0x02), &node(0x03), &key));
}

#[test]
fn welcome_takes_the_node_in() {
    let mut storage = DefaultDhtStorage::new(&DhtSettings::default());
    let stored = Sha1Hash::update(b"stored");
    storage.announce_peer(
        &stored,
        &SocketAddress::new(IpAddress::V4([1, 2, 3, 4]), 1),
        "",
        false,
        0,
    );
    let own = node(0x01);
    let mut p = Protocol::new(own, storage, 8, 0);
    let w = p.welcome_if_new(node(0x40), 0);
    assert_eq!(vec![stored], w.store);
    assert_eq!(None, w.ping);
    assert!(!p.router.is_new_node(&node(0x40)));
    let again = p.welcome_if_new(node(0x40), 0);
    assert!(again.store.is_empty());
    assert_eq!(1, p.router.buckets[0].len());
    assert_eq!(1, p.storage.map.len());
}

#[test]
fn refresh_ids_lie_in_the_stale_buckets() {
    let storage = DefaultDhtStorage::new(&DhtSettings::default());
    let mut p = Protocol::new(node(0x01), storage, 1, 0);
    p.welcome_if_new(node(0x02), 10);
    p.welcome_if_new(node(0xf0), 10);
    assert!(p.router.buckets.len() >= 2);
    assert!(p.get_refresh_ids(3000).is_empty());
    let ids = p.get_refresh_ids(5000);
    assert_eq!(p.router.buckets.len(), ids.len());
    for (b, i) in p.router.buckets.iter().zip(ids.iter()) {
        assert!(b.lower <= i.to_hash() && i.to_hash() <= b.upper);
    }
}

#[test]
fn a_message_must_hold_its_keys() {
    let msg = ValueRef::decode(b"d1:ad2:id20:aaaaabbbbbcccccddddde1:q4:ping1:t2:aa1:y1:qe").unwrap();
    let desc = [
        KeyDesc {
            name: "y",
            kind: 0,
            size: 1,
            flags: Flags::from_bits(0),
        },
        KeyDesc {
            name: "q",
            kind: 0,
            size: 0,
            flags: Flags::from_bits(KEY_OPTIONAL),
        },
    ];
    let nothing = ValueRef::with_int(0);
    let mut found = [&nothing, &nothing];
    assert_eq!(Ok(()), verify_message_impl(&msg, &desc, &mut found));
    assert_eq!(Some("q"), found[0].as_str());
    assert_eq!(Some("ping"), found[1].as_str());
    let missing = [
        KeyDesc {
            name: "t",
            kind: 0,
            size: 0,
            flags: Flags::from_bits(0),
        },
        KeyDesc {
            name: "r",
            kind: 0,
            size: 0,
            flags: Flags::from_bits(0),
        },
        KeyDesc {
            name: "y",
            kind: 0,
            size: 0,
            flags: Flags::from_bits(0),
        },
    ];
    let mut partly = [&nothing, &nothing, &nothing];
    assert_eq!(
        Err("Key not found"),
        verify_message_impl(&msg, &missing, &mut partly)
    );
    assert_eq!(Some("aa"), partly[0].as_str());
    assert_eq!(Some(0), partly[1].as_int());
    assert_eq!(Some(0), partly[2].as_int());
    let list = ValueRef::decode(b"le").unwrap();
    let mut untouched = [&nothing, &nothing];
    assert_eq!(
        Err("Not a dictionary"),
        verify_message_impl(&list, &desc, &mut untouched)
    );
    assert_eq!(Some(0), untouched[0].as_int());
}

#[test]
fn flags_are_bits() {
    let mut f = ObserverFlags::empty();
    assert!(!f.contains(OBSERVER_QUERIED));
    f.insert(OBSERVER_QUERIED | OBSERVER_SHORT_TIMEOUT);
    assert!(f.contains(OBSERVER_QUERIED));
    assert!(f.contains(OBSERVER_SHORT_TIMEOUT));
    assert!(!f.contains(OBSERVER_QUERIED | OBSERVER_ALIVE));
    f.remove(OBSERVER_QUERIED);
    assert_eq!(ObserverFlags::from_bits(8), f);
    assert_eq!(128, OBSERVER_DONE);
    let a = Announce::from_bits(ANNOUNCE_SEED | ANNOUNCE_IMPLIED_PORT);
    assert!(a.contains(ANNOUNCE_SEED));
    assert_eq!(3, a.bits);
    assert!(Flags::from_bits(5).contains(KEY_OPTIONAL));
}
