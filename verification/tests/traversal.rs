use dht::bloom_filter::BloomFilter;
use dht::detail::{IpAddress, SocketAddress};
use dht::find_data::{FindData, Found};
use dht::flags::{
    OBSERVER_ALIVE, OBSERVER_DONE, OBSERVER_FAILED, OBSERVER_INITIAL, OBSERVER_IPV6_ADDRESS,
    OBSERVER_NO_ID, OBSERVER_QUERIED, OBSERVER_SHORT_TIMEOUT,
};
use dht::msg::Msg;
use dht::observer::{DhtObserver, Observer, TraversalAlgorithm};
use dht::ValueRef;
use dht::node::Node;
use dht::random::{fill_bytes, keeps, random_usize};
use dht::traversal_algorithm::{Status, TimeoutAction, Traversal};
use dht::Sha1Hash;

fn id(last: u8) -> Sha1Hash {
    let mut h = Sha1Hash::min();
    *h.index_mut(19) = last;
    h
}

fn node(last: u8) -> Node {
    Node::new(
        id(last),
        SocketAddress::new(IpAddress::V4([10, 0, 0, last]), 6881),
    )
}

#[test]
fn the_nearest_node_is_asked_first() {
    let mut t = Traversal::new(id(0), 2, 2);
    t.start(&vec![node(8), node(2), node(4), node(2)]);
    let order: Vec<u8> = t.observers.iter().map(|c| c.node.id.index(19)).collect();
    assert_eq!(vec![2, 4, 8], order);
    assert!(!t.done());
    assert_eq!(Some(0), t.next_request());
    assert_eq!(Some(1), t.next_request());
    assert_eq!(None, t.next_request());
    assert_eq!(2, t.in_flight);
    assert_eq!(OBSERVER_QUERIED | OBSERVER_INITIAL, t.flags(0).bits);
    // An answer names a nearer node, which is asked next.
    assert!(t.reply(&id(4), &vec![node(1), node(8), node(16)]));
    assert!(!t.reply(&id(4), &vec![node(32)]));
    let order: Vec<u8> = t.observers.iter().map(|c| c.node.id.index(19)).collect();
    assert_eq!(vec![1, 2, 4, 8, 16], order);
    assert_eq!(Status::Alive, t.observers[2].status);
    assert!(t.flags(2).contains(OBSERVER_ALIVE));
    assert_eq!(0, t.flags(0).bits);
    assert_eq!(Some(0), t.next_request());
    assert_eq!(None, t.next_request());
    // A short timeout asks once for another try; a full one fails the node.
    assert_eq!(Some(TimeoutAction::Retry), t.timeout(&id(1), true, 1, 20));
    assert_eq!(Some(TimeoutAction::Wait), t.timeout(&id(1), true, 1, 20));
    assert!(t.flags(0).contains(OBSERVER_SHORT_TIMEOUT));
    assert_eq!(
        Some(TimeoutAction::Failed { evict: false }),
        t.timeout(&id(1), false, 19, 20)
    );
    assert_eq!(None, t.timeout(&id(1), false, 20, 20));
    assert!(t.flags(0).contains(OBSERVER_FAILED));
    assert!(t.reply(&id(2), &vec![]));
    // Two nodes are alive and nearer than those that are left: the search ends.
    assert_eq!(0, t.in_flight);
    assert_eq!(None, t.next_request());
    assert!(t.done());
    assert_eq!(vec![node(2), node(4)], t.closest());
    assert_eq!(id(0), t.id());
}

#[test]
fn failures_in_a_row_evict() {
    let mut t = Traversal::new(id(0), 8, 1);
    t.traverse(node(5), false);
    assert_eq!(Some(0), t.next_request());
    assert_eq!(
        Some(TimeoutAction::Failed { evict: true }),
        t.timeout(&id(5), false, 20, 20)
    );
    assert!(t.done());
    assert!(t.closest().is_empty());
    let mut t = Traversal::new(id(0), 8, 1);
    t.traverse(node(5), false);
    assert!(!t.done());
    t.abort();
    assert!(t.done());
    assert_eq!(None, t.next_request());
}

#[test]
fn find_data_keeps_the_write_tokens() {
    let mut f = FindData::new(id(0), 8, 3);
    assert_eq!("find_data", f.name());
    f.start(&vec![node(1), node(2), node(3)]);
    assert_eq!(Some(0), f.traversal.next_request());
    assert_eq!(Some(1), f.traversal.next_request());
    assert_eq!(Some(2), f.traversal.next_request());
    assert!(f.traversal.reply(&id(3), &vec![]));
    assert!(f.traversal.reply(&id(1), &vec![]));
    f.got_write_token(&id(3), "three".to_owned());
    f.got_write_token(&id(2), "two".to_owned());
    f.got_write_token(&id(3), "newer".to_owned());
    assert!(!f.done());
    assert_eq!(vec![(node(3), "newer".to_owned())], f.find_data());
    f.got_write_token(&id(1), "one".to_owned());
    assert_eq!(
        vec![(node(1), "one".to_owned()), (node(3), "newer".to_owned())],
        f.find_data()
    );
    assert_eq!(
        Some(TimeoutAction::Failed { evict: false }),
        f.traversal.timeout(&id(2), false, 1, 20)
    );
    assert!(f.done());
}

#[test]
fn chance_stays_in_its_range() {
    for max in [1usize, 2, 7, 1000] {
        for _ in 0..200 {
            assert!(random_usize(max) < max);
        }
    }
    let seen: std::collections::BTreeSet<usize> = (0..200).map(|_| random_usize(4)).collect();
    assert!(seen.len() > 1);
    let mut buf = [0u8; 64];
    fill_bytes(&mut buf);
    assert_ne!([0u8; 64], buf);
    assert!(keeps(3, 3));
    assert!(keeps(0, 3));
    assert!(!keeps(4, 3));
    assert_ne!(dht::ed25519::create_seed(), dht::ed25519::create_seed());
    let (public, secret) = dht::ed25519::create_keypair();
    assert_eq!([0u8; 32], public.0);
    assert_eq!([0u8; 64], secret.0);
}

#[test]
fn a_filter_fills_as_the_theory_says() {
    let mut filter = BloomFilter::new(256);
    let keys = 400;
    for i in 0..keys {
        let text = format!("key {}", i);
        filter.set(&Sha1Hash::update(text.as_bytes()));
    }
    let m = 2048.0_f64;
    let expected = m * (1.0 - 1.0 / m).powi(2 * keys);
    let zeros = filter.count_zeros_bits() as f64;
    assert!((zeros - expected).abs() < 0.08 * m);
    let c = filter.estimate_zero_bits() as f64;
    let size = (c / m).ln() / (2.0 * (1.0 - 1.0 / m).ln());
    assert!((size - keys as f64).abs() < 0.2 * keys as f64);
    let mut full = BloomFilter::from_bytes(vec![0xff; 128]);
    assert_eq!(0, full.count_zeros_bits());
    assert!(full.find(&Sha1Hash::update(b"anything")));
    full.clear();
    assert_eq!(1023, full.estimate_zero_bits());
}

#[test]
fn an_observer_keeps_the_state_of_a_query() {
    let target = SocketAddress::new(IpAddress::V4([1, 2, 3, 4]), 6881);
    let mut o = DhtObserver::new(target, 3, 77);
    assert_eq!(OBSERVER_QUERIED | OBSERVER_NO_ID, o.flags().bits);
    assert_eq!(77, o.sent_at());
    assert_eq!(3, o.traversal());
    assert_eq!(target, o.target_endpoint());
    assert_eq!(IpAddress::V4([1, 2, 3, 4]), o.target_addr());
    o.set_id(&id(9));
    assert_eq!(id(9), Observer::id(&o));
    assert_eq!(OBSERVER_QUERIED, o.flags().bits);
    assert!(!o.has_short_timeout());
    o.short_timeout();
    assert!(o.has_short_timeout());
    let value = ValueRef::decode(b"de").unwrap();
    o.reply(&Msg {
        message: &value,
        addr: target,
    });
    assert_eq!(
        OBSERVER_QUERIED | OBSERVER_SHORT_TIMEOUT | OBSERVER_ALIVE | OBSERVER_DONE,
        o.flags().bits
    );
    let six = SocketAddress::new(IpAddress::V6([0; 16]), 1);
    let mut o = DhtObserver::new(six, 0, 0);
    assert!(o.flags().contains(OBSERVER_IPV6_ADDRESS));
    o.timeout();
    assert!(o.flags().contains(OBSERVER_FAILED | OBSERVER_DONE));
    o.set_target(&target);
    assert_eq!(target, o.target_endpoint());
    let mut o = DhtObserver::new(six, 0, 0);
    o.abort();
    assert!(o.flags().contains(OBSERVER_DONE));
    assert!(!o.flags().contains(OBSERVER_FAILED));

    fn run<T: TraversalAlgorithm>(t: &mut T, near: &Sha1Hash, addr: &SocketAddress) -> bool {
        t.traverse(near, addr);
        t.finished(near, true);
        t.done()
    }
    let mut t = Traversal::new(id(0), 8, 3);
    assert!(!run(&mut t, &id(1), &target));
    assert_eq!(Some(0), t.next_request());
    assert!(run(&mut t, &id(1), &target));
    assert_eq!(id(0), TraversalAlgorithm::id(&t));
}

#[test]
fn a_search_ends_at_its_deadline() {
    let mut t = Traversal::new(id(0), 8, 3);
    t.traverse(node(1), false);
    assert!(!t.expire(100, 160));
    assert!(!t.done());
    assert!(t.expire(100, 161));
    assert!(t.done());
    assert!(!t.expire(100, 50));
    assert!(t.aborted);
}

#[test]
fn find_data_keeps_what_the_nodes_answer_with() {
    let mut f = FindData::new(id(0), 8, 3);
    assert_eq!(None, f.data_of(&id(1)));
    assert_eq!(None, f.token_of(&id(1)));

    let with_peers =
        ValueRef::decode(b"d2:id20:aaaaabbbbbcccccddddd5:token3:abc6:valuesl6:\x0a\x00\x00\x01\x1a\xe118:\x00\x00\x00\x00\x00\x00\x00\x00\x00\x00\x00\x00\x00\x00\x00\x01\x00\x50ee")
            .unwrap();
    f.harvest(&id(1), &with_peers);
    assert_eq!(Some(&"abc".to_owned()), f.token_of(&id(1)));
    assert_eq!(
        Some(&Found::Peers(vec![
            SocketAddress::new(IpAddress::V4([10, 0, 0, 1]), 6881),
            SocketAddress::new(
                IpAddress::V6([0, 0, 0, 0, 0, 0, 0, 0, 0, 0, 0, 0, 0, 0, 0, 1]),
                80
            ),
        ])),
        f.data_of(&id(1))
    );

    let with_item = ValueRef::decode(b"d3:seqi4e1:vd1:bi2e1:a4:spame5:token2:xye").unwrap();
    f.harvest(&id(2), &with_item);
    assert_eq!(Some(&"xy".to_owned()), f.token_of(&id(2)));
    assert_eq!(
        Some(&Found::Item(b"d1:a4:spam1:bi2ee".to_vec())),
        f.data_of(&id(2))
    );
    assert_eq!(Some(&"abc".to_owned()), f.token_of(&id(1)));

    let with_nothing = ValueRef::decode(b"d5:nodes0:e").unwrap();
    f.harvest(&id(1), &with_nothing);
    assert_eq!(Some(&"abc".to_owned()), f.token_of(&id(1)));
    assert!(matches!(f.data_of(&id(1)), Some(Found::Peers(p)) if p.len() == 2));

    let a_list = ValueRef::decode(b"l5:tokene").unwrap();
    f.harvest(&id(3), &a_list);
    assert_eq!(None, f.token_of(&id(3)));
    assert_eq!(None, f.data_of(&id(3)));

    f.got_data(&id(2), Found::Peers(vec![]));
    assert_eq!(Some(&Found::Peers(vec![])), f.data_of(&id(2)));
    assert_eq!(2, f.found.len());
    assert_eq!(2, f.tokens.len());
}
