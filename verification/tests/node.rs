use dht::detail::{IpAddress, SocketAddress};
use dht::node::{distance, distance_exp, min_distance_exp, Node};
use dht::Sha1Hash;

#[test]
fn socket_addr() {
    let addr = IpAddress::V4([127, 0, 0, 1]);
    let port = 1234;
    let node = Node::new(Sha1Hash::update(b"node"), SocketAddress::new(addr, port));
    let expected = SocketAddress::new(IpAddress::V4([127, 0, 0, 1]), 1234);
    assert_eq!(Some(expected), node.socket_addr());
}

#[test]
fn distance_is_the_exclusive_or() {
    let a = Sha1Hash::from([0x0f; 20]);
    let b = Sha1Hash::from([0xff; 20]);
    assert_eq!(Sha1Hash::from([0xf0; 20]), distance(&a, &b));
    assert_eq!(Sha1Hash::min(), distance(&a, &a));
}

#[test]
fn distance_exponent() {
    let zero = Sha1Hash::min();
    assert_eq!(0, distance_exp(&zero, &zero));
    let mut one = Sha1Hash::min();
    *one.index_mut(19) = 1;
    assert_eq!(0, distance_exp(&zero, &one));
    let mut two = Sha1Hash::min();
    *two.index_mut(19) = 2;
    assert_eq!(1, distance_exp(&zero, &two));
    *two.index_mut(19) = 3;
    assert_eq!(1, distance_exp(&zero, &two));
    assert_eq!(159, distance_exp(&zero, &Sha1Hash::max()));
    let mut high = Sha1Hash::min();
    *high.index_mut(0) = 0x40;
    assert_eq!(158, distance_exp(&zero, &high));
}

#[test]
fn least_distance_exponent() {
    let zero = Sha1Hash::min();
    assert_eq!(160, min_distance_exp(&zero, &[]));
    let mut near = Sha1Hash::min();
    *near.index_mut(19) = 0x10;
    assert_eq!(4, min_distance_exp(&zero, &[Sha1Hash::max(), near]));
    assert_eq!(0, min_distance_exp(&zero, &[Sha1Hash::max(), near, zero]));
}

#[test]
fn homes() {
    let a = Node::new(
        Sha1Hash::min(),
        SocketAddress::new(IpAddress::V4([10, 0, 0, 1]), 6881),
    );
    let b = Node::new(
        Sha1Hash::max(),
        SocketAddress::new(IpAddress::V4([10, 0, 0, 1]), 6881),
    );
    let c = Node::new(
        Sha1Hash::max(),
        SocketAddress::new(IpAddress::V4([10, 0, 0, 1]), 6882),
    );
    assert!(a.same_home_as(&b));
    assert!(!b.same_home_as(&c));
    assert!(!a.same_home_as(&Node::with_id(Sha1Hash::min())));
    assert_eq!(Sha1Hash::max(), a.dist_to(&b));
}
