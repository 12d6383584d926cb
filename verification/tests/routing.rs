use dht::detail::{IpAddress, SocketAddress};
use dht::node::Node;
use dht::routing::{Bucket, RoutingTable};
use dht::Sha1Hash;

fn id(first: u8) -> Sha1Hash {
    let mut h = Sha1Hash::min();
    *h.index_mut(0) = first;
    h
}

fn node(first: u8) -> Node {
    Node::new(
        id(first),
        SocketAddress::new(IpAddress::V4([10, 0, 0, first]), 6881),
    )
}

fn check_ranges(t: &RoutingTable) {
    assert_eq!(Sha1Hash::min(), t.buckets[0].lower);
    assert_eq!(Sha1Hash::max(), t.buckets[t.buckets.len() - 1].upper);
    for w in t.buckets.windows(2) {
        assert_eq!(w[0].upper.successor(), w[1].lower);
    }
    for b in t.buckets.iter() {
        assert!(b.lower <= b.upper);
        assert!(b.nodes.len() <= t.ksize);
        for n in b.nodes.iter().chain(b.extra_nodes.iter()) {
            assert!(b.lower <= n.id && n.id <= b.upper);
        }
        for w in b.nodes.windows(2) {
            assert!(w[0].id < w[1].id);
        }
    }
}

#[test]
fn routing_split() {
    let mut t = RoutingTable::new(Node::with_id(Sha1Hash::min()), 8, 0);
    assert_eq!(1, t.buckets.len());
    assert_eq!(Sha1Hash::min(), t.buckets[0].lower);
    assert_eq!(Sha1Hash::max(), t.buckets[0].upper);
    for i in 1..=8u8 {
        assert_eq!(None, t.add_contact(node(i), 0));
        assert_eq!(1, t.buckets.len());
    }
    assert_eq!(None, t.add_contact(node(9), 0));
    assert!(t.buckets.len() > 1);
    check_ranges(&t);
    // The halves meet at the middle of the space.
    assert_eq!(id(0x80), t.buckets[t.buckets.len() - 1].lower);
    let mut high = Sha1Hash::max();
    *high.index_mut(0) = 0x7f;
    assert_eq!(high, t.buckets[t.buckets.len() - 2].upper);
    // Every contact is a live node of the bucket whose range holds its id.
    for i in 1..=9u8 {
        let at = t.bucket_index_of(&id(i));
        assert_eq!(Some(node(i)), t.buckets[at].get_node(&id(i)));
        assert!(!t.is_new_node(&node(i)));
    }
    let total: usize = t.buckets.iter().map(|b| b.len()).sum();
    assert_eq!(9, total);
    // Five splits part 0x01 to 0x07 from 0x08 and 0x09, at the fifth bit.
    assert_eq!(6, t.buckets.len());
    assert_eq!(7, t.buckets[0].len());
    assert_eq!(2, t.buckets[1].len());
}

#[test]
fn far_bucket_keeps_a_replacement() {
    let mut t = RoutingTable::new(Node::with_id(Sha1Hash::max()), 8, 0);
    for i in 1..=8u8 {
        assert_eq!(None, t.add_contact(node(i), 0));
    }
    // The first split parts the contacts from the own id.
    let ping = t.add_contact(node(9), 0);
    check_ranges(&t);
    assert_eq!(2, t.buckets.len());
    assert_eq!(Some(node(1)), ping);
    assert_eq!(8, t.buckets[0].len());
    assert_eq!(vec![node(9)], t.buckets[0].extra_nodes);
    assert!(t.is_new_node(&node(9)));
    assert!(t.buckets[1].is_empty());
    assert_eq!(160, t.buckets[0].depth());
    assert_eq!(0, t.buckets[1].depth());
    // A known node is brought up to date in place.
    let mut moved = node(3);
    moved.endpoint = Some(SocketAddress::new(IpAddress::V4([1, 1, 1, 1]), 1));
    assert_eq!(None, t.add_contact(moved, 0));
    assert_eq!(Some(moved), t.buckets[0].get_node(&id(3)));
    // When a live node goes, the first replacement takes its place.
    t.remove_contact(&node(1));
    check_ranges(&t);
    assert_eq!(8, t.buckets[0].len());
    assert!(t.buckets[0].extra_nodes.is_empty());
    assert_eq!(Some(node(2)), t.buckets[0].head());
    assert_eq!(Some(node(9)), t.buckets[0].get_node(&id(9)));
    t.remove_contact(&node(200));
    assert_eq!(8, t.buckets[0].len());
}

#[test]
fn depth_decides_the_split_of_a_far_bucket() {
    let mut t = RoutingTable::new(Node::with_id(Sha1Hash::min()), 2, 0);
    // Ids that start with one bit set have the depth 159.
    assert_eq!(None, t.add_contact(node(0x81), 0));
    assert_eq!(None, t.add_contact(node(0x91), 0));
    assert_eq!(None, t.add_contact(node(0xa1), 0));
    check_ranges(&t);
    assert!(t.buckets.len() >= 3);
    for f in [0x81u8, 0x91, 0xa1] {
        assert!(!t.is_new_node(&node(f)));
    }
}

#[test]
fn neighbours_come_nearest_first() {
    let mut t = RoutingTable::new(Node::with_id(Sha1Hash::min()), 4, 0);
    for i in [0x10u8, 0x20, 0x30, 0x40, 0x50, 0x90, 0xa0, 0xf0] {
        t.add_contact(node(i), 0);
    }
    check_ranges(&t);
    let target = Node::with_id(id(0x21));
    let all = t.find_neighbours(&target, Some(100), None);
    let firsts: Vec<u8> = all.iter().map(|n| n.id.index(0)).collect();
    assert_eq!(
        vec![0x20, 0x30, 0x10, 0x40, 0x50, 0xa0, 0x90, 0xf0],
        firsts
    );
    let some = t.find_neighbours(&target, None, None);
    assert_eq!(4, some.len());
    for w in some.windows(2) {
        assert!(w[0].id.bitxor(&target.id) < w[1].id.bitxor(&target.id));
    }
    let without = t.find_neighbours(&Node::with_id(id(0x20)), Some(100), Some(&node(0x30)));
    let firsts: Vec<u8> = without.iter().map(|n| n.id.index(0)).collect();
    assert_eq!(vec![0x10, 0x40, 0x50, 0xa0, 0x90, 0xf0], firsts);
    assert!(t.find_neighbours(&target, Some(0), None).is_empty());
}

#[test]
fn stale_buckets_are_those_not_touched_for_an_hour() {
    let mut t = RoutingTable::new(Node::with_id(Sha1Hash::min()), 1, 100);
    t.add_contact(node(0x01), 200);
    t.add_contact(node(0xf1), 200);
    assert_eq!(2, t.buckets.len());
    assert_eq!(Vec::<usize>::new(), t.stale_buckets(3800));
    assert_eq!(vec![0, 1], t.stale_buckets(3801));
    t.buckets[0].touch(3000);
    assert_eq!(vec![1], t.stale_buckets(3801));
    assert_eq!(vec![0, 1], t.stale_buckets(7000));
}

#[test]
fn a_split_parts_the_contacts_by_their_ids() {
    let mut b = Bucket::new(Sha1Hash::min(), Sha1Hash::max(), 3, 7);
    assert!(b.add_node(node(0x10)));
    assert!(b.add_node(node(0x90)));
    assert!(b.add_node(node(0x7f)));
    assert!(!b.add_node(node(0x80)));
    assert!(!b.add_node(node(0x05)));
    assert!(b.add_node(node(0x90)));
    assert_eq!(vec![node(0x10), node(0x7f), node(0x90)], b.get_nodes());
    assert!(b.has_in_range(&node(0xff)));
    let (left, right) = b.split(9);
    assert_eq!(vec![node(0x10), node(0x7f)], left.nodes);
    assert_eq!(vec![node(0x05)], left.extra_nodes);
    assert_eq!(vec![node(0x90)], right.nodes);
    assert_eq!(vec![node(0x80)], right.extra_nodes);
    assert_eq!(left.upper.successor(), right.lower);
    assert_eq!(id(0x80), right.lower);
    assert_eq!(9, left.last_updated);
    assert!(!left.has_in_range(&node(0x80)));
    assert!(right.has_in_range(&node(0x80)));
    assert_eq!(3, left.ksize);
}

#[test]
fn the_middle_is_half_the_xor_distance() {
    let mut lower = Sha1Hash::min();
    *lower.index_mut(19) = 1;
    let mut upper = Sha1Hash::min();
    *upper.index_mut(19) = 4;
    let b = Bucket::new(lower, upper, 3, 0);
    // 1 xor 4 is 5, and half of it is 2: the middle is 3.
    let (left, right) = b.split(1);
    let mut three = Sha1Hash::min();
    *three.index_mut(19) = 3;
    assert_eq!(lower, left.lower);
    assert_eq!(three, left.upper);
    assert_eq!(upper, right.lower);
    assert_eq!(upper, right.upper);

    let whole = Bucket::new(Sha1Hash::min(), Sha1Hash::max(), 3, 0);
    let (left, right) = whole.split(1);
    let mut half = Sha1Hash::max();
    *half.index_mut(0) = 0x7f;
    assert_eq!(half, left.upper);
    let (_, upper_quarter) = right.split(2);
    assert_eq!(id(0xc0), upper_quarter.lower);
    assert_eq!(Sha1Hash::max(), upper_quarter.upper);
}
