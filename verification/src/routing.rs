//! The routing table: buckets of contacts that cover the space of ids.

use crate::contacts::{
    has_id, has_node, lemma_id_value, lemma_nodes_with, lemma_nodes_without, locate_node,
    nodes_sorted, nodes_with, nodes_without, put_node, take_node,
};
use crate::node::{be_distance, distance, xor_bytes, Node, NodeId};
use crate::seqs::{lemma_filter_has, lemma_filter_len, lemma_filter_order, lemma_filter_origin,
    origin};
use crate::sha1::{leading_zero_bits, Sha1Hash};
use vstd::arithmetic::power2::pow2;
use vstd::prelude::*;

verus! {

/// After how many seconds without an update a bucket counts as stale.
pub const STALE_AFTER: u64 = 3600;

/// How deep the id with the bytes `id` sits: 160 less the number of its
/// leading one bits, which is the exponent of its distance to the largest
/// id.
pub open spec fn node_depth(id: Seq<u8>) -> nat {
    (160 - leading_zero_bits(xor_bytes(Seq::new(20, |i: int| 0xffu8), id), 0)) as nat
}

/// The greatest depth among the first `upto` nodes, zero where there is
/// none.
pub open spec fn depth_of(nodes: Seq<Node>, upto: int) -> nat
    decreases upto,
{
    if upto <= 0 {
        0
    } else {
        let rest = depth_of(nodes, upto - 1);
        let d = node_depth(nodes[upto - 1].id@);
        if d > rest {
            d
        } else {
            rest
        }
    }
}

/// The contacts whose ids lie in one range: up to `ksize` live nodes, and
/// replacements for them.
pub struct Bucket {
    pub lower: NodeId,
    pub upper: NodeId,
    pub nodes: Vec<Node>,
    pub extra_nodes: Vec<Node>,
    pub ksize: usize,
    pub last_updated: u64,
}

impl Bucket {
    /// Whether the id that denotes `v` lies in the range of the bucket.
    pub open spec fn contains(&self, v: nat) -> bool {
        self.lower.value() <= v <= self.upper.value()
    }

    /// The range is not empty, both lists are sorted by id without
    /// duplicates, every contact lies in the range, and there are no more
    /// live nodes than `ksize`.
    #[verifier::opaque]
    pub open spec fn well_formed(&self) -> bool {
        &&& self.lower.value() <= self.upper.value()
        &&& nodes_sorted(self.nodes@)
        &&& nodes_sorted(self.extra_nodes@)
        &&& forall|i: int| 0 <= i < self.nodes@.len() ==> self.contains(self.nodes@[i].id.value())
        &&& forall|i: int|
            0 <= i < self.extra_nodes@.len() ==> self.contains(self.extra_nodes@[i].id.value())
        &&& self.nodes@.len() <= self.ksize
    }

    /// Whether `m` is a contact of the bucket, live or replacement.
    pub open spec fn holds(&self, m: Node) -> bool {
        has_node(self.nodes@, m) || has_node(self.extra_nodes@, m)
    }

    /// An empty bucket for the ids from `lower` to `upper`.
    pub fn new(lower: NodeId, upper: NodeId, ksize: usize, now: u64) -> (r: Bucket)
        requires
            lower.value() <= upper.value(),
        ensures
            r.well_formed(),
            r.lower == lower,
            r.upper == upper,
            r.ksize == ksize,
            r.last_updated == now,
            r.nodes@.len() == 0,
            r.extra_nodes@.len() == 0,
    {
        proof {
            reveal(Bucket::well_formed);
        }
        Bucket {
            lower,
            upper,
            nodes: Vec::new(),
            extra_nodes: Vec::new(),
            ksize,
            last_updated: now,
        }
    }

    /// Notes that the bucket was updated at the time `now`.
    pub fn touch(&mut self, now: u64)
        ensures
            final(self).last_updated == now,
            final(self).lower == old(self).lower,
            final(self).upper == old(self).upper,
            final(self).nodes == old(self).nodes,
            final(self).extra_nodes == old(self).extra_nodes,
            final(self).ksize == old(self).ksize,
    {
        self.last_updated = now;
    }

    /// The live nodes, sorted by id.
    pub fn get_nodes(&self) -> (r: Vec<Node>)
        ensures
            r@ == self.nodes@,
    {
        let mut out: Vec<Node> = Vec::new();
        let mut i: usize = 0;
        while i < self.nodes.len()
            invariant
                0 <= i <= self.nodes@.len(),
                out@ == self.nodes@.take(i as int),
            decreases self.nodes@.len() - i,
        {
            out.push(self.nodes[i]);
            i += 1;
            proof {
                assert(out@ =~= self.nodes@.take(i as int));
            }
        }
        proof {
            assert(self.nodes@.take(self.nodes@.len() as int) =~= self.nodes@);
        }
        out
    }

    /// Takes in the node `node`, and says whether it is a live node now. A
    /// node that is a live node already is brought up to date; a new one
    /// becomes a live node where there is room and a replacement where
    /// there is none.
    pub fn add_node(&mut self, node: Node) -> (r: bool)
        requires
            old(self).well_formed(),
            old(self).contains(node.id.value()),
        ensures
            final(self).well_formed(),
            final(self).lower == old(self).lower,
            final(self).upper == old(self).upper,
            final(self).ksize == old(self).ksize,
            final(self).last_updated == old(self).last_updated,
            r == (has_id(old(self).nodes@, node.id) || old(self).nodes@.len() < old(self).ksize),
            r ==> final(self).nodes@ == nodes_with(old(self).nodes@, node)
                && final(self).extra_nodes == old(self).extra_nodes,
            !r ==> final(self).extra_nodes@ == nodes_with(old(self).extra_nodes@, node)
                && final(self).nodes == old(self).nodes,
            final(self).holds(node),
            r ==> has_node(final(self).nodes@, node),
            !r ==> has_node(final(self).extra_nodes@, node)
                && final(self).nodes@.len() == final(self).ksize,
            forall|m: Node| m.id != node.id ==> (final(self).holds(m) <==> old(self).holds(m)),
            forall|m: Node| final(self).holds(m) ==> m == node || old(self).holds(m),
            forall|m: Node|
                m.id != node.id ==> (has_node(final(self).nodes@, m) <==> has_node(
                    old(self).nodes@,
                    m,
                )),
    {
        proof {
            reveal(Bucket::well_formed);
        }
        let i = locate_node(&self.nodes, &node.id);
        let known = i < self.nodes.len() && self.nodes[i].id.same(&node.id);
        if known || self.nodes.len() < self.ksize {
            proof {
                lemma_nodes_with(self.nodes@, node, i as int);
            }
            put_node(&mut self.nodes, node);
            proof {
                lemma_members_in_range(old(self).nodes@, self.nodes@, node, *old(self));
            }
            true
        } else {
            let j = locate_node(&self.extra_nodes, &node.id);
            proof {
                lemma_nodes_with(self.extra_nodes@, node, j as int);
            }
            put_node(&mut self.extra_nodes, node);
            proof {
                lemma_members_in_range(old(self).extra_nodes@, self.extra_nodes@, node, *old(self));
            }
            false
        }
    }

    /// The live node with the id `id`, if there is one.
    pub fn get_node(&self, id: &NodeId) -> (r: Option<Node>)
        requires
            self.well_formed(),
        ensures
            r.is_some() == has_id(self.nodes@, *id),
            r matches Some(n) ==> n.id == *id && has_node(self.nodes@, n),
    {
        proof {
            reveal(Bucket::well_formed);
        }
        let i = locate_node(&self.nodes, id);
        if i < self.nodes.len() && self.nodes[i].id.same(id) {
            Some(self.nodes[i])
        } else {
            None
        }
    }

    /// Takes the node with the id `id` out of both lists, and says whether
    /// it was a live node.
    fn drop_id(&mut self, id: &NodeId) -> (r: bool)
        requires
            old(self).well_formed(),
        ensures
            final(self).well_formed(),
            final(self).lower == old(self).lower,
            final(self).upper == old(self).upper,
            final(self).ksize == old(self).ksize,
            final(self).last_updated == old(self).last_updated,
            final(self).nodes@ == nodes_without(old(self).nodes@, *id),
            final(self).extra_nodes@ == nodes_without(old(self).extra_nodes@, *id),
            r == has_id(old(self).nodes@, *id),
            r ==> final(self).nodes@.len() < final(self).ksize,
            forall|m: Node| final(self).holds(m) <==> old(self).holds(m) && m.id != *id,
    {
        proof {
            reveal(Bucket::well_formed);
        }
        let ghost extra0 = self.extra_nodes@;
        let ghost nodes0 = self.nodes@;
        let j = locate_node(&self.extra_nodes, id);
        proof {
            lemma_nodes_without(extra0, *id, j as int);
        }
        take_node(&mut self.extra_nodes, id);
        let i = locate_node(&self.nodes, id);
        proof {
            lemma_nodes_without(nodes0, *id, i as int);
        }
        let was_live = take_node(&mut self.nodes, id);
        proof {
            lemma_kept_in_range(nodes0, self.nodes@, *old(self));
            lemma_kept_in_range(extra0, self.extra_nodes@, *old(self));
        }
        was_live
    }

    /// Makes the replacement with the smallest id a live node.
    fn promote(&mut self)
        requires
            old(self).well_formed(),
            old(self).nodes@.len() < old(self).ksize,
            old(self).extra_nodes@.len() > 0,
        ensures
            final(self).well_formed(),
            final(self).lower == old(self).lower,
            final(self).upper == old(self).upper,
            final(self).ksize == old(self).ksize,
            final(self).last_updated == old(self).last_updated,
            final(self).nodes@ == nodes_with(old(self).nodes@, old(self).extra_nodes@[0]),
            final(self).extra_nodes@ == old(self).extra_nodes@.remove(0),
            forall|m: Node|
                m.id != old(self).extra_nodes@[0].id ==> (final(self).holds(m) <==> old(self).holds(
                    m,
                )),
            final(self).holds(old(self).extra_nodes@[0]),
            forall|m: Node| final(self).holds(m) ==> old(self).holds(m),
    {
        proof {
            reveal(Bucket::well_formed);
        }
        let ghost nodes1 = self.nodes@;
        let ghost extra1 = self.extra_nodes@;
        let first = self.extra_nodes.remove(0);
        let p = locate_node(&self.nodes, &first.id);
        proof {
            lemma_nodes_with(nodes1, first, p as int);
        }
        put_node(&mut self.nodes, first);
        proof {
            let extra2 = self.extra_nodes@;
            assert(extra2 =~= extra1.remove(0));
            lemma_rest_sorted(extra1);
            lemma_members_in_range(nodes1, self.nodes@, first, *old(self));
            assert forall|k: int| 0 <= k < extra2.len() implies self.contains(
                extra2[k].id.value(),
            ) by {
                assert(extra2[k] == extra1[k + 1]);
            }
            assert forall|m: Node| m.id != first.id implies (has_node(extra2, m) <==> has_node(
                extra1,
                m,
            )) by {
                if has_node(extra2, m) {
                    let k = choose|k: int| 0 <= k < extra2.len() && extra2[k] == m;
                    assert(extra1[k + 1] == m);
                }
                if has_node(extra1, m) {
                    let k = choose|k: int| 0 <= k < extra1.len() && extra1[k] == m;
                    assert(extra2[k - 1] == m);
                }
            }
            assert forall|m: Node| final(self).holds(m) implies old(self).holds(m) by {
                if has_node(extra2, m) {
                    let k = choose|k: int| 0 <= k < extra2.len() && extra2[k] == m;
                    assert(extra1[k + 1] == m);
                } else if m == first {
                    assert(extra1[0] == m);
                }
            }
        }
    }

    /// Takes out the node with the id of `node`. Where a live node has gone
    /// the replacement with the smallest id takes its place.
    pub fn remove_node(&mut self, node: &Node)
        requires
            old(self).well_formed(),
        ensures
            final(self).well_formed(),
            final(self).lower == old(self).lower,
            final(self).upper == old(self).upper,
            final(self).ksize == old(self).ksize,
            final(self).last_updated == old(self).last_updated,
            ({
                let extra = nodes_without(old(self).extra_nodes@, node.id);
                let nodes = nodes_without(old(self).nodes@, node.id);
                if has_id(old(self).nodes@, node.id) && extra.len() > 0 {
                    final(self).nodes@ == nodes_with(nodes, extra[0]) && final(self).extra_nodes@
                        == extra.remove(0)
                } else {
                    final(self).nodes@ == nodes && final(self).extra_nodes@ == extra
                }
            }),
            forall|m: Node| final(self).holds(m) ==> old(self).holds(m) && m.id != node.id,
    {
        let was_live = self.drop_id(&node.id);
        if was_live && self.extra_nodes.len() > 0 {
            let ghost first = self.extra_nodes@[0];
            proof {
                assert(has_node(self.extra_nodes@, first));
                assert(self.holds(first));
            }
            self.promote();
        }
    }

    /// Whether the node is not a live node of the bucket yet.
    pub fn is_new_node(&self, node: &Node) -> (r: bool)
        requires
            self.well_formed(),
        ensures
            r == !has_id(self.nodes@, node.id),
    {
        proof {
            reveal(Bucket::well_formed);
        }
        let i = locate_node(&self.nodes, &node.id);
        !(i < self.nodes.len() && self.nodes[i].id.same(&node.id))
    }

    /// Whether the id of the node lies in the range of the bucket.
    pub fn has_in_range(&self, node: &Node) -> (r: bool)
        ensures
            r == self.contains(node.id.value()),
    {
        self.lower.le(&node.id) && node.id.le(&self.upper)
    }

    /// The live node with the smallest id, if there is a live node.
    pub fn head(&self) -> (r: Option<Node>)
        ensures
            r == if self.nodes@.len() > 0 {
                Some(self.nodes@[0])
            } else {
                None
            },
    {
        if self.nodes.len() > 0 {
            Some(self.nodes[0])
        } else {
            None
        }
    }

    /// The greatest depth among the live nodes, zero where there is none.
    pub fn depth(&self) -> (r: usize)
        ensures
            r == depth_of(self.nodes@, self.nodes@.len() as int),
            r <= 160,
    {
        let origin = Sha1Hash::max();
        let mut acc: usize = 0;
        let mut i: usize = 0;
        while i < self.nodes.len()
            invariant
                0 <= i <= self.nodes@.len(),
                acc == depth_of(self.nodes@, i as int),
                acc <= 160,
                origin@ == Seq::new(20, |i: int| 0xffu8),
            decreases self.nodes@.len() - i,
        {
            let d = distance(&origin, &self.nodes[i].id);
            let depth: usize = 160 - d.leading_zeros();
            if depth > acc {
                acc = depth;
            }
            i += 1;
        }
        acc
    }

    /// The number of live nodes.
    pub fn len(&self) -> (r: usize)
        ensures
            r == self.nodes@.len(),
    {
        self.nodes.len()
    }

    /// Whether there is no live node.
    pub fn is_empty(&self) -> (r: bool)
        ensures
            r == (self.nodes@.len() == 0),
    {
        self.nodes.len() == 0
    }

    /// The number at which the range is split: the lower end and half the
    /// XOR distance between the two ends.
    pub open spec fn middle(&self) -> nat {
        self.lower.value() + crate::bigend::be_value(xor_bytes(self.lower@, self.upper@)) / 2
    }

    /// Splits the range in two halves and hands each contact to the half
    /// that its id lies in: a live node stays a live node and a
    /// replacement a replacement. The left half runs from the lower end to
    /// the middle, the right half from the id after the middle to the upper
    /// end. The middle must lie before the upper end, as it does in every
    /// range of more than one id that halving the space of ids reaches.
    pub fn split(&self, now: u64) -> (r: (Bucket, Bucket))
        requires
            self.well_formed(),
            self.middle() < self.upper.value(),
        ensures
            r.0.well_formed(),
            r.1.well_formed(),
            r.0.lower == self.lower,
            r.0.upper.value() == self.middle(),
            r.1.lower.value() == self.middle() + 1,
            r.1.upper == self.upper,
            r.0.ksize == self.ksize,
            r.1.ksize == self.ksize,
            r.0.last_updated == now,
            r.1.last_updated == now,
            r.0.nodes@ == self.nodes@.filter(|n: Node| n.id.value() <= self.middle()),
            r.1.nodes@ == self.nodes@.filter(|n: Node| n.id.value() > self.middle()),
            r.0.extra_nodes@ == self.extra_nodes@.filter(|n: Node| n.id.value() <= self.middle()),
            r.1.extra_nodes@ == self.extra_nodes@.filter(|n: Node| n.id.value() > self.middle()),
            is_split(*self, r.0, r.1),
    {
        proof {
            reveal(Bucket::well_formed);
        }
        let span = self.lower.bitxor(&self.upper);
        let mut half = span;
        half.shr_assign(1);
        proof {
            vstd::arithmetic::power2::lemma2_to64();
            crate::bigend::lemma_be_value_bound(self.upper@);
            assert(span@ =~= xor_bytes(self.lower@, self.upper@));
        }
        let middle = self.lower.add(&half);
        let next = middle.successor();
        let (left_nodes, right_nodes) = share(&self.nodes, &middle);
        let (left_extra, right_extra) = share(&self.extra_nodes, &middle);
        let left = Bucket {
            lower: self.lower,
            upper: middle,
            nodes: left_nodes,
            extra_nodes: left_extra,
            ksize: self.ksize,
            last_updated: now,
        };
        let right = Bucket {
            lower: next,
            upper: self.upper,
            nodes: right_nodes,
            extra_nodes: right_extra,
            ksize: self.ksize,
            last_updated: now,
        };
        proof {
            let m = self.middle();
            lemma_shared(self.nodes@, m);
            lemma_shared(self.extra_nodes@, m);
            let lo = |n: Node| n.id.value() <= m;
            let hi = |n: Node| n.id.value() > m;
            assert forall|i: int| 0 <= i < left.nodes@.len() implies left.contains(
                left.nodes@[i].id.value(),
            ) by {
                lemma_filter_origin(self.nodes@, lo, i);
                assert(self.contains(self.nodes@[origin(self.nodes@, lo, i)].id.value()));
            }
            assert forall|i: int| 0 <= i < right.nodes@.len() implies right.contains(
                right.nodes@[i].id.value(),
            ) by {
                lemma_filter_origin(self.nodes@, hi, i);
                assert(self.contains(self.nodes@[origin(self.nodes@, hi, i)].id.value()));
            }
            assert forall|i: int| 0 <= i < left.extra_nodes@.len() implies left.contains(
                left.extra_nodes@[i].id.value(),
            ) by {
                lemma_filter_origin(self.extra_nodes@, lo, i);
                assert(self.contains(
                    self.extra_nodes@[origin(self.extra_nodes@, lo, i)].id.value(),
                ));
            }
            assert forall|i: int| 0 <= i < right.extra_nodes@.len() implies right.contains(
                right.extra_nodes@[i].id.value(),
            ) by {
                lemma_filter_origin(self.extra_nodes@, hi, i);
                assert(self.contains(
                    self.extra_nodes@[origin(self.extra_nodes@, hi, i)].id.value(),
                ));
            }
            lemma_filter_len(self.nodes@, lo);
            lemma_filter_len(self.nodes@, hi);
            reveal(is_split);
        }
        (left, right)
    }
}

/// What is left of a sorted list on either side of `m` is sorted.
pub proof fn lemma_shared(l: Seq<Node>, m: nat)
    requires
        nodes_sorted(l),
    ensures
        nodes_sorted(l.filter(|n: Node| n.id.value() <= m)),
        nodes_sorted(l.filter(|n: Node| n.id.value() > m)),
{
    let lo = |n: Node| n.id.value() <= m;
    let hi = |n: Node| n.id.value() > m;
    let a = l.filter(lo);
    let b = l.filter(hi);
    assert forall|i: int, j: int| 0 <= i < j < a.len() implies a[i].id.value()
        < a[j].id.value() by {
        lemma_filter_origin(l, lo, i);
        lemma_filter_origin(l, lo, j);
        lemma_filter_order(l, lo, i, j);
    }
    assert forall|i: int, j: int| 0 <= i < j < b.len() implies b[i].id.value()
        < b[j].id.value() by {
        lemma_filter_origin(l, hi, i);
        lemma_filter_origin(l, hi, j);
        lemma_filter_order(l, hi, i, j);
    }
}

/// A sorted list without its first node is sorted.
pub proof fn lemma_rest_sorted(l: Seq<Node>)
    requires
        nodes_sorted(l),
        l.len() > 0,
    ensures
        nodes_sorted(l.remove(0)),
{
    let r = l.remove(0);
    assert forall|a: int, b: int| 0 <= a < b < r.len() implies r[a].id.value()
        < r[b].id.value() by {
        assert(r[a] == l[a + 1] && r[b] == l[b + 1]);
    }
}

/// The nodes that are left of a list lie in the range of a bucket if the
/// nodes of the list did.
pub proof fn lemma_kept_in_range(before: Seq<Node>, after: Seq<Node>, b: Bucket)
    requires
        forall|i: int| 0 <= i < before.len() ==> b.contains(before[i].id.value()),
        forall|m: Node| has_node(after, m) ==> has_node(before, m),
    ensures
        forall|i: int| 0 <= i < after.len() ==> b.contains(after[i].id.value()),
{
    assert forall|i: int| 0 <= i < after.len() implies b.contains(after[i].id.value()) by {
        assert(has_node(after, after[i]));
        let k = choose|k: int| 0 <= k < before.len() && before[k] == after[i];
    }
}

/// The nodes of a list that a node was put into lie in the range of a
/// bucket if the node and the nodes of the list before do.
pub proof fn lemma_members_in_range(before: Seq<Node>, after: Seq<Node>, node: Node, b: Bucket)
    requires
        b.contains(node.id.value()),
        forall|i: int| 0 <= i < before.len() ==> b.contains(before[i].id.value()),
        forall|m: Node| has_node(after, m) ==> m == node || has_node(before, m),
    ensures
        forall|i: int| 0 <= i < after.len() ==> b.contains(after[i].id.value()),
{
    assert forall|i: int| 0 <= i < after.len() implies b.contains(after[i].id.value()) by {
        assert(has_node(after, after[i]));
        if after[i] != node {
            let k = choose|k: int| 0 <= k < before.len() && before[k] == after[i];
        }
    }
}

/// The nodes of `list` with an id up to `middle`, and those with a greater
/// id.
pub fn share(list: &Vec<Node>, middle: &NodeId) -> (r: (Vec<Node>, Vec<Node>))
    ensures
        r.0@ == list@.filter(|n: Node| n.id.value() <= middle.value()),
        r.1@ == list@.filter(|n: Node| n.id.value() > middle.value()),
{
    let ghost lo = |n: Node| n.id.value() <= middle.value();
    let ghost hi = |n: Node| n.id.value() > middle.value();
    let mut left: Vec<Node> = Vec::new();
    let mut right: Vec<Node> = Vec::new();
    let mut i: usize = 0;
    proof {
        reveal(Seq::filter);
        assert(list@.take(0) =~= Seq::<Node>::empty());
    }
    while i < list.len()
        invariant
            0 <= i <= list@.len(),
            lo == (|n: Node| n.id.value() <= middle.value()),
            hi == (|n: Node| n.id.value() > middle.value()),
            left@ == list@.take(i as int).filter(lo),
            right@ == list@.take(i as int).filter(hi),
        decreases list@.len() - i,
    {
        proof {
            reveal(Seq::filter);
            assert(list@.take(i + 1).drop_last() =~= list@.take(i as int));
            assert(list@.take(i + 1).last() == list@[i as int]);
        }
        if list[i].id.le(middle) {
            left.push(list[i]);
        } else {
            right.push(list[i]);
        }
        i += 1;
    }
    proof {
        assert(list@.take(list@.len() as int) =~= list@);
    }
    (left, right)
}

/// `r` names the buckets that were updated last more than `STALE_AFTER`
/// seconds before `now`, in ascending order.
pub open spec fn is_stale_list(b: Seq<Bucket>, now: u64, r: Seq<usize>) -> bool {
    &&& forall|k: int|
        0 <= k < r.len() ==> (#[trigger] r[k]) < b.len()
            && b[r[k] as int].last_updated + STALE_AFTER
            < now
    &&& forall|x: int, y: int| 0 <= x < y < r.len() ==> r[x] < r[y]
    &&& forall|i: int|
        0 <= i < b.len() && (#[trigger] b[i]).last_updated + STALE_AFTER < now ==> exists|k: int|
            0 <= k < r.len() && r[k] == i
}

/// Each of `ids` lies in the range of the bucket that `stale` names at its
/// place.
pub open spec fn in_ranges(b: Seq<Bucket>, stale: Seq<usize>, ids: Seq<crate::id::Id>) -> bool {
    &&& ids.len() == stale.len()
    &&& forall|k: int|
        0 <= k < stale.len() ==> (#[trigger] stale[k]) < b.len() && b[stale[k] as int].lower.value()
            <= ids[k].value() <= b[stale[k] as int].upper.value()
}

/// The bucket `after` is the bucket `before` without the node with the id
/// `id`: the node has left both lists, and where a live node has gone the
/// replacement with the smallest id has taken its place.
pub open spec fn without_node(before: Bucket, after: Bucket, id: NodeId) -> bool {
    let extra = nodes_without(before.extra_nodes@, id);
    let nodes = nodes_without(before.nodes@, id);
    &&& after.lower == before.lower
    &&& after.upper == before.upper
    &&& after.ksize == before.ksize
    &&& after.last_updated == before.last_updated
    &&& if has_id(before.nodes@, id) && extra.len() > 0 {
        after.nodes@ == nodes_with(nodes, extra[0]) && after.extra_nodes@ == extra.remove(0)
    } else {
        after.nodes@ == nodes && after.extra_nodes@ == extra
    }
}

/// The buckets cover the space of ids without gap or overlap: the first
/// starts at zero, the last ends at the largest id, and each starts at the
/// id after the end of the one before.
pub open spec fn buckets_cover(b: Seq<Bucket>) -> bool {
    &&& b.len() > 0
    &&& b[0].lower.value() == 0
    &&& b.last().upper.value() + 1 == pow2(160)
    &&& forall|i: int| 0 <= i < b.len() - 1 ==> b[i].upper.value() + 1 == b[i + 1].lower.value()
}

/// Whether `m` is a contact of one of the buckets.
#[verifier::opaque]
pub open spec fn is_contact(b: Seq<Bucket>, m: Node) -> bool {
    exists|i: int| 0 <= i < b.len() && b[i].holds(m)
}

/// Whether `m` is a live node of one of the buckets.
#[verifier::opaque]
pub open spec fn is_live(b: Seq<Bucket>, m: Node) -> bool {
    exists|i: int| 0 <= i < b.len() && has_node(b[i].nodes@, m)
}

/// `left` and `right` are the two halves that `split` makes of `parent`.
#[verifier::opaque]
pub open spec fn is_split(parent: Bucket, left: Bucket, right: Bucket) -> bool {
    &&& parent.middle() < parent.upper.value()
    &&& left.well_formed()
    &&& right.well_formed()
    &&& left.lower == parent.lower
    &&& left.upper.value() == parent.middle()
    &&& right.lower.value() == parent.middle() + 1
    &&& right.upper == parent.upper
    &&& left.ksize == parent.ksize
    &&& right.ksize == parent.ksize
    &&& left.nodes@ == parent.nodes@.filter(|n: Node| n.id.value() <= parent.middle())
    &&& right.nodes@ == parent.nodes@.filter(|n: Node| n.id.value() > parent.middle())
    &&& left.extra_nodes@ == parent.extra_nodes@.filter(
        |n: Node| n.id.value() <= parent.middle(),
    )
    &&& right.extra_nodes@ == parent.extra_nodes@.filter(|n: Node| n.id.value() > parent.middle())
}

/// The two halves of a bucket divide its range between them: every id of
/// the range lies in exactly one half, and no other id lies in either.
pub proof fn lemma_split_partitions(parent: Bucket, left: Bucket, right: Bucket, v: nat)
    requires
        is_split(parent, left, right),
    ensures
        parent.contains(v) <==> (left.contains(v) || right.contains(v)),
        !(left.contains(v) && right.contains(v)),
        left.upper.value() + 1 == right.lower.value(),
        left.upper.value() - left.lower.value() < parent.upper.value() - parent.lower.value(),
        right.upper.value() - right.lower.value() < parent.upper.value() - parent.lower.value(),
        left.lower == parent.lower,
        right.upper == parent.upper,
{
    reveal(is_split);
}

/// The two halves of a bucket hold the contacts of the bucket between
/// them, each as what it was: a live node or a replacement.
pub proof fn lemma_split_keeps(parent: Bucket, left: Bucket, right: Bucket, m: Node)
    requires
        is_split(parent, left, right),
    ensures
        has_node(parent.nodes@, m) <==> (has_node(left.nodes@, m) || has_node(right.nodes@, m)),
        has_node(parent.extra_nodes@, m) <==> (has_node(left.extra_nodes@, m) || has_node(
            right.extra_nodes@,
            m,
        )),
        parent.holds(m) <==> (left.holds(m) || right.holds(m)),
{
    reveal(is_split);
    lemma_halves(parent.nodes@, parent.middle(), m);
    lemma_halves(parent.extra_nodes@, parent.middle(), m);
}

/// What is in a list is in one of its two parts, and the other way round.
pub proof fn lemma_halves(l: Seq<Node>, mid: nat, m: Node)
    ensures
        has_node(l, m) <==> (has_node(l.filter(|n: Node| n.id.value() <= mid), m) || has_node(
            l.filter(|n: Node| n.id.value() > mid),
            m,
        )),
{
    let lo = |n: Node| n.id.value() <= mid;
    let hi = |n: Node| n.id.value() > mid;
    if has_node(l, m) {
        let i = choose|i: int| 0 <= i < l.len() && l[i] == m;
        if lo(m) {
            let j = lemma_filter_has(l, lo, i);
            assert(l.filter(lo)[j] == m);
        } else {
            let j = lemma_filter_has(l, hi, i);
            assert(l.filter(hi)[j] == m);
        }
    }
    if has_node(l.filter(lo), m) {
        let j = choose|j: int| 0 <= j < l.filter(lo).len() && l.filter(lo)[j] == m;
        lemma_filter_origin(l, lo, j);
        assert(l[origin(l, lo, j)] == m);
    }
    if has_node(l.filter(hi), m) {
        let j = choose|j: int| 0 <= j < l.filter(hi).len() && l.filter(hi)[j] == m;
        lemma_filter_origin(l, hi, j);
        assert(l[origin(l, hi, j)] == m);
    }
}

/// Whether the ids from `lower` to `upper` are a range that halving the
/// space of ids reaches.
#[verifier::opaque]
pub open spec fn halved_range(lower: NodeId, upper: NodeId) -> bool {
    exists|m: nat| crate::halving::halved(lower.value(), upper.value(), m)
}

/// The contact directory of a node.
pub struct RoutingTable {
    pub node: Node,
    pub ksize: usize,
    pub buckets: Vec<Bucket>,
}

impl RoutingTable {
    /// A bucket takes at least one live node, every bucket is well formed
    /// and takes as many live nodes as the table says, and the buckets
    /// cover the space of ids, each with a range that halving the space
    /// reaches.
    pub open spec fn well_formed(&self) -> bool {
        &&& self.ksize >= 1
        &&& buckets_cover(self.buckets@)
        &&& forall|i: int|
            0 <= i < self.buckets@.len() ==> (#[trigger] self.buckets@[i]).well_formed()
                && self.buckets@[i].ksize == self.ksize && halved_range(
                self.buckets@[i].lower,
                self.buckets@[i].upper,
            )
    }

    /// A table with one empty bucket that covers the whole space.
    pub fn new(node: Node, ksize: usize, now: u64) -> (r: RoutingTable)
        requires
            ksize >= 1,
        ensures
            r.well_formed(),
            r.node == node,
            r.ksize == ksize,
            r.buckets@.len() == 1,
            r.buckets@[0].lower.value() == 0,
            r.buckets@[0].upper.value() + 1 == pow2(160),
            r.buckets@[0].nodes@.len() == 0,
            r.buckets@[0].extra_nodes@.len() == 0,
    {
        let initial = Bucket::new(Sha1Hash::min(), Sha1Hash::max(), ksize, now);
        proof {
            crate::halving::lemma_whole_range(initial.lower, initial.upper);
        }
        let mut buckets: Vec<Bucket> = Vec::new();
        buckets.push(initial);
        RoutingTable { node, ksize, buckets }
    }

    /// The index of the bucket whose range holds `id`.
    pub fn bucket_index_of(&self, id: &NodeId) -> (r: usize)
        requires
            self.well_formed(),
        ensures
            r < self.buckets@.len(),
            self.buckets@[r as int].contains(id.value()),
    {
        proof {
            crate::bigend::lemma_be_value_bound(id@);
        }
        let mut i: usize = 0;
        while i < self.buckets.len() - 1
            invariant
                0 <= i < self.buckets@.len(),
                self.well_formed(),
                self.buckets@[i as int].lower.value() <= id.value(),
            decreases self.buckets@.len() - i,
        {
            if id.le(&self.buckets[i].upper) {
                return i;
            }
            i += 1;
        }
        i
    }

    /// Splits the bucket at `index` in two halves, which take its place.
    pub fn split_bucket(&mut self, index: usize, now: u64)
        requires
            old(self).well_formed(),
            index < old(self).buckets@.len(),
            old(self).buckets@[index as int].lower.value()
                < old(self).buckets@[index as int].upper.value(),
        ensures
            final(self).well_formed(),
            final(self).node == old(self).node,
            final(self).ksize == old(self).ksize,
            split_at(old(self).buckets@, final(self).buckets@, index as int),
            forall|m: Node| is_contact(final(self).buckets@, m)
                <==> is_contact(old(self).buckets@, m),
            forall|m: Node| is_live(final(self).buckets@, m) <==> is_live(old(self).buckets@, m),
    {
        let ghost before = self.buckets@;
        proof {
            crate::halving::lemma_table_middle(*self, index as int);
        }
        let (left, right) = self.buckets[index].split(now);
        replace_by_halves(&mut self.buckets, index, left, right);
        proof {
            lemma_split_cover(before, self.buckets@, index as int, self.ksize);
            crate::halving::lemma_split_halved(before, self.buckets@, index as int);
            assert forall|m: Node| is_contact(self.buckets@, m) <==> is_contact(before, m) by {
                lemma_split_contacts(before, self.buckets@, index as int, m);
            }
            assert forall|m: Node| is_live(self.buckets@, m) <==> is_live(before, m) by {
                lemma_split_live(before, self.buckets@, index as int, m);
            }
        }
    }

    /// Hands the node `node` to the bucket at `index`, whose range holds
    /// its id, and says whether it is a live node now.
    pub fn place(&mut self, index: usize, node: Node) -> (r: bool)
        requires
            old(self).well_formed(),
            index < old(self).buckets@.len(),
            old(self).buckets@[index as int].contains(node.id.value()),
        ensures
            final(self).well_formed(),
            final(self).node == old(self).node,
            final(self).ksize == old(self).ksize,
            final(self).buckets@.len() == old(self).buckets@.len(),
            final(self).buckets@[index as int].lower == old(self).buckets@[index as int].lower,
            final(self).buckets@[index as int].upper == old(self).buckets@[index as int].upper,
            r == (has_id(old(self).buckets@[index as int].nodes@, node.id)
                || old(self).buckets@[index as int].nodes@.len() < old(self).ksize),
            r ==> has_node(final(self).buckets@[index as int].nodes@, node),
            !r ==> has_node(final(self).buckets@[index as int].extra_nodes@, node)
                && final(self).buckets@[index as int].nodes
                == old(self).buckets@[index as int].nodes,
            final(self).buckets@[index as int].nodes@ == if r {
                nodes_with(old(self).buckets@[index as int].nodes@, node)
            } else {
                old(self).buckets@[index as int].nodes@
            },
            final(self).buckets@[index as int].extra_nodes@ == if r {
                old(self).buckets@[index as int].extra_nodes@
            } else {
                nodes_with(old(self).buckets@[index as int].extra_nodes@, node)
            },
            final(self).buckets@[index as int].ksize == old(self).buckets@[index as int].ksize,
            final(self).buckets@[index as int].last_updated == old(
                self,
            ).buckets@[index as int].last_updated,
            placed_at(old(self).buckets@, final(self).buckets@, index as int, node),
            r == takes_live(old(self).buckets@[index as int], node),
            is_contact(final(self).buckets@, node),
            forall|m: Node|
                m.id != node.id ==> (is_contact(final(self).buckets@, m) <==> is_contact(
                    old(self).buckets@,
                    m,
                )),
            forall|m: Node| is_contact(final(self).buckets@, m) ==> m == node || is_contact(
                old(self).buckets@,
                m,
            ),
            forall|m: Node|
                m.id != node.id ==> (is_live(final(self).buckets@, m) <==> is_live(
                    old(self).buckets@,
                    m,
                )),
            forall|j: int|
                0 <= j < old(self).buckets@.len()
                    && j != index ==> final(self).buckets@[j] == old(self).buckets@[j],
    {
        let ghost before = self.buckets@;
        proof {
            assert(self.buckets@[index as int].ksize == self.ksize);
        }
        let r = self.buckets[index].add_node(node);
        proof {
            lemma_changed_bucket(before, self.buckets@, index as int, node);
            assert forall|m: Node| m.id != node.id implies (is_live(self.buckets@, m) <==> is_live(
                before,
                m,
            )) by {
                lemma_changed_live(before, self.buckets@, index as int, node, m);
            }
        }
        r
    }

    /// The indices of the buckets that were updated last more than
    /// `STALE_AFTER` seconds before `now`, in ascending order.
    pub fn stale_buckets(&self, now: u64) -> (r: Vec<usize>)
        ensures
            is_stale_list(self.buckets@, now, r@),
    {
        let mut out: Vec<usize> = Vec::new();
        let mut i: usize = 0;
        while i < self.buckets.len()
            invariant
                0 <= i <= self.buckets@.len(),
                forall|k: int|
                    0 <= k < out@.len() ==> (#[trigger] out@[k]) < i
                        && self.buckets@[out@[k] as int].last_updated
                        + STALE_AFTER < now,
                forall|a: int, b: int| 0 <= a < b < out@.len() ==> out@[a] < out@[b],
                forall|j: int|
                    0 <= j < i && (#[trigger] self.buckets@[j]).last_updated + STALE_AFTER < now
                        ==> exists|k: int| 0 <= k < out@.len() && out@[k] == j,
            decreases self.buckets@.len() - i,
        {
            let seen = self.buckets[i].last_updated;
            if now > seen && now - seen > STALE_AFTER {
                let ghost prev = out@;
                out.push(i);
                proof {
                    assert(out@[prev.len() as int] == i);
                    assert forall|j: int|
                        0 <= j < i + 1 && (#[trigger] self.buckets@[j]).last_updated + STALE_AFTER
                            < now implies exists|k: int| 0 <= k < out@.len() && out@[k] == j by {
                        if j < i {
                            let k = choose|k: int| 0 <= k < prev.len() && prev[k] == j;
                            assert(out@[k] == j);
                        }
                    }
                }
            }
            i += 1;
        }
        out
    }

    /// Takes the contact with the id of `node` out of its bucket. Where a
    /// live node has gone the replacement with the smallest id takes its
    /// place. The other buckets stay as they are.
    pub fn remove_contact(&mut self, node: &Node)
        requires
            old(self).well_formed(),
        ensures
            final(self).well_formed(),
            final(self).node == old(self).node,
            final(self).ksize == old(self).ksize,
            final(self).buckets@.len() == old(self).buckets@.len(),
            forall|j: int|
                0 <= j < old(self).buckets@.len() && j != bucket_of(
                    old(self).buckets@,
                    node.id.value(),
                ) ==> final(self).buckets@[j] == old(self).buckets@[j],
            without_node(
                old(self).buckets@[bucket_of(old(self).buckets@, node.id.value())],
                final(self).buckets@[bucket_of(old(self).buckets@, node.id.value())],
                node.id,
            ),
            forall|m: Node| is_contact(final(self).buckets@, m)
                ==> is_contact(old(self).buckets@, m)
                && m.id != node.id,
    {
        let index = self.bucket_index_of(&node.id);
        let ghost before = self.buckets@;
        proof {
            let c = bucket_of(before, node.id.value());
            lemma_one_bucket(*self, c, index as int, node.id.value());
        }
        self.buckets[index].remove_node(node);
        proof {
            reveal(is_contact);
            let after = self.buckets@;
            assert(forall|j: int| 0 <= j < after.len() && j != index ==> after[j] == before[j]);
            assert(buckets_cover(after)) by {
                assert(after.last().upper == before.last().upper);
                assert(after[0].lower == before[0].lower);
                assert forall|i: int| 0 <= i < after.len() - 1 implies after[i].upper.value() + 1
                    == after[i + 1].lower.value() by {
                    assert(after[i].upper == before[i].upper);
                    assert(after[i + 1].lower == before[i + 1].lower);
                }
            }
            assert forall|m: Node| is_contact(after, m) implies is_contact(before, m) && m.id
                != node.id by {
                let j = choose|j: int| 0 <= j < after.len() && after[j].holds(m);
                if j != index {
                    assert(before[j].holds(m));
                    lemma_elsewhere(*old(self), j, index as int, m, node.id);
                } else {
                    assert(before[index as int].holds(m));
                }
            }
        }
    }

    /// Whether the node is not a live node of its bucket yet.
    pub fn is_new_node(&self, node: &Node) -> (r: bool)
        requires
            self.well_formed(),
        ensures
            r == !exists|i: int|
                0 <= i < self.buckets@.len() && self.buckets@[i].contains(node.id.value())
                    && has_id(self.buckets@[i].nodes@, node.id),
    {
        let index = self.bucket_index_of(&node.id);
        proof {
            assert forall|i: int|
                0 <= i < self.buckets@.len() && self.buckets@[i].contains(
                    node.id.value(),
                ) implies i == index by {
                lemma_one_bucket(*self, i, index as int, node.id.value());
            }
        }
        self.buckets[index].is_new_node(node)
    }

    /// Takes in the contact `node` and says which node is to be asked
    /// whether it is still alive, if any.
    ///
    /// The node goes to the bucket whose range holds its id. Where it is a
    /// live node there already it is brought up to date, and where the
    /// bucket has room it becomes a live node. Else the bucket is split if
    /// its range holds the id of the own node or its depth is no multiple of
    /// five, and the same is tried with the half that holds the id. Where
    /// the bucket is not to be split the node becomes a replacement, and the
    /// first live node of the bucket is to be asked.
    pub fn add_contact(&mut self, node: Node, now: u64) -> (r: Option<Node>)
        requires
            old(self).well_formed(),
        ensures
            contact_added(*old(self), *final(self), node, r),
            final(self).well_formed(),
            exists|steps: nat|
                added_in(
                    old(self).buckets@,
                    bucket_of(old(self).buckets@, node.id.value()),
                    old(self).node,
                    node,
                    final(self).buckets@,
                    r,
                    steps,
                ),
    {
        let mut index = self.bucket_index_of(&node.id);
        let ghost first = index as int;
        let ghost splits: nat = 0;
        let ghost own = self.node;
        proof {
            let c = bucket_of(self.buckets@, node.id.value());
            lemma_one_bucket(*self, c, index as int, node.id.value());
        }
        loop
            invariant
                self.well_formed(),
                own == old(self).node,
                forall|after: Seq<Bucket>, r: Option<Node>, s: nat| #[trigger]
                    added_in(self.buckets@, index as int, own, node, after, r, s) ==> added_in(
                        old(self).buckets@,
                        first,
                        own,
                        node,
                        after,
                        r,
                        s + splits,
                    ),
                self.node == old(self).node,
                self.ksize == old(self).ksize,
                self.buckets@.len() >= old(self).buckets@.len(),
                index < self.buckets@.len(),
                self.buckets@[index as int].contains(node.id.value()),
                first == bucket_of(old(self).buckets@, node.id.value()),
                first <= index <= first + self.buckets@.len() - old(self).buckets@.len(),
                forall|j: int| 0 <= j < first ==> self.buckets@[j] == old(self).buckets@[j],
                forall|j: int|
                    first < j < old(self).buckets@.len() ==> self.buckets@[j + self.buckets@.len()
                        - old(self).buckets@.len()] == old(self).buckets@[j],
                forall|m: Node| is_live(self.buckets@, m) <==> is_live(old(self).buckets@, m),
                forall|m: Node|
                    is_contact(self.buckets@, m) <==> is_contact(old(self).buckets@, m),
            decreases
                    self.buckets@[index as int].upper.value() - self.buckets@[index as int].lower.value(),
        {
            let ghost before = self.buckets@;
            match self.add_step(index, node, now) {
                Some(answer) => {
                    proof {
                        assert(added_in(before, index as int, own, node, self.buckets@, answer, 0));
                        assert(added_in(
                            old(self).buckets@,
                            first,
                            own,
                            node,
                            self.buckets@,
                            answer,
                            0 + splits,
                        ));
                        reveal(is_live);
                        match answer {
                            Some(head) => {
                                assert(is_replacement_in(*self, index as int, node, head));
                            },
                            None => {},
                        }
                    }
                    return answer;
                },
                None => {
                    proof {
                        lemma_split_partitions(
                            before[index as int],
                            self.buckets@[index as int],
                            self.buckets@[index + 1],
                            node.id.value(),
                        );
                        let after = self.buckets@;
                        let grown = after.len() - old(self).buckets@.len();
                        assert forall|j: int| first < j < old(self).buckets@.len() implies after[j
                            + grown] == old(self).buckets@[j] by {
                            assert(after[(j + grown - 1) + 1] == before[j + grown - 1]);
                        }
                    }
                    let count = self.buckets.len();
                    let ghost at = index as int;
                    if index + 1 < count && !node.id.le(&self.buckets[index].upper) {
                        index += 1;
                    }
                    proof {
                        let cur = self.buckets@;
                        assert forall|after: Seq<Bucket>, r: Option<Node>, s: nat| #[trigger]
                            added_in(cur, index as int, own, node, after, r, s) implies added_in(
                            old(self).buckets@,
                            first,
                            own,
                            node,
                            after,
                            r,
                            s + (splits + 1),
                        ) by {
                            assert(split_at(before, cur, at));
                            assert(added_in(before, at, own, node, after, r, s + 1));
                            assert(s + 1 + splits == s + (splits + 1));
                        }
                        splits = splits + 1;
                    }
                },
            }
        }
    }

    /// One step of `add_contact` at the bucket at `index`, whose range
    /// holds the id of `node`: the node is placed, which ends the search
    /// with an answer, or the bucket is split, which leaves the search to
    /// go on.
    pub fn add_step(&mut self, index: usize, node: Node, now: u64) -> (r: Option<Option<Node>>)
        requires
            old(self).well_formed(),
            index < old(self).buckets@.len(),
            old(self).buckets@[index as int].contains(node.id.value()),
        ensures
            final(self).well_formed(),
            final(self).node == old(self).node,
            final(self).ksize == old(self).ksize,
            forall|m: Node|
                m.id != node.id ==> (is_contact(final(self).buckets@, m) <==> is_contact(
                    old(self).buckets@,
                    m,
                )),
            forall|m: Node| is_contact(final(self).buckets@, m) ==> m == node || is_contact(
                old(self).buckets@,
                m,
            ),
            forall|m: Node|
                m.id != node.id ==> (is_live(final(self).buckets@, m) <==> is_live(
                    old(self).buckets@,
                    m,
                )),
            r is Some ==> forall|j: int|
                0 <= j < old(self).buckets@.len()
                    && j != index ==> final(self).buckets@[j] == old(self).buckets@[j],
            r is None <==> old(self).buckets@[index as int].nodes@.len() >= old(self).ksize
                && !has_id(old(self).buckets@[index as int].nodes@, node.id)
                    && old(self).buckets@[index as int].lower.value()
                    < old(self).buckets@[index as int].upper.value()
                && (old(self).buckets@[index as int].contains(old(self).node.id.value())
                || depth_of(
                old(self).buckets@[index as int].nodes@,
                old(self).buckets@[index as int].nodes@.len() as int,
            ) % 5 != 0),
            match r {
                None => !takes_live(old(self).buckets@[index as int], node) && is_to_split(
                    old(self).buckets@[index as int],
                    old(self).node,
                ),
                Some(answer) => !(!takes_live(old(self).buckets@[index as int], node)
                    && is_to_split(old(self).buckets@[index as int], old(self).node)) && placed_at(
                    old(self).buckets@,
                    final(self).buckets@,
                    index as int,
                    node,
                ) && answer == if takes_live(old(self).buckets@[index as int], node) {
                    None::<Node>
                } else {
                    Some(old(self).buckets@[index as int].nodes@[0])
                },
            },
            match r {
                None => split_at(old(self).buckets@, final(self).buckets@, index as int)
                    && old(self).buckets@[index as int].lower.value()
                    < old(self).buckets@[index as int].upper.value()
                    && (forall|m: Node|
                    is_contact(final(self).buckets@, m) <==> is_contact(old(self).buckets@, m))
                    && (forall|m: Node|
                    is_live(final(self).buckets@, m) <==> is_live(old(self).buckets@, m)),
                Some(None) => final(self).buckets@.len() == old(self).buckets@.len() && is_contact(
                    final(self).buckets@,
                    node,
                ) && has_node(final(self).buckets@[index as int].nodes@, node),
                Some(Some(head)) => final(self).buckets@.len() == old(self).buckets@.len()
                    && is_contact(final(self).buckets@, node) && has_node(
                    final(self).buckets@[index as int].extra_nodes@,
                    node,
                ) && final(self).buckets@[index as int].nodes@.len() == final(self).ksize && head
                    == final(self).buckets@[index as int].nodes@[0]
                        && !final(self).buckets@[index as int].contains(final(self).node.id.value()) && depth_of(
                    final(self).buckets@[index as int].nodes@,
                    final(self).buckets@[index as int].nodes@.len() as int,
                ) % 5 == 0,
            },
    {
        proof {
            reveal(Bucket::well_formed);
            assert(self.buckets@[index as int].ksize == self.ksize);
        }
        let known = !self.buckets[index].is_new_node(&node);
        if known || self.buckets[index].len() < self.ksize {
            self.place(index, node);
            return Some(None);
        }
        let splits = self.buckets[index].lower.lt(&self.buckets[index].upper) && (
        self.buckets[index].has_in_range(&self.node) || self.buckets[index].depth() % 5 != 0);
        if splits {
            self.split_bucket(index, now);
            None
        } else {
            proof {
                if self.buckets@[index as int].lower.value() >= self.buckets@[index as int].upper.value() {
                    lemma_full_single(self.buckets@[index as int], node);
                }
            }
            self.place(index, node);
            Some(self.buckets[index].head())
        }
    }
}

/// Puts the two halves of the bucket at `index` in its place.
pub fn replace_by_halves(buckets: &mut Vec<Bucket>, index: usize, left: Bucket, right: Bucket)
    requires
        index < old(buckets)@.len(),
        is_split(old(buckets)@[index as int], left, right),
    ensures
        split_at(old(buckets)@, final(buckets)@, index as int),
{
    let last = buckets.len() - 1;
    let behind: usize = if index < last {
        index + 1
    } else {
        buckets.len()
    };
    buckets[index] = left;
    buckets.insert(behind, right);
}

/// `after` is `before` with the bucket at `index` replaced by its two
/// halves.
pub open spec fn split_at(before: Seq<Bucket>, after: Seq<Bucket>, index: int) -> bool {
    &&& 0 <= index < before.len()
    &&& after.len() == before.len() + 1
    &&& forall|j: int| 0 <= j < index ==> after[j] == before[j]
    &&& forall|j: int| index < j < before.len() ==> after[j + 1] == before[j]
    &&& is_split(before[index], after[index], after[index + 1])
}

/// Splitting a bucket of buckets that cover the space leaves buckets that
/// cover the space.
pub proof fn lemma_split_cover(before: Seq<Bucket>, after: Seq<Bucket>, index: int, ksize: usize)
    requires
        split_at(before, after, index),
        buckets_cover(before),
        before[index].lower.value() < before[index].upper.value(),
        forall|i: int|
            0 <= i < before.len() ==> (#[trigger] before[i]).well_formed() && before[i].ksize
                == ksize,
    ensures
        buckets_cover(after),
        forall|i: int|
            0 <= i < after.len() ==> (#[trigger] after[i]).well_formed() && after[i].ksize == ksize,
{
    reveal(is_split);
    assert forall|j: int| 0 <= j < after.len() implies (#[trigger] after[j]).well_formed()
        && after[j].ksize == ksize by {
        if j < index {
            assert(after[j] == before[j]);
        } else if j > index + 1 {
            assert(after[j] == before[j - 1]);
        }
    }
    assert forall|j: int| 0 <= j < after.len() - 1 implies after[j].upper.value() + 1 == after[j
        + 1].lower.value() by {
        if j + 1 < index {
            assert(after[j] == before[j] && after[j + 1] == before[j + 1]);
        } else if j + 1 == index {
            assert(after[j] == before[j]);
        } else if j == index {
        } else if j == index + 1 {
            assert(after[j + 1] == before[j]);
        } else {
            assert(after[j] == before[j - 1] && after[j + 1] == before[j]);
        }
    }
    if index + 1 < before.len() {
        assert(after.last() == before.last());
    }
    if index > 0 {
        assert(after[0] == before[0]);
    }
}

/// Splitting a bucket leaves every contact a contact and makes no new one.
pub proof fn lemma_split_contacts(before: Seq<Bucket>, after: Seq<Bucket>, index: int, m: Node)
    requires
        split_at(before, after, index),
    ensures
        is_contact(after, m) <==> is_contact(before, m),
{
    reveal(is_contact);
    lemma_split_keeps(before[index], after[index], after[index + 1], m);
    if is_contact(after, m) {
        let j = choose|j: int| 0 <= j < after.len() && after[j].holds(m);
        if j < index {
            assert(before[j].holds(m));
        } else if j > index + 1 {
            assert(before[j - 1].holds(m));
        } else {
            assert(before[index].holds(m));
        }
    }
    if is_contact(before, m) {
        let j = choose|j: int| 0 <= j < before.len() && before[j].holds(m);
        if j < index {
            assert(after[j].holds(m));
        } else if j > index {
            assert(after[j + 1].holds(m));
        } else if after[index].holds(m) {
        } else {
            assert(after[index + 1].holds(m));
        }
    }
}

/// Splitting a bucket leaves every live node a live node and makes no new
/// one.
pub proof fn lemma_split_live(before: Seq<Bucket>, after: Seq<Bucket>, index: int, m: Node)
    requires
        split_at(before, after, index),
    ensures
        is_live(after, m) <==> is_live(before, m),
{
    reveal(is_live);
    lemma_split_keeps(before[index], after[index], after[index + 1], m);
    if is_live(after, m) {
        let j = choose|j: int| 0 <= j < after.len() && has_node(after[j].nodes@, m);
        if j < index {
            assert(has_node(before[j].nodes@, m));
        } else if j > index + 1 {
            assert(has_node(before[j - 1].nodes@, m));
        } else {
            assert(has_node(before[index].nodes@, m));
        }
    }
    if is_live(before, m) {
        let j = choose|j: int| 0 <= j < before.len() && has_node(before[j].nodes@, m);
        if j < index {
            assert(has_node(after[j].nodes@, m));
        } else if j > index {
            assert(has_node(after[j + 1].nodes@, m));
        } else if has_node(after[index].nodes@, m) {
        } else {
            assert(has_node(after[index + 1].nodes@, m));
        }
    }
}

/// Whether the bucket takes the node `node` as a live node: it holds a live
/// node with its id already, or it has room.
pub open spec fn takes_live(b: Bucket, node: Node) -> bool {
    has_id(b.nodes@, node.id) || b.nodes@.len() < b.ksize
}

/// Whether a bucket that is full is to be split: its range holds more than
/// one id, and it holds the id of the own node or its depth is no multiple
/// of five.
pub open spec fn is_to_split(b: Bucket, own: Node) -> bool {
    b.lower.value() < b.upper.value() && (b.contains(own.id.value()) || depth_of(
        b.nodes@,
        b.nodes@.len() as int,
    ) % 5 != 0)
}

/// `after` is `before` with the node `node` taken in by the bucket at
/// `index`: as a live node where the bucket takes it as one, and as a
/// replacement where it does not.
pub open spec fn placed_at(before: Seq<Bucket>, after: Seq<Bucket>, index: int,
    node: Node) -> bool {
    &&& 0 <= index < before.len()
    &&& after.len() == before.len()
    &&& forall|j: int| 0 <= j < before.len() && j != index ==> after[j] == before[j]
    &&& after[index].lower == before[index].lower
    &&& after[index].upper == before[index].upper
    &&& after[index].ksize == before[index].ksize
    &&& after[index].last_updated == before[index].last_updated
    &&& after[index].nodes@ == if takes_live(before[index], node) {
        nodes_with(before[index].nodes@, node)
    } else {
        before[index].nodes@
    }
    &&& after[index].extra_nodes@ == if takes_live(before[index], node) {
        before[index].extra_nodes@
    } else {
        nodes_with(before[index].extra_nodes@, node)
    }
}

/// The index of the half that holds the number `v`, of the two halves that
/// stand at `index` and behind it.
pub open spec fn half_of(mid: Seq<Bucket>, index: int, v: nat) -> int {
    if v <= mid[index].upper.value() {
        index
    } else {
        index + 1
    }
}

/// `after` and `r` are what `add_contact` makes of the buckets `before` in
/// `steps` splits, when it starts at the bucket at `index`: where the
/// bucket takes the node as a live node, it is placed and nobody is to be
/// asked; where the bucket is full and to be split, it is split and the
/// same holds of the half whose range holds the id of the node; else the
/// node is placed as a replacement and the first live node of the bucket
/// is to be asked.
pub open spec fn added_in(
    before: Seq<Bucket>,
    index: int,
    own: Node,
    node: Node,
    after: Seq<Bucket>,
    r: Option<Node>,
    steps: nat,
) -> bool
    decreases steps,
{
    &&& 0 <= index < before.len()
    &&& if takes_live(before[index], node) {
        placed_at(before, after, index, node) && r is None
    } else if is_to_split(before[index], own) {
        steps > 0 && exists|mid: Seq<Bucket>| #[trigger]
            split_at(before, mid, index) && added_in(
                mid,
                half_of(mid, index, node.id.value()),
                own,
                node,
                after,
                r,
                (steps - 1) as nat,
            )
    } else {
        placed_at(before, after, index, node) && r == Some(before[index].nodes@[0])
    }
}

/// What taking in the contact `node` makes of a routing table, and which
/// node is to be asked whether it is still alive: the table stays well
/// formed; the buckets before and behind the one that held the id of the
/// node stay as they are, and that one is split where needed; the node is a
/// live node then, or a replacement in a full bucket that is not to be
/// split, whose first live node is to be asked; every other contact stays
/// what it was.
pub open spec fn contact_added(
    before: RoutingTable,
    after: RoutingTable,
    node: Node,
    r: Option<Node>,
) -> bool {
    let first = bucket_of(before.buckets@, node.id.value());
    let grown = after.buckets@.len() - before.buckets@.len();
    &&& after.well_formed()
    &&& after.node == before.node
    &&& after.ksize == before.ksize
    &&& grown >= 0
    &&& is_contact(after.buckets@, node)
    &&& r is None ==> is_live(after.buckets@, node)
    &&& r matches Some(head) ==> exists|i: int| is_replacement_in(after, i, node, head)
    &&& forall|m: Node|
        m.id != node.id ==> (is_contact(after.buckets@, m) <==> is_contact(before.buckets@, m))
    &&& forall|m: Node| is_contact(after.buckets@, m) ==> m == node
        || is_contact(before.buckets@, m)
    &&& forall|m: Node|
        m.id != node.id ==> (is_live(after.buckets@, m) <==> is_live(before.buckets@, m))
    &&& forall|j: int| 0 <= j < first ==> after.buckets@[j] == before.buckets@[j]
    &&& forall|j: int|
        first < j < before.buckets@.len() ==> after.buckets@[j + grown] == before.buckets@[j]
}

/// The node `node` is a replacement in the bucket at `i`, which is full and
/// is not to be split: its range does not hold the id of the own node and
/// its depth is a multiple of five. `head` is its first live node.
pub open spec fn is_replacement_in(t: RoutingTable, i: int, node: Node, head: Node) -> bool {
    &&& 0 <= i < t.buckets@.len()
    &&& has_node(t.buckets@[i].extra_nodes@, node)
    &&& t.buckets@[i].nodes@.len() == t.ksize
    &&& head == t.buckets@[i].nodes@[0]
    &&& !t.buckets@[i].contains(t.node.id.value())
    &&& depth_of(t.buckets@[i].nodes@, t.buckets@[i].nodes@.len() as int) % 5 == 0
}

/// An id lies in the range of one bucket only.
pub proof fn lemma_one_bucket(t: RoutingTable, i: int, j: int, v: nat)
    requires
        t.well_formed(),
        0 <= i < t.buckets@.len(),
        0 <= j < t.buckets@.len(),
        t.buckets@[i].contains(v),
        t.buckets@[j].contains(v),
    ensures
        i == j,
{
    reveal(Bucket::well_formed);
    if i < j {
        lemma_ranges_ascend(t.buckets@, i, j);
    } else if j < i {
        lemma_ranges_ascend(t.buckets@, j, i);
    }
}

/// A later bucket starts after the end of an earlier one.
pub proof fn lemma_ranges_ascend(b: Seq<Bucket>, i: int, j: int)
    requires
        buckets_cover(b),
        forall|k: int| 0 <= k < b.len() ==> b[k].lower.value() <= b[k].upper.value(),
        0 <= i < j < b.len(),
    ensures
        b[i].upper.value() < b[j].lower.value(),
    decreases j - i,
{
    reveal(Bucket::well_formed);
    if i + 1 < j {
        lemma_ranges_ascend(b, i, j - 1);
        assert(b[j - 1].upper.value() + 1 == b[j].lower.value());
    }
}

/// A contact of another bucket has another id than one whose bucket is
/// known.
pub proof fn lemma_elsewhere(t: RoutingTable, j: int, index: int, m: Node, id: NodeId)
    requires
        t.well_formed(),
        0 <= j < t.buckets@.len(),
        0 <= index < t.buckets@.len(),
        j != index,
        t.buckets@[j].holds(m),
        t.buckets@[index].contains(id.value()),
    ensures
        m.id != id,
{
    lemma_contact_in_range(t, j, m);
    if m.id == id {
        lemma_one_bucket(t, j, index, id.value());
    }
}

/// Every contact of a bucket of a routing table has an id in the range of
/// the bucket.
pub proof fn lemma_contact_in_range(t: RoutingTable, i: int, m: Node)
    requires
        t.well_formed(),
        0 <= i < t.buckets@.len(),
        t.buckets@[i].holds(m),
    ensures
        t.buckets@[i].lower.value() <= m.id.value() <= t.buckets@[i].upper.value(),
{
    reveal(Bucket::well_formed);
    let b = t.buckets@[i];
    assert(b.well_formed());
    if has_node(b.nodes@, m) {
        let k = choose|k: int| 0 <= k < b.nodes@.len() && b.nodes@[k] == m;
        assert(b.contains(b.nodes@[k].id.value()));
    } else {
        let k = choose|k: int| 0 <= k < b.extra_nodes@.len() && b.extra_nodes@[k] == m;
        assert(b.contains(b.extra_nodes@[k].id.value()));
    }
}

/// A bucket for a single id that is full holds that id already.
pub proof fn lemma_full_single(b: Bucket, node: Node)
    requires
        b.well_formed(),
        b.ksize >= 1,
        b.contains(node.id.value()),
        b.lower.value() >= b.upper.value(),
        b.nodes@.len() >= b.ksize,
    ensures
        has_id(b.nodes@, node.id),
{
    reveal(Bucket::well_formed);
    assert(b.contains(b.nodes@[0].id.value()));
    lemma_id_value(b.nodes@[0].id, node.id);
}

/// Which nodes of a table are live after one of its buckets has taken in a
/// node: those that were, as far as they have another id.
pub proof fn lemma_changed_live(
    before: Seq<Bucket>,
    after: Seq<Bucket>,
    index: int,
    node: Node,
    m: Node,
)
    requires
        0 <= index < before.len(),
        after.len() == before.len(),
        forall|j: int| 0 <= j < before.len() && j != index ==> after[j] == before[j],
        m.id != node.id,
        has_node(after[index].nodes@, m) <==> has_node(before[index].nodes@, m),
    ensures
        is_live(after, m) <==> is_live(before, m),
{
    reveal(is_live);
    if is_live(after, m) {
        let j = choose|j: int| 0 <= j < after.len() && has_node(after[j].nodes@, m);
        assert(has_node(before[j].nodes@, m));
    }
    if is_live(before, m) {
        let j = choose|j: int| 0 <= j < before.len() && has_node(before[j].nodes@, m);
        assert(has_node(after[j].nodes@, m));
    }
}

/// What a table holds after one of its buckets has taken in a node.
pub proof fn lemma_changed_bucket(before: Seq<Bucket>, after: Seq<Bucket>, index: int, node: Node)
    requires
        0 <= index < before.len(),
        after.len() == before.len(),
        forall|j: int| 0 <= j < before.len() && j != index ==> after[j] == before[j],
        after[index].holds(node),
        forall|m: Node| m.id != node.id ==> (after[index].holds(m) <==> before[index].holds(m)),
        after[index].lower == before[index].lower,
        after[index].upper == before[index].upper,
        after[index].ksize == before[index].ksize,
        after[index].well_formed(),
        buckets_cover(before),
        forall|m: Node| after[index].holds(m) ==> m == node || before[index].holds(m),
    ensures
        buckets_cover(after),
        is_contact(after, node),
        forall|m: Node| m.id != node.id ==> (is_contact(after, m) <==> is_contact(before, m)),
        forall|m: Node| is_contact(after, m) ==> m == node || is_contact(before, m),
{
    reveal(is_contact);
    assert(after.last().upper == before.last().upper);
    assert(after[0].lower == before[0].lower);
    assert forall|i: int| 0 <= i < after.len() - 1 implies after[i].upper.value() + 1 == after[i
        + 1].lower.value() by {
        assert(after[i].upper == before[i].upper);
        assert(after[i + 1].lower == before[i + 1].lower);
    }
    assert forall|m: Node| m.id != node.id implies (is_contact(after, m) <==> is_contact(
        before,
        m,
    )) by {
        if is_contact(after, m) {
            let j = choose|j: int| 0 <= j < after.len() && after[j].holds(m);
            assert(before[j].holds(m));
        }
        if is_contact(before, m) {
            let j = choose|j: int| 0 <= j < before.len() && before[j].holds(m);
            assert(after[j].holds(m));
        }
    }
    assert forall|m: Node| is_contact(after, m) implies m == node || is_contact(before, m) by {
        let j = choose|j: int| 0 <= j < after.len() && after[j].holds(m);
        if j != index {
            assert(before[j].holds(m));
        } else if m != node {
            assert(before[index].holds(m));
        }
    }
}

/// The nodes are in the order of their distance to the id `target`, the
/// nearest first.
pub open spec fn by_distance(l: Seq<Node>, target: Seq<u8>) -> bool {
    forall|i: int, j: int|
        0 <= i < j < l.len() ==> be_distance(l[i].id@, target) <= be_distance(l[j].id@, target)
}

/// Whether a search for `target` takes the node `n`: it is not the target
/// itself, and it does not share a home with the node that is to be left
/// out.
pub open spec fn wanted(n: Node, target: NodeId, exclude: Option<Node>) -> bool {
    n.id != target && (exclude matches Some(e) ==> n.endpoint != e.endpoint)
}

/// The place of the node `n` among `l`, looked for from `from` on: before
/// the first node that is farther from `target` than `n` is, or at the end.
pub open spec fn distance_pos(l: Seq<Node>, n: Node, target: Seq<u8>, from: int) -> int
    decreases l.len() - from,
{
    if from < 0 || from >= l.len() {
        l.len() as int
    } else if be_distance(n.id@, target) < be_distance(l[from].id@, target) {
        from
    } else {
        distance_pos(l, n, target, from + 1)
    }
}

/// The nodes `l` with the node `n` put at its place.
pub open spec fn placed(l: Seq<Node>, n: Node, target: Seq<u8>) -> Seq<Node> {
    l.insert(distance_pos(l, n, target, 0), n)
}

/// What `collect` makes of `found`: the nodes of `nodes` from `from` on that
/// a search takes are put at their places, one after another, until `k`
/// nodes are found.
pub open spec fn collected(
    found: Seq<Node>,
    nodes: Seq<Node>,
    from: int,
    target: NodeId,
    exclude: Option<Node>,
    k: nat,
) -> Seq<Node>
    decreases nodes.len() - from,
{
    if from < 0 || from >= nodes.len() || found.len() >= k {
        found
    } else if wanted(nodes[from], target, exclude) {
        collected(placed(found, nodes[from], target@), nodes, from + 1, target, exclude, k)
    } else {
        collected(found, nodes, from + 1, target, exclude, k)
    }
}

/// What a search makes of `found` when it goes on from the buckets at the
/// distance `d` from the bucket at `b`: first the one on the left, then the
/// one on the right, then those that lie farther out, until `k` nodes are
/// found.
pub open spec fn walked(
    found: Seq<Node>,
    buckets: Seq<Bucket>,
    b: int,
    d: int,
    target: NodeId,
    exclude: Option<Node>,
    k: nat,
) -> Seq<Node>
    decreases buckets.len() + b - d,
{
    if b < 0 || b >= buckets.len() || d < 1 || !(d <= b || b + d < buckets.len()) || found.len()
        >= k {
        found
    } else {
        let left = if d <= b {
            collected(found, buckets[b - d].nodes@, 0, target, exclude, k)
        } else {
            found
        };
        let right = if b + d < buckets.len() {
            collected(left, buckets[b + d].nodes@, 0, target, exclude, k)
        } else {
            left
        };
        walked(right, buckets, b, d + 1, target, exclude, k)
    }
}

/// The index of the bucket whose range holds the number `v`.
pub open spec fn bucket_of(buckets: Seq<Bucket>, v: nat) -> int {
    choose|i: int| 0 <= i < buckets.len() && buckets[i].contains(v)
}

/// The neighbours that a search for `target` finds among the live nodes of
/// `buckets`: it starts at the bucket of the target and goes outward.
pub open spec fn neighbours(
    buckets: Seq<Bucket>,
    target: NodeId,
    exclude: Option<Node>,
    k: nat,
) -> Seq<Node> {
    let b = bucket_of(buckets, target.value());
    walked(
        collected(Seq::empty(), buckets[b].nodes@, 0, target, exclude, k),
        buckets,
        b,
        1,
        target,
        exclude,
        k,
    )
}

/// Puts the node `n` at its place among nodes that are in the order of their
/// distance to `target`.
pub fn insert_by_distance(found: &mut Vec<Node>, n: Node, target: &NodeId)
    requires
        by_distance(old(found)@, target@),
    ensures
        final(found)@ == placed(old(found)@, n, target@),
        by_distance(final(found)@, target@),
        final(found)@.len() == old(found)@.len() + 1,
        forall|m: Node| has_node(final(found)@, m) <==> m == n || has_node(old(found)@, m),
{
    let dn = distance(&n.id, target);
    let mut i: usize = 0;
    while i < found.len()
        invariant
            0 <= i <= found@.len(),
            *found == *old(found),
            dn@ == xor_bytes(n.id@, target@),
            distance_pos(found@, n, target@, 0) == distance_pos(found@, n, target@, i as int),
            forall|j: int|
                0 <= j < i ==> be_distance(found@[j].id@, target@) <= be_distance(n.id@, target@),
        ensures
            0 <= i <= found@.len(),
            *found == *old(found),
            distance_pos(found@, n, target@, 0) == i,
            forall|j: int|
                0 <= j < i ==> be_distance(found@[j].id@, target@) <= be_distance(n.id@, target@),
            i < found@.len() ==> be_distance(n.id@, target@) < be_distance(
                found@[i as int].id@,
                target@,
            ),
        decreases found@.len() - i,
    {
        let di = distance(&found[i].id, target);
        if dn.lt(&di) {
            break ;
        }
        i += 1;
    }
    let ghost before = found@;
    found.insert(i, n);
    proof {
        let after = found@;
        assert forall|a: int, b: int| 0 <= a < b < after.len() implies be_distance(
            after[a].id@,
            target@,
        ) <= be_distance(after[b].id@, target@) by {
            if b < i {
                assert(after[a] == before[a] && after[b] == before[b]);
            } else if b == i {
                assert(after[a] == before[a]);
            } else if a < i {
                assert(after[a] == before[a] && after[b] == before[b - 1]);
            } else if a == i {
                assert(after[b] == before[b - 1]);
                assert(be_distance(before[i as int].id@, target@) <= be_distance(
                    before[b - 1].id@,
                    target@,
                ) || b - 1 == i);
            } else {
                assert(after[a] == before[a - 1] && after[b] == before[b - 1]);
            }
        }
        assert forall|m: Node| has_node(after, m) <==> m == n || has_node(before, m) by {
            if has_node(after, m) {
                let j = choose|j: int| 0 <= j < after.len() && after[j] == m;
                if j < i {
                    assert(before[j] == m);
                } else if j > i {
                    assert(before[j - 1] == m);
                }
            }
            if has_node(before, m) {
                let j = choose|j: int| 0 <= j < before.len() && before[j] == m;
                if j < i {
                    assert(after[j] == m);
                } else {
                    assert(after[j + 1] == m);
                }
            }
            assert(after[i as int] == n);
        }
    }
}

/// Takes the nodes of `nodes` that a search for `target` takes into
/// `found`, until `found` holds `k` nodes.
pub fn collect(
    nodes: &Vec<Node>,
    target: &NodeId,
    exclude: Option<&Node>,
    k: usize,
    found: &mut Vec<Node>,
)
    requires
        by_distance(old(found)@, target@),
        old(found)@.len() <= k,
    ensures
        final(found)@ == collected(
            old(found)@,
            nodes@,
            0,
            *target,
            match exclude {
                Some(e) => Some(*e),
                None => None,
            },
            k as nat,
        ),
        by_distance(final(found)@, target@),
        final(found)@.len() <= k,
        final(found)@.len() >= old(found)@.len(),
        forall|m: Node| has_node(old(found)@, m) ==> has_node(final(found)@, m),
        forall|m: Node|
            has_node(final(found)@, m) ==> has_node(old(found)@, m) || (has_node(nodes@, m)
                && wanted(
                m,
                *target,
                match exclude {
                    Some(e) => Some(*e),
                    None => None,
                },
            )),
        final(found)@.len() < k ==> forall|m: Node|
            has_node(nodes@, m) && wanted(
                m,
                *target,
                match exclude {
                    Some(e) => Some(*e),
                    None => None,
                },
            ) ==> has_node(final(found)@, m),
{
    let ghost ex: Option<Node> = match exclude {
        Some(e) => Some(*e),
        None => None,
    };
    let mut i: usize = 0;
    while i < nodes.len() && found.len() < k
        invariant
            0 <= i <= nodes@.len(),
            by_distance(found@, target@),
            found@.len() <= k,
            found@.len() >= old(found)@.len(),
            ex == (match exclude {
                Some(e) => Some(*e),
                None => None,
            }),
            collected(old(found)@, nodes@, 0, *target, ex, k as nat) == collected(
                found@,
                nodes@,
                i as int,
                *target,
                ex,
                k as nat,
            ),
            forall|m: Node| has_node(old(found)@, m) ==> has_node(found@, m),
            forall|m: Node|
                has_node(found@, m) ==> has_node(old(found)@, m) || (has_node(nodes@, m) && wanted(
                    m,
                    *target,
                    ex,
                )),
            forall|j: int|
                0 <= j < i && wanted(nodes@[j], *target, ex) ==> has_node(found@, nodes@[j]),
        decreases nodes@.len() - i,
    {
        let n = nodes[i];
        let skip = match exclude {
            Some(e) => n.same_home_as(e),
            None => false,
        };
        if !skip && !n.id.same(target) {
            proof {
                assert(has_node(nodes@, n));
            }
            insert_by_distance(found, n, target);
        }
        i += 1;
    }
    proof {
        if found@.len() < k {
            assert forall|m: Node| has_node(nodes@, m) && wanted(m, *target, ex) implies has_node(
                found@,
                m,
            ) by {
                let j = choose|j: int| 0 <= j < nodes@.len() && nodes@[j] == m;
            }
        }
    }
}

impl RoutingTable {
    /// Up to `k` live nodes near the node `node`, the nearest first; `k` is
    /// the size of a bucket where none is given. The node itself and the
    /// nodes that share a home with `exclude` are left out. The buckets are
    /// visited outward from the bucket of the node, in turn the next on the
    /// left and the next on the right, until `k` nodes are found; where
    /// fewer are found, they are all the live nodes that qualify.
    pub fn find_neighbours(&self, node: &Node, k: Option<usize>, exclude: Option<&Node>) -> (r:
        Vec<Node>)
        requires
            self.well_formed(),
        ensures
            r@ == neighbours(
                self.buckets@,
                node.id,
                match exclude {
                    Some(e) => Some(*e),
                    None => None,
                },
                (match k {
                    Some(k) => k,
                    None => self.ksize,
                }) as nat,
            ),
            r@.len() <= (match k {
                Some(k) => k,
                None => self.ksize,
            }),
            by_distance(r@, node.id@),
            forall|m: Node|
                has_node(r@, m) ==> is_live(self.buckets@, m) && wanted(
                    m,
                    node.id,
                    match exclude {
                        Some(e) => Some(*e),
                        None => None,
                    },
                ),
            r@.len() < (match k {
                Some(k) => k,
                None => self.ksize,
            }) ==> forall|m: Node|
                is_live(self.buckets@, m) && wanted(
                    m,
                    node.id,
                    match exclude {
                        Some(e) => Some(*e),
                        None => None,
                    },
                ) ==> has_node(r@, m),
    {
        let k: usize = match k {
            Some(k) => k,
            None => self.ksize,
        };
        let ghost ex: Option<Node> = match exclude {
            Some(e) => Some(*e),
            None => None,
        };
        let mut found: Vec<Node> = Vec::new();
        let b = self.bucket_index_of(&node.id);
        let count = self.buckets.len();
        proof {
            reveal(is_live);
            let c = bucket_of(self.buckets@, node.id.value());
            lemma_one_bucket(*self, c, b as int, node.id.value());
        }
        collect(&self.buckets[b].nodes, &node.id, exclude, k, &mut found);
        proof {
            assert forall|m: Node| has_node(found@, m) implies is_live(self.buckets@, m) && wanted(
                m,
                node.id,
                ex,
            ) by {
                assert(!has_node(Seq::<Node>::empty(), m));
                assert(has_node(self.buckets@[b as int].nodes@, m));
            }
        }
        let mut d: usize = 1;
        while (d <= b || d < count - b) && found.len() < k
            invariant
                1 <= d,
                b < count,
                count == self.buckets@.len(),
                neighbours(self.buckets@, node.id, ex, k as nat) == walked(
                    found@,
                    self.buckets@,
                    b as int,
                    d as int,
                    node.id,
                    ex,
                    k as nat,
                ),
                by_distance(found@, node.id@),
                found@.len() <= k,
                ex == (match exclude {
                    Some(e) => Some(*e),
                    None => None,
                }),
                forall|m: Node|
                    has_node(found@, m) ==> is_live(self.buckets@, m) && wanted(m, node.id, ex),
                found@.len() < k ==> forall|j: int, m: Node|
                    0 <= j < count && b - d < j < b + d && has_node(self.buckets@[j].nodes@, m)
                        && wanted(m, node.id, ex) ==> has_node(found@, m),
            decreases count + b - d,
        {
            let ghost start = found@;
            if d <= b {
                collect(&self.buckets[b - d].nodes, &node.id, exclude, k, &mut found);
            }
            let ghost mid = found@;
            if d < count - b {
                collect(&self.buckets[b + d].nodes, &node.id, exclude, k, &mut found);
            }
            proof {
                reveal(is_live);
                assert forall|m: Node| has_node(found@, m) implies is_live(self.buckets@, m)
                    && wanted(m, node.id, ex) by {
                    if has_node(mid, m) {
                        if !has_node(start, m) {
                            assert(has_node(self.buckets@[b - d].nodes@, m));
                        }
                    } else {
                        assert(has_node(self.buckets@[b + d].nodes@, m));
                    }
                }
                if found@.len() < k {
                    assert forall|j: int, m: Node|
                        0 <= j < count && b - (d + 1) < j < b + (d + 1) && has_node(
                            self.buckets@[j].nodes@,
                            m,
                        ) && wanted(m, node.id, ex) implies has_node(found@, m) by {
                        if j == b - d {
                            assert(has_node(mid, m));
                        } else if j == b + d {
                        } else {
                            assert(has_node(start, m));
                            assert(has_node(mid, m));
                        }
                    }
                }
            }
            d += 1;
        }
        proof {
            reveal(is_live);
            if found@.len() < k {
                assert forall|m: Node|
                    is_live(self.buckets@, m) && wanted(m, node.id, ex) implies has_node(
                    found@,
                    m,
                ) by {
                    let j = choose|j: int|
                        0 <= j < self.buckets@.len() && has_node(self.buckets@[j].nodes@, m);
                    assert(b - d < j < b + d);
                }
            }
        }
        found
    }
}

} // verus!
