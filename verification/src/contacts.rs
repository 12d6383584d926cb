//! The contacts of one bucket, kept sorted by id.

use crate::node::{Node, NodeId};
use vstd::prelude::*;

verus! {

/// The ids ascend strictly, so no id occurs twice.
pub open spec fn nodes_sorted(l: Seq<Node>) -> bool {
    forall|i: int, j: int| 0 <= i < j < l.len() ==> l[i].id.value() < l[j].id.value()
}

/// The place of the id that denotes `v` in a sorted list: every node before
/// it has a smaller id and no node from it on has.
pub open spec fn is_node_pos(l: Seq<Node>, v: nat, p: int) -> bool {
    &&& 0 <= p <= l.len()
    &&& forall|i: int| 0 <= i < p ==> l[i].id.value() < v
    &&& forall|i: int| p <= i < l.len() ==> l[i].id.value() >= v
}

/// The place of the id that denotes `v` (see `is_node_pos`).
pub open spec fn node_pos(l: Seq<Node>, v: nat) -> int {
    choose|p: int| is_node_pos(l, v, p)
}

/// Whether `l` holds a node with the id `id`.
pub open spec fn has_id(l: Seq<Node>, id: NodeId) -> bool {
    exists|i: int| 0 <= i < l.len() && l[i].id == id
}

/// Whether `l` holds the node `n`.
pub open spec fn has_node(l: Seq<Node>, n: Node) -> bool {
    exists|i: int| 0 <= i < l.len() && l[i] == n
}

/// The list with the node `n`: it replaces the node with its id, or is put
/// at its place.
pub open spec fn nodes_with(l: Seq<Node>, n: Node) -> Seq<Node> {
    let p = node_pos(l, n.id.value());
    if p < l.len() && l[p].id == n.id {
        l.update(p, n)
    } else {
        l.insert(p, n)
    }
}

/// The list without the node with the id `id`.
pub open spec fn nodes_without(l: Seq<Node>, id: NodeId) -> Seq<Node> {
    let p = node_pos(l, id.value());
    if p < l.len() && l[p].id == id {
        l.remove(p)
    } else {
        l
    }
}

/// The place of an id is unique.
pub proof fn lemma_node_pos_unique(l: Seq<Node>, v: nat, p: int)
    requires
        is_node_pos(l, v, p),
    ensures
        node_pos(l, v) == p,
{
    let q = node_pos(l, v);
    assert(is_node_pos(l, v, q));
    if q < p {
        assert(l[q].id.value() < v);
    } else if p < q {
        assert(l[p].id.value() < v);
    }
}

/// Two ids that denote the same number are the same.
pub proof fn lemma_id_value(a: NodeId, b: NodeId)
    ensures
        a.value() == b.value() <==> a == b,
{
    crate::bigend::lemma_be_value_order(a@, b@);
    if a@ == b@ {
        assert(a.data@ =~= b.data@);
        assert(a.data =~= b.data);
    }
}

/// What holds of a sorted list at the place of an id: the list holds the id
/// exactly if it stands at that place.
pub proof fn lemma_node_at_pos(l: Seq<Node>, id: NodeId, p: int)
    requires
        nodes_sorted(l),
        is_node_pos(l, id.value(), p),
    ensures
        has_id(l, id) == (p < l.len() && l[p].id == id),
{
    if has_id(l, id) {
        let i = choose|i: int| 0 <= i < l.len() && l[i].id == id;
        if i < p {
        } else if p < i {
            assert(l[p].id.value() < l[i].id.value());
        }
        lemma_id_value(l[p].id, id);
    }
}

/// Putting a node into a sorted list keeps it sorted; the list then holds
/// the node, and besides it the nodes with other ids that it held before.
pub proof fn lemma_nodes_with(l: Seq<Node>, n: Node, p: int)
    requires
        nodes_sorted(l),
        is_node_pos(l, n.id.value(), p),
    ensures
        nodes_sorted(nodes_with(l, n)),
        has_node(nodes_with(l, n), n),
        nodes_with(l, n).len() == if has_id(l, n.id) {
            l.len()
        } else {
            l.len() + 1
        },
        forall|m: Node| m.id != n.id ==> (has_node(nodes_with(l, n), m) <==> has_node(l, m)),
        forall|m: Node| has_node(nodes_with(l, n), m) ==> m == n || has_node(l, m),
{
    lemma_node_pos_unique(l, n.id.value(), p);
    lemma_node_at_pos(l, n.id, p);
    let r = nodes_with(l, n);
    let same = p < l.len() && l[p].id == n.id;
    assert(r[p] == n);
    assert forall|i: int, j: int| 0 <= i < j < r.len() implies r[i].id.value()
        < r[j].id.value() by {
        if same {
            assert(r[i].id == l[i].id && r[j].id == l[j].id);
        } else if j < p {
            assert(r[i] == l[i] && r[j] == l[j]);
        } else if j == p {
            assert(r[i] == l[i]);
        } else if i < p {
            assert(r[i] == l[i] && r[j] == l[j - 1]);
        } else if i == p {
            assert(r[j] == l[j - 1]);
            if l[j - 1].id.value() == n.id.value() {
                lemma_id_value(l[j - 1].id, n.id);
                if j - 1 > p {
                    assert(l[p].id.value() < l[j - 1].id.value());
                }
            }
        } else {
            assert(r[i] == l[i - 1] && r[j] == l[j - 1]);
        }
    }
    assert forall|m: Node| has_node(r, m) implies m == n || has_node(l, m) by {
        let i = choose|i: int| 0 <= i < r.len() && r[i] == m;
        if i != p {
            if same {
                assert(l[i] == m);
            } else if i < p {
                assert(l[i] == m);
            } else {
                assert(l[i - 1] == m);
            }
        }
    }
    assert forall|m: Node| m.id != n.id && has_node(l, m) implies has_node(r, m) by {
        let i = choose|i: int| 0 <= i < l.len() && l[i] == m;
        if same {
            assert(r[i] == m);
        } else if i < p {
            assert(r[i] == m);
        } else {
            assert(r[i + 1] == m);
        }
    }
}

/// Taking a node out of a sorted list keeps it sorted; the list then holds
/// the nodes with other ids that it held before, and no others.
pub proof fn lemma_nodes_without(l: Seq<Node>, id: NodeId, p: int)
    requires
        nodes_sorted(l),
        is_node_pos(l, id.value(), p),
    ensures
        nodes_sorted(nodes_without(l, id)),
        !has_id(nodes_without(l, id), id),
        nodes_without(l, id).len() == if has_id(l, id) {
            l.len() - 1
        } else {
            l.len() as int
        },
        forall|m: Node| has_node(nodes_without(l, id), m) <==> has_node(l, m) && m.id != id,
{
    lemma_node_pos_unique(l, id.value(), p);
    lemma_node_at_pos(l, id, p);
    let r = nodes_without(l, id);
    let same = p < l.len() && l[p].id == id;
    assert forall|i: int, j: int| 0 <= i < j < r.len() implies r[i].id.value()
        < r[j].id.value() by {
        if same {
            let i0 = if i < p {
                i
            } else {
                i + 1
            };
            let j0 = if j < p {
                j
            } else {
                j + 1
            };
            assert(r[i] == l[i0] && r[j] == l[j0]);
        }
    }
    assert forall|m: Node| has_node(r, m) implies has_node(l, m) && m.id != id by {
        let i = choose|i: int| 0 <= i < r.len() && r[i] == m;
        if same {
            let i0 = if i < p {
                i
            } else {
                i + 1
            };
            assert(l[i0] == m);
            if m.id == id {
                lemma_id_value(l[i0].id, l[p].id);
                if i0 < p {
                    assert(l[i0].id.value() < l[p].id.value());
                } else {
                    assert(l[p].id.value() < l[i0].id.value());
                }
            }
        } else {
            assert(l[i] == m);
            if m.id == id {
                assert(has_id(l, id));
            }
        }
    }
    assert forall|m: Node| has_node(l, m) && m.id != id implies has_node(r, m) by {
        let i = choose|i: int| 0 <= i < l.len() && l[i] == m;
        if same {
            if i < p {
                assert(r[i] == m);
            } else {
                assert(r[i - 1] == m);
            }
        }
    }
    if has_id(r, id) {
        let i = choose|i: int| 0 <= i < r.len() && r[i].id == id;
        assert(has_node(r, r[i]));
    }
}

/// The place of the id `id` in the sorted list `list`, by binary search.
pub fn locate_node(list: &Vec<Node>, id: &NodeId) -> (r: usize)
    requires
        nodes_sorted(list@),
    ensures
        is_node_pos(list@, id.value(), r as int),
        has_id(list@, *id) == (r < list@.len() && list@[r as int].id == *id),
{
    let mut lo: usize = 0;
    let mut hi: usize = list.len();
    while lo < hi
        invariant
            0 <= lo <= hi <= list@.len(),
            nodes_sorted(list@),
            forall|i: int| 0 <= i < lo ==> list@[i].id.value() < id.value(),
            forall|i: int| hi <= i < list@.len() ==> list@[i].id.value() >= id.value(),
        decreases hi - lo,
    {
        let mid: usize = lo + (hi - lo) / 2;
        if list[mid].id.lt(id) {
            proof {
                assert forall|i: int| 0 <= i < mid + 1 implies list@[i].id.value()
                    < id.value() by {
                    if i < mid {
                        assert(list@[i].id.value() < list@[mid as int].id.value());
                    }
                }
            }
            lo = mid + 1;
        } else {
            proof {
                assert forall|i: int| mid <= i < list@.len() implies list@[i].id.value()
                    >= id.value() by {
                    if i > mid {
                        assert(list@[mid as int].id.value() < list@[i].id.value());
                    }
                }
            }
            hi = mid;
        }
    }
    proof {
        lemma_node_at_pos(list@, *id, lo as int);
    }
    lo
}

/// Puts the node `n` into the sorted list `list`, in place of the node with
/// its id where there is one.
pub fn put_node(list: &mut Vec<Node>, n: Node)
    requires
        nodes_sorted(old(list)@),
    ensures
        final(list)@ == nodes_with(old(list)@, n),
        nodes_sorted(final(list)@),
{
    let i = locate_node(list, &n.id);
    proof {
        lemma_nodes_with(list@, n, i as int);
        lemma_node_pos_unique(list@, n.id.value(), i as int);
    }
    if i < list.len() && list[i].id.same(&n.id) {
        list[i] = n;
    } else {
        list.insert(i, n);
    }
}

/// Takes the node with the id `id` out of the sorted list `list`, and says
/// whether there was one.
pub fn take_node(list: &mut Vec<Node>, id: &NodeId) -> (r: bool)
    requires
        nodes_sorted(old(list)@),
    ensures
        final(list)@ == nodes_without(old(list)@, *id),
        nodes_sorted(final(list)@),
        r == has_id(old(list)@, *id),
{
    let i = locate_node(list, id);
    proof {
        lemma_nodes_without(list@, *id, i as int);
        lemma_node_pos_unique(list@, id.value(), i as int);
    }
    if i < list.len() && list[i].id.same(id) {
        list.remove(i);
        true
    } else {
        false
    }
}

} // verus!
