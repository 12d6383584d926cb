//! The search for data: a traversal that also keeps, by the id of the node
//! that answered, the write tokens that the nodes hand out and the peers or
//! the item that they answer with, for the announce or the put that follows.

use crate::detail::SocketAddress;
use crate::model::{dict_get, lemma_dict_sorted, Bencode};
use crate::node::{Node, NodeId};
use crate::state::{endpoint_strings, endpoints_packed, read_endpoint_list};
use crate::traversal_algorithm::Traversal;
use crate::value_ref::ValueRef;
use vstd::prelude::*;
use vstd::string::StringSliceAdditionalSpecFns;
use vstd::utf8::{encode_utf8, valid_utf8};

verus! {

/// What a node has answered a search with.
#[derive(Debug, PartialEq)]
pub enum Found {
    /// The peers of a torrent.
    Peers(Vec<SocketAddress>),
    /// The wire form of the value of an item.
    Item(Vec<u8>),
}

/// A search for data.
pub struct FindData {
    /// The search from node to node.
    pub traversal: Traversal,
    /// The write token that each node has handed out, by the id of the
    /// node.
    pub tokens: Vec<(NodeId, String)>,
    /// What each node has answered with, by the id of the node.
    pub found: Vec<(NodeId, Found)>,
}

/// The write token that a reply holds: the text under `token`.
pub open spec fn reply_token(reply: Bencode) -> Option<Seq<u8>> {
    match reply {
        Bencode::Dict(d) => match dict_get(d, "token".spec_bytes()) {
            Some(Bencode::Bytes(t)) => if valid_utf8(t) {
                Some(t)
            } else {
                None
            },
            _ => None,
        },
        _ => None,
    }
}

/// Whether `x` is what a reply answers with: the peers whose compact forms
/// stand in the list under `values`; without such a list the wire form of
/// the value under `v`; and nothing where the reply holds neither.
pub open spec fn answers(reply: Bencode, x: Option<Found>) -> bool {
    match reply {
        Bencode::Dict(d) => match dict_get(d, "values".spec_bytes()) {
            Some(Bencode::List(l)) => x matches Some(Found::Peers(p)) && endpoints_packed(p@)
                == endpoint_strings(l, l.len() as int),
            _ => match dict_get(d, "v".spec_bytes()) {
                Some(v) => x matches Some(Found::Item(b)) && b@ == v.encoding(),
                None => x is None,
            },
        },
        _ => x is None,
    }
}

/// What is kept under the id `id`: the first entry that stands under the
/// id.
pub open spec fn kept_of<T>(kept: Seq<(NodeId, T)>, id: NodeId) -> Option<T> {
    if exists|i: int| 0 <= i < kept.len() && kept[i].0 == id {
        Some(kept[first_kept(kept, id)].1)
    } else {
        None
    }
}

/// The place of the first entry under the id `id`.
pub open spec fn first_kept<T>(kept: Seq<(NodeId, T)>, id: NodeId) -> int {
    choose|i: int| is_first_kept(kept, id, i)
}

/// `i` is the place of the first entry under the id `id`.
pub open spec fn is_first_kept<T>(kept: Seq<(NodeId, T)>, id: NodeId, i: int) -> bool {
    &&& 0 <= i < kept.len()
    &&& kept[i].0 == id
    &&& forall|j: int| 0 <= j < i ==> kept[j].0 != id
}

/// The first `upto` of `nodes` that have handed out a token, each with its
/// token.
pub open spec fn with_tokens(nodes: Seq<Node>, tokens: Seq<(NodeId, String)>, upto: int) -> Seq<
    (Node, String),
>
    decreases upto,
{
    if upto <= 0 {
        Seq::empty()
    } else {
        let rest = with_tokens(nodes, tokens, upto - 1);
        match kept_of(tokens, nodes[upto - 1].id) {
            Some(t) => rest.push((nodes[upto - 1], t)),
            None => rest,
        }
    }
}

/// The first place is unique.
pub proof fn lemma_first_kept<T>(kept: Seq<(NodeId, T)>, id: NodeId, i: int)
    requires
        is_first_kept(kept, id, i),
    ensures
        first_kept(kept, id) == i,
        kept_of(kept, id) == Some(kept[i].1),
{
    let c = first_kept(kept, id);
    assert(is_first_kept(kept, id, c));
    if c < i {
    } else if i < c {
    }
}

/// The place of the first entry under the id `id`.
fn find_kept<T>(kept: &Vec<(NodeId, T)>, id: &NodeId) -> (r: Option<usize>)
    ensures
        match r {
            Some(i) => is_first_kept(kept@, *id, i as int),
            None => kept_of(kept@, *id).is_none(),
        },
{
    let mut i: usize = 0;
    while i < kept.len()
        invariant
            0 <= i <= kept@.len(),
            forall|j: int| 0 <= j < i ==> kept@[j].0 != *id,
        decreases kept@.len() - i,
    {
        if kept[i].0.same(id) {
            return Some(i);
        }
        i += 1;
    }
    None
}

impl FindData {
    /// The traversal is well formed.
    pub open spec fn well_formed(&self) -> bool {
        self.traversal.well_formed()
    }

    /// A search for the data under `target` that wants `k` nodes and keeps
    /// up to `branching` queries outstanding.
    pub fn new(target: NodeId, k: usize, branching: usize) -> (r: FindData)
        ensures
            r.well_formed(),
            r.traversal.target == target,
            r.traversal.k == k,
            r.traversal.branching == branching,
            r.traversal.observers@.len() == 0,
            r.traversal.in_flight == 0,
            !r.traversal.aborted,
            r.tokens@.len() == 0,
            r.found@.len() == 0,
    {
        FindData {
            traversal: Traversal::new(target, k, branching),
            tokens: Vec::new(),
            found: Vec::new(),
        }
    }

    /// What the search is called.
    pub fn name(&self) -> (r: &'static str)
        ensures
            r@ == "find_data"@,
    {
        "find_data"
    }

    /// Starts the search with the nodes that the routing table names as the
    /// neighbours of the target.
    pub fn start(&mut self, seeds: &Vec<Node>)
        requires
            old(self).well_formed(),
        ensures
            final(self).well_formed(),
            final(self).tokens == old(self).tokens,
            final(self).found == old(self).found,
            final(self).traversal.target == old(self).traversal.target,
            final(self).traversal.k == old(self).traversal.k,
            final(self).traversal.branching == old(self).traversal.branching,
            final(self).traversal.in_flight == old(self).traversal.in_flight,
            final(self).traversal.aborted == old(self).traversal.aborted,
            final(self).traversal.observers@ == crate::traversal_algorithm::all_taken_in(
                old(self).traversal.observers@,
                seeds@,
                seeds@.len() as int,
                true,
                old(self).traversal.target,
            ),
    {
        self.traversal.start(seeds);
    }

    /// Keeps the write token that the node with the id `n` has handed out,
    /// in place of an earlier one of that node.
    pub fn got_write_token(&mut self, n: &NodeId, write_token: String)
        ensures
            final(self).traversal == old(self).traversal,
            final(self).found == old(self).found,
            kept_of(final(self).tokens@, *n) == Some(write_token),
            forall|id: NodeId| id != *n ==> kept_of(final(self).tokens@, id) == kept_of(
                old(self).tokens@,
                id,
            ),
    {
        let ghost before = self.tokens@;
        match find_kept(&self.tokens, n) {
            Some(i) => {
                self.tokens[i] = (*n, write_token);
                proof {
                    let after = self.tokens@;
                    lemma_first_kept(after, *n, i as int);
                    assert forall|id: NodeId| id != *n implies kept_of(after, id) == kept_of(
                        before,
                        id,
                    ) by {
                        lemma_other_kept(before, after, id);
                    }
                }
            },
            None => {
                self.tokens.push((*n, write_token));
                proof {
                    let after = self.tokens@;
                    lemma_first_kept(after, *n, after.len() - 1);
                    assert forall|id: NodeId| id != *n implies kept_of(after, id) == kept_of(
                        before,
                        id,
                    ) by {
                        lemma_pushed_kept(before, (*n, write_token), id);
                    }
                }
            },
        }
    }

    /// Keeps what the node with the id `n` has answered with, in place of
    /// an earlier answer of that node.
    pub fn got_data(&mut self, n: &NodeId, data: Found)
        ensures
            final(self).traversal == old(self).traversal,
            final(self).tokens == old(self).tokens,
            kept_of(final(self).found@, *n) == Some(data),
            forall|id: NodeId| id != *n ==> kept_of(final(self).found@, id) == kept_of(
                old(self).found@,
                id,
            ),
    {
        let ghost before = self.found@;
        match find_kept(&self.found, n) {
            Some(i) => {
                self.found[i] = (*n, data);
                proof {
                    let after = self.found@;
                    lemma_first_kept(after, *n, i as int);
                    assert forall|id: NodeId| id != *n implies kept_of(after, id) == kept_of(
                        before,
                        id,
                    ) by {
                        lemma_other_kept(before, after, id);
                    }
                }
            },
            None => {
                self.found.push((*n, data));
                proof {
                    let after = self.found@;
                    lemma_first_kept(after, *n, after.len() - 1);
                    assert forall|id: NodeId| id != *n implies kept_of(after, id) == kept_of(
                        before,
                        id,
                    ) by {
                        lemma_pushed_kept(before, (*n, data), id);
                    }
                }
            },
        }
    }

    /// What the node with the id `n` has answered with, if it has.
    pub fn data_of(&self, n: &NodeId) -> (r: Option<&Found>)
        ensures
            match kept_of(self.found@, *n) {
                Some(x) => r.is_some() && *r.unwrap() == x,
                None => r.is_none(),
            },
    {
        match find_kept(&self.found, n) {
            Some(i) => {
                proof {
                    lemma_first_kept(self.found@, *n, i as int);
                }
                Some(&self.found[i].1)
            },
            None => None,
        }
    }

    /// The write token that the node with the id `n` has handed out, if it
    /// has.
    pub fn token_of(&self, n: &NodeId) -> (r: Option<&String>)
        ensures
            match kept_of(self.tokens@, *n) {
                Some(x) => r.is_some() && *r.unwrap() == x,
                None => r.is_none(),
            },
    {
        match find_kept(&self.tokens, n) {
            Some(i) => {
                proof {
                    lemma_first_kept(self.tokens@, *n, i as int);
                }
                Some(&self.tokens[i].1)
            },
            None => None,
        }
    }

    /// Takes from the reply of the node with the id `n` what the step after
    /// the search needs: the write token, and the peers or else the item
    /// that the node answers with. What the reply does not hold stays as it
    /// was.
    pub fn harvest(&mut self, n: &NodeId, reply: &ValueRef)
        requires
            reply@.sorted(),
        ensures
            final(self).traversal == old(self).traversal,
            match reply_token(reply@) {
                Some(t) => kept_of(final(self).tokens@, *n) matches Some(s) && encode_utf8(s@)
                    == t,
                None => final(self).tokens == old(self).tokens,
            },
            forall|id: NodeId| id != *n ==> kept_of(final(self).tokens@, id) == kept_of(
                old(self).tokens@,
                id,
            ),
            if answers(reply@, None) {
                final(self).found == old(self).found
            } else {
                answers(reply@, kept_of(final(self).found@, *n))
            },
            forall|id: NodeId| id != *n ==> kept_of(final(self).found@, id) == kept_of(
                old(self).found@,
                id,
            ),
    {
        match reply.dict_find_str_value("token") {
            Some(t) => {
                self.got_write_token(n, t.to_owned());
            },
            None => {},
        }
        match reply.dict_find_list_value("values") {
            Some(list) => {
                let peers = read_endpoint_list(list);
                self.got_data(n, Found::Peers(peers));
            },
            None => match reply.dict_find("v") {
                Some(v) => {
                    proof {
                        let d = reply@->Dict_0;
                        lemma_dict_sorted(d);
                        lemma_held_in_range(d, "v".spec_bytes());
                    }
                    let body = v.to_vec();
                    self.got_data(n, Found::Item(body));
                },
                None => {},
            },
        }
    }

    /// The nodes that have answered and handed out a token, the nearest
    /// first, each with its token: where the data is announced or put.
    pub fn find_data(&self) -> (r: Vec<(Node, String)>)
        ensures
            r@ == with_tokens(
                self.traversal.closest_spec(),
                self.tokens@,
                self.traversal.closest_spec().len() as int,
            ),
    {
        let nodes = self.traversal.closest();
        let mut out: Vec<(Node, String)> = Vec::new();
        let mut i: usize = 0;
        while i < nodes.len()
            invariant
                0 <= i <= nodes@.len(),
                out@ == with_tokens(nodes@, self.tokens@, i as int),
            decreases nodes@.len() - i,
        {
            match find_kept(&self.tokens, &nodes[i].id) {
                Some(j) => {
                    proof {
                        lemma_first_kept(self.tokens@, nodes@[i as int].id, j as int);
                    }
                    out.push((nodes[i], self.tokens[j].1.clone()));
                },
                None => {},
            }
            i += 1;
        }
        out
    }

    /// Whether the search has come to its end.
    pub fn done(&self) -> (r: bool)
        requires
            self.well_formed(),
        ensures
            r == (self.traversal.aborted || (self.traversal.in_flight == 0
                && crate::traversal_algorithm::next_fresh(
                self.traversal.observers@,
                0,
                self.traversal.k as nat,
            ).is_none())),
    {
        self.traversal.done()
    }
}

/// Where a dictionary holds a key, the place that `dict_index` names is one
/// of its places.
pub proof fn lemma_held_in_range(d: Seq<(Seq<u8>, Bencode)>, k: Seq<u8>)
    requires
        crate::model::dict_index(d, k).is_some(),
    ensures
        0 <= crate::model::dict_index(d, k).unwrap() < d.len(),
        d[crate::model::dict_index(d, k).unwrap()].0 == k,
    decreases d.len(),
{
    let w = choose|i: int| 0 <= i < d.len() && #[trigger] d[i].0 == k;
    lemma_first_exists(d, k, w);
    let c = choose|i: int| crate::model::is_first_with_key(d, k, i);
    assert(crate::model::is_first_with_key(d, k, c));
}

/// Where a dictionary holds a key, it holds it at a first place.
pub proof fn lemma_first_exists(d: Seq<(Seq<u8>, Bencode)>, k: Seq<u8>, w: int)
    requires
        0 <= w < d.len(),
        d[w].0 == k,
    ensures
        exists|i: int| crate::model::is_first_with_key(d, k, i),
    decreases w,
{
    if forall|j: int| 0 <= j < w ==> #[trigger] d[j].0 != k {
        assert(crate::model::is_first_with_key(d, k, w));
    } else {
        let j = choose|j: int| 0 <= j < w && #[trigger] d[j].0 == k;
        lemma_first_exists(d, k, j);
    }
}

/// What is kept under other ids stays what it is when the entry at one
/// place is replaced by another under the same id.
pub proof fn lemma_other_kept<T>(before: Seq<(NodeId, T)>, after: Seq<(NodeId, T)>, id: NodeId)
    requires
        before.len() == after.len(),
        forall|j: int| 0 <= j < before.len() ==> before[j].0 == after[j].0,
        forall|j: int| 0 <= j < before.len() && before[j].0 == id ==> before[j] == after[j],
    ensures
        kept_of(after, id) == kept_of(before, id),
{
    if exists|i: int| 0 <= i < before.len() && before[i].0 == id {
        let i = first_kept(before, id);
        let w = choose|i: int| 0 <= i < before.len() && before[i].0 == id;
        lemma_least_kept(before, id, w);
        assert(is_first_kept(before, id, i));
        assert(after[i].0 == id);
        assert(is_first_kept(after, id, i)) by {
            assert forall|j: int| 0 <= j < i implies after[j].0 != id by {
                assert(before[j].0 == after[j].0);
            }
        }
        lemma_first_kept(after, id, i);
    } else {
        if exists|i: int| 0 <= i < after.len() && after[i].0 == id {
            let w = choose|i: int| 0 <= i < after.len() && after[i].0 == id;
            assert(before[w].0 == id);
        }
    }
}

/// Where something is kept under an id, there is a first such entry.
pub proof fn lemma_least_kept<T>(kept: Seq<(NodeId, T)>, id: NodeId, w: int)
    requires
        0 <= w < kept.len(),
        kept[w].0 == id,
    ensures
        is_first_kept(kept, id, first_kept(kept, id)),
    decreases w,
{
    if forall|j: int| 0 <= j < w ==> kept[j].0 != id {
        assert(is_first_kept(kept, id, w));
    } else {
        let j = choose|j: int| 0 <= j < w && kept[j].0 == id;
        lemma_least_kept(kept, id, j);
    }
}

/// What is kept under other ids stays what it is when an entry is added.
pub proof fn lemma_pushed_kept<T>(before: Seq<(NodeId, T)>, e: (NodeId, T), id: NodeId)
    requires
        id != e.0,
    ensures
        kept_of(before.push(e), id) == kept_of(before, id),
{
    let after = before.push(e);
    if exists|i: int| 0 <= i < before.len() && before[i].0 == id {
        let w = choose|i: int| 0 <= i < before.len() && before[i].0 == id;
        lemma_least_kept(before, id, w);
        let i = first_kept(before, id);
        assert(after[i] == before[i]);
        assert(is_first_kept(after, id, i)) by {
            assert forall|j: int| 0 <= j < i implies after[j].0 != id by {
                assert(after[j] == before[j]);
            }
        }
        lemma_first_kept(after, id, i);
    } else {
        if exists|i: int| 0 <= i < after.len() && after[i].0 == id {
            let w = choose|i: int| 0 <= i < after.len() && after[i].0 == id;
            if w < before.len() {
                assert(before[w] == after[w]);
            }
        }
    }
}

} // verus!
