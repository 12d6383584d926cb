//! Nodes of the overlay and the XOR metric between their ids.

use crate::detail::SocketAddress;
use crate::sha1::Sha1Hash;
use vstd::arithmetic::power2::pow2;
use vstd::prelude::*;

verus! {

/// The id of a node.
pub type NodeId = Sha1Hash;

/// A node: its id and, where it is known, the endpoint it is reached at.
#[derive(Debug, Clone, Copy, PartialEq, Eq)]
pub struct Node {
    pub id: NodeId,
    pub endpoint: Option<SocketAddress>,
}

/// The bytes of the XOR distance between two ids.
pub open spec fn xor_bytes(a: Seq<u8>, b: Seq<u8>) -> Seq<u8> {
    Seq::new(20, |i: int| a[i] ^ b[i])
}

/// The exponent of the distance between two ids: `max(0, 159 - z)` where `z`
/// is the number of leading zero bits of their XOR distance.
pub open spec fn distance_exp_of(a: Seq<u8>, b: Seq<u8>) -> nat {
    let z = crate::sha1::leading_zero_bits(xor_bytes(a, b), 0);
    if z >= 159 {
        0
    } else {
        (159 - z) as nat
    }
}

/// The least exponent of the distance from `a` to one of `ids`, and 160
/// where there is none.
pub open spec fn min_distance_exp_of(a: Seq<u8>, ids: Seq<NodeId>) -> nat
    decreases ids.len(),
{
    if ids.len() == 0 {
        160
    } else {
        let rest = min_distance_exp_of(a, ids.drop_last());
        let d = distance_exp_of(a, ids.last()@);
        if d < rest {
            d
        } else {
            rest
        }
    }
}

/// The XOR distance between two ids.
pub fn distance(n1: &NodeId, n2: &NodeId) -> (r: NodeId)
    ensures
        r@ == xor_bytes(n1@, n2@),
{
    let r = n1.bitxor(n2);
    proof {
        assert(r@ =~= xor_bytes(n1@, n2@));
    }
    r
}

/// The exponent `n` of the distance between two ids: for two different ids
/// `2^n <= distance < 2^(n+1)`, and for one id twice it is zero.
pub fn distance_exp(n1: &NodeId, n2: &NodeId) -> (r: usize)
    ensures
        r == distance_exp_of(n1@, n2@),
        r <= 159,
        n1@ != n2@ ==> pow2(r as nat) <= be_distance(n1@, n2@) < pow2((r + 1) as nat),
{
    let d = distance(n1, n2);
    let z = d.leading_zeros();
    proof {
        if n1@ != n2@ {
            lemma_distance_zero(n1@, n2@);
        }
    }
    if z >= 159 {
        proof {
            if z == 160 {
                vstd::arithmetic::power2::lemma2_to64();
            }
        }
        0
    } else {
        159 - z
    }
}

/// The XOR distance between two ids as a number.
pub open spec fn be_distance(a: Seq<u8>, b: Seq<u8>) -> nat {
    crate::bigend::be_value(xor_bytes(a, b))
}

/// Two different ids are at a distance that is not zero.
pub proof fn lemma_distance_zero(a: Seq<u8>, b: Seq<u8>)
    requires
        a.len() == 20,
        b.len() == 20,
        a != b,
    ensures
        be_distance(a, b) != 0,
{
    let d = xor_bytes(a, b);
    let z = Seq::new(20, |i: int| 0u8);
    if d == z {
        assert forall|i: int| 0 <= i < 20 implies a[i] == b[i] by {
            let x = a[i];
            let y = b[i];
            assert(d[i] == x ^ y);
            assert(z[i] == 0);
            assert(x ^ y == 0 ==> x == y) by (bit_vector);
        }
        assert(a =~= b);
    }
    crate::bigend::lemma_be_value_zeros(z);
    crate::bigend::lemma_be_value_order(d, z);
}

/// The least exponent of the distance from `n1` to one of `ids`, and 160
/// where `ids` is empty.
pub fn min_distance_exp(n1: &NodeId, ids: &[NodeId]) -> (r: usize)
    ensures
        r == min_distance_exp_of(n1@, ids@),
        r <= 160,
{
    let mut min: usize = 160;
    let mut i: usize = 0;
    proof {
        assert(ids@.take(0) =~= Seq::<NodeId>::empty());
    }
    while i < ids.len()
        invariant
            0 <= i <= ids@.len(),
            min == min_distance_exp_of(n1@, ids@.take(i as int)),
            min <= 160,
        decreases ids@.len() - i,
    {
        let d = distance_exp(n1, &ids[i]);
        proof {
            assert(ids@.take(i + 1).drop_last() =~= ids@.take(i as int));
            assert(ids@.take(i + 1).last() == ids@[i as int]);
        }
        if d < min {
            min = d;
        }
        i += 1;
    }
    proof {
        assert(ids@.take(ids@.len() as int) =~= ids@);
    }
    min
}

impl Node {
    /// A node with an endpoint.
    pub fn new(id: NodeId, endpoint: SocketAddress) -> (r: Node)
        ensures
            r == (Node { id, endpoint: Some(endpoint) }),
    {
        Node { id, endpoint: Some(endpoint) }
    }

    /// A node of which only the id is known.
    pub fn with_id(id: NodeId) -> (r: Node)
        ensures
            r == (Node { id, endpoint: None }),
    {
        Node { id, endpoint: None }
    }

    /// The endpoint, where it is known.
    pub fn socket_addr(&self) -> (r: Option<SocketAddress>)
        ensures
            r == self.endpoint,
    {
        self.endpoint
    }

    /// Whether both nodes are reached at the same endpoint. Two nodes
    /// without endpoint share a home too.
    pub fn same_home_as(&self, other: &Node) -> (r: bool)
        ensures
            r == (self.endpoint == other.endpoint),
    {
        match (&self.endpoint, &other.endpoint) {
            (Some(a), Some(b)) => a.same(b),
            (None, None) => true,
            _ => false,
        }
    }

    /// The XOR distance between the ids of the two nodes.
    pub fn dist_to(&self, other: &Node) -> (r: NodeId)
        ensures
            r@ == xor_bytes(self.id@, other.id@),
    {
        distance(&self.id, &other.id)
    }
}

} // verus!
