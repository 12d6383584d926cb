//! The snapshot of a node's state: its ids and the nodes it knows.

use crate::detail::{
    read_v4_address, read_v4_socket_address, read_v6_address, read_v6_socket_address,
    write_address, write_socket_addr, IpAddress, SocketAddress,
};
use crate::error::Error;
use crate::model::{
    dict_get, dict_insert, keys_sorted, lemma_dict_insert_other, lemma_dict_insert_sorted, Bencode,
};
use crate::node::NodeId;
use crate::sha1::Sha1Hash;
use crate::value::{values_view, Value};
use crate::value_ref::ValueRef;
use vstd::prelude::*;
use vstd::string::StringSliceAdditionalSpecFns;

verus! {

/// What a node keeps between two runs: the id it used on each network, and
/// the endpoints of the nodes it knew, those with an IPv4 address apart from
/// those with an IPv6 address.
#[derive(Debug, Default, PartialEq, Eq)]
pub struct DhtState {
    pub nids: Vec<(IpAddress, NodeId)>,
    pub nodes: Vec<SocketAddress>,
    pub nodes6: Vec<SocketAddress>,
}

/// The wire form of an id on a network: the twenty bytes of the id, then
/// the octets of the address.
pub open spec fn nid_bytes(e: (IpAddress, NodeId)) -> Seq<u8> {
    e.1@ + e.0.octets()
}

/// The byte strings among the first `upto` items of `list` that are as long
/// as the wire form of an id on a network is.
pub open spec fn nid_strings(list: Seq<Bencode>, upto: int) -> Seq<Seq<u8>>
    decreases upto,
{
    if upto <= 0 {
        Seq::empty()
    } else {
        let rest = nid_strings(list, upto - 1);
        match list[upto - 1] {
            Bencode::Bytes(s) => if s.len() == 24 || s.len() == 36 {
                rest.push(s)
            } else {
                rest
            },
            _ => rest,
        }
    }
}

/// The byte strings among the first `upto` items of `list` that are as long
/// as the compact form of an endpoint is.
pub open spec fn endpoint_strings(list: Seq<Bencode>, upto: int) -> Seq<Seq<u8>>
    decreases upto,
{
    if upto <= 0 {
        Seq::empty()
    } else {
        let rest = endpoint_strings(list, upto - 1);
        match list[upto - 1] {
            Bencode::Bytes(s) => if s.len() == 6 || s.len() == 18 {
                rest.push(s)
            } else {
                rest
            },
            _ => rest,
        }
    }
}

/// The wire forms of ids on networks.
pub open spec fn nids_packed(ids: Seq<(IpAddress, NodeId)>) -> Seq<Seq<u8>> {
    Seq::new(ids.len(), |i: int| nid_bytes(ids[i]))
}

/// The compact forms of endpoints.
pub open spec fn endpoints_packed(nodes: Seq<SocketAddress>) -> Seq<Seq<u8>> {
    Seq::new(nodes.len(), |i: int| nodes[i].packed())
}

/// Byte strings as values.
pub open spec fn byte_values(strings: Seq<Seq<u8>>) -> Seq<Bencode> {
    Seq::new(strings.len(), |i: int| Bencode::Bytes(strings[i]))
}

/// What `extract_node_ids` reads from a value under a key: a byte string of
/// twenty bytes is an id on the IPv4 loopback network; of a list the byte
/// strings of 24 and of 36 bytes are read, each as an id followed by an
/// address; anything else holds no id.
pub open spec fn node_ids_read(v: Bencode, key: Seq<u8>, ids: Seq<(IpAddress, NodeId)>) -> bool {
    match v {
        Bencode::Dict(d) => match dict_get(d, key) {
            Some(Bencode::Bytes(s)) => if s.len() == 20 {
                ids.len() == 1 && ids[0].0 == IpAddress::V4([127u8, 0u8, 0u8, 1u8]) && ids[0].1@
                    == s
            } else {
                ids.len() == 0
            },
            Some(Bencode::List(l)) => nids_packed(ids) == nid_strings(l, l.len() as int),
            _ => ids.len() == 0,
        },
        _ => ids.len() == 0,
    }
}

/// What `read` takes as the known nodes from a value under a key: the
/// endpoints whose compact forms stand in the list there.
pub open spec fn endpoints_read(v: Bencode, key: Seq<u8>, nodes: Seq<SocketAddress>) -> bool {
    match v {
        Bencode::Dict(d) => match dict_get(d, key) {
            Some(Bencode::List(l)) => endpoints_packed(nodes) == endpoint_strings(
                l,
                l.len() as int,
            ),
            _ => nodes.len() == 0,
        },
        _ => nodes.len() == 0,
    }
}

/// The ids that a node used, as a value under the key `key` holds them.
pub fn extract_node_ids(value: &ValueRef, key: &str) -> (r: Result<Vec<(IpAddress, NodeId)>, Error>)
    ensures
        r.is_ok(),
        node_ids_read(value@, key.spec_bytes(), r.unwrap()@),
{
    let mut ids: Vec<(IpAddress, NodeId)> = Vec::new();
    let v = match value.dict_find(key) {
        Some(v) => v,
        None => {
            return Ok(ids);
        },
    };
    match v {
        ValueRef::Bytes(old_nid) => {
            if old_nid.len() == 20 {
                ids.push((IpAddress::localhost(), Sha1Hash::from_bytes(old_nid)));
            }
            Ok(ids)
        },
        ValueRef::List(list) => {
            proof {
                crate::value_ref::lemma_list_view(*list);
            }
            let ghost lm = crate::value_ref::values_view(list@);
            let mut i: usize = 0;
            while i < list.len()
                invariant
                    0 <= i <= list@.len(),
                    lm == crate::value_ref::values_view(list@),
                    nids_packed(ids@) == nid_strings(lm, i as int),
                decreases list@.len() - i,
            {
                let ghost before = ids@;
                match &list[i] {
                    ValueRef::Bytes(s) => {
                        if s.len() == 24 {
                            let id = Sha1Hash::from_bytes(vstd::slice::slice_subrange(s, 0, 20));
                            let addr = read_v4_address(vstd::slice::slice_subrange(s, 20, 24));
                            match addr {
                                Some(a) => {
                                    ids.push((a, id));
                                    proof {
                                        assert(nid_bytes((a, id)) =~= s@);
                                        assert(nids_packed(ids@) =~= nids_packed(before).push(s@));
                                    }
                                },
                                None => {},
                            }
                        } else if s.len() == 36 {
                            let id = Sha1Hash::from_bytes(vstd::slice::slice_subrange(s, 0, 20));
                            let addr = read_v6_address(vstd::slice::slice_subrange(s, 20, 36));
                            match addr {
                                Some(a) => {
                                    ids.push((a, id));
                                    proof {
                                        assert(nid_bytes((a, id)) =~= s@);
                                        assert(nids_packed(ids@) =~= nids_packed(before).push(s@));
                                    }
                                },
                                None => {},
                            }
                        }
                    },
                    _ => {},
                }
                i += 1;
            }
            Ok(ids)
        },
        _ => Ok(ids),
    }
}

/// The endpoints whose compact forms stand in `values`.
pub fn read_endpoint_list(values: &[ValueRef]) -> (r: Vec<SocketAddress>)
    ensures
        endpoints_packed(r@) == endpoint_strings(
            crate::value_ref::values_view(values@),
            values@.len() as int,
        ),
{
    let ghost lm = crate::value_ref::values_view(values@);
    let mut list: Vec<SocketAddress> = Vec::new();
    let mut i: usize = 0;
    while i < values.len()
        invariant
            0 <= i <= values@.len(),
            lm == crate::value_ref::values_view(values@),
            endpoints_packed(list@) == endpoint_strings(lm, i as int),
        decreases values@.len() - i,
    {
        let ghost before = list@;
        match &values[i] {
            ValueRef::Bytes(s) => {
                if s.len() == 6 {
                    match read_v4_socket_address(s) {
                        Some(a) => {
                            list.push(a);
                            proof {
                                assert(s@.take(6) =~= s@);
                                assert(endpoints_packed(list@) =~= endpoints_packed(before).push(
                                    s@,
                                ));
                            }
                        },
                        None => {},
                    }
                } else if s.len() == 18 {
                    match read_v6_socket_address(s) {
                        Some(a) => {
                            list.push(a);
                            proof {
                                assert(s@.take(18) =~= s@);
                                assert(endpoints_packed(list@) =~= endpoints_packed(before).push(
                                    s@,
                                ));
                            }
                        },
                        None => {},
                    }
                }
            },
            _ => {},
        }
        i += 1;
    }
    list
}

/// The list of the compact forms of `nodes`.
pub fn save_nodes(nodes: &[SocketAddress]) -> (r: Value)
    ensures
        r@ == Bencode::List(byte_values(endpoints_packed(nodes@))),
        r@.sorted(),
{
    let mut list: Vec<Value> = Vec::new();
    let mut i: usize = 0;
    while i < nodes.len()
        invariant
            0 <= i <= nodes@.len(),
            list@.len() == i,
            forall|j: int| 0 <= j < i
                ==> (#[trigger] list@[j])@ == Bencode::Bytes(nodes@[j].packed()),
        decreases nodes@.len() - i,
    {
        let mut v: Vec<u8> = Vec::new();
        write_socket_addr(&mut v, &nodes[i]);
        list.push(Value::Bytes(v));
        i += 1;
    }
    proof {
        assert(values_view(list@) =~= byte_values(endpoints_packed(nodes@)));
    }
    Value::with_list(list)
}

/// The entries of the dictionary that `save` makes of a state: under
/// `node-id` the ids, under `nodes` and `nodes6` the endpoints, each only
/// where there is something to save.
pub open spec fn saved_state(
    nids: Seq<(IpAddress, NodeId)>,
    nodes: Seq<SocketAddress>,
    nodes6: Seq<SocketAddress>,
) -> Seq<(Seq<u8>, Bencode)> {
    let d0 = Seq::<(Seq<u8>, Bencode)>::empty();
    let d1 = if nids.len() > 0 {
        dict_insert(d0, "node-id".spec_bytes(), Bencode::List(byte_values(nids_packed(nids))))
    } else {
        d0
    };
    let d2 = if nodes.len() > 0 {
        dict_insert(d1, "nodes".spec_bytes(), Bencode::List(byte_values(endpoints_packed(nodes))))
    } else {
        d1
    };
    if nodes6.len() > 0 {
        dict_insert(
            d2,
            "nodes6".spec_bytes(),
            Bencode::List(byte_values(endpoints_packed(nodes6))),
        )
    } else {
        d2
    }
}

impl DhtState {
    /// A state that holds nothing.
    pub fn new() -> (r: DhtState)
        ensures
            r.nids@.len() == 0,
            r.nodes@.len() == 0,
            r.nodes6@.len() == 0,
    {
        DhtState { nids: Vec::new(), nodes: Vec::new(), nodes6: Vec::new() }
    }

    /// The state that the dictionary `value` holds: the ids under
    /// `node-id`, the endpoints under `nodes` and under `nodes6`. Anything
    /// but a dictionary holds nothing.
    pub fn read(value: &ValueRef) -> (r: Result<DhtState, Error>)
        ensures
            r.is_ok(),
            node_ids_read(value@, "node-id".spec_bytes(), r.unwrap().nids@),
            endpoints_read(value@, "nodes".spec_bytes(), r.unwrap().nodes@),
            endpoints_read(value@, "nodes6".spec_bytes(), r.unwrap().nodes6@),
    {
        let mut state = DhtState::new();
        if value.is_dict() {
            state.nids = match extract_node_ids(value, "node-id") {
                Ok(ids) => ids,
                Err(e) => {
                    return Err(e);
                },
            };
            match value.dict_find_list_value("nodes") {
                Some(list) => {
                    state.nodes = read_endpoint_list(list);
                },
                None => {},
            }
            match value.dict_find_list_value("nodes6") {
                Some(list) => {
                    state.nodes6 = read_endpoint_list(list);
                },
                None => {},
            }
        }
        Ok(state)
    }

    /// The state as a dictionary. What is empty is left out.
    pub fn save(&self) -> (r: Value)
        ensures
            r@ == Bencode::Dict(saved_state(self.nids@, self.nodes@, self.nodes6@)),
            r@.sorted(),
    {
        let mut dict = Value::with_dict(Vec::new());
        proof {
            assert(crate::value::text_pairs_view(Seq::<(String, Value)>::empty()) =~= Seq::<
                (Seq<u8>, Bencode),
            >::empty());
            assert(crate::model::dict_from_pairs(Seq::<(Seq<u8>, Bencode)>::empty()) =~= Seq::<
                (Seq<u8>, Bencode),
            >::empty());
        }
        if self.nids.len() > 0 {
            let mut list: Vec<Value> = Vec::new();
            let mut i: usize = 0;
            while i < self.nids.len()
                invariant
                    0 <= i <= self.nids@.len(),
                    list@.len() == i,
                    forall|j: int|
                        0 <= j < i ==> (#[trigger] list@[j])@ == Bencode::Bytes(
                            nid_bytes(self.nids@[j]),
                        ),
                decreases self.nids@.len() - i,
            {
                let mut buf: Vec<u8> = Vec::new();
                crate::value_ref::push_bytes(&mut buf, self.nids[i].1.as_bytes());
                write_address(&mut buf, &self.nids[i].0);
                list.push(Value::Bytes(buf));
                i += 1;
            }
            proof {
                assert(values_view(list@) =~= byte_values(nids_packed(self.nids@)));
            }
            dict.dict_insert("node-id", Value::with_list(list));
        }
        if self.nodes.len() > 0 {
            dict.dict_insert("nodes", save_nodes(self.nodes.as_slice()));
        }
        if self.nodes6.len() > 0 {
            dict.dict_insert("nodes6", save_nodes(self.nodes6.as_slice()));
        }
        dict
    }

    /// Forgets everything.
    pub fn clear(&mut self)
        ensures
            final(self).nids@.len() == 0,
            final(self).nodes@.len() == 0,
            final(self).nodes6@.len() == 0,
    {
        self.nids = Vec::new();
        self.nodes = Vec::new();
        self.nodes6 = Vec::new();
    }
}

/// The three keys of a snapshot are different from one another.
pub proof fn lemma_state_keys()
    ensures
        "node-id".spec_bytes() != "nodes".spec_bytes(),
        "node-id".spec_bytes() != "nodes6".spec_bytes(),
        "nodes".spec_bytes() != "nodes6".spec_bytes(),
{
    reveal_strlit("node-id");
    reveal_strlit("nodes");
    reveal_strlit("nodes6");
    vstd::utf8::encode_utf8_decode_utf8("node-id"@);
    vstd::utf8::encode_utf8_decode_utf8("nodes"@);
    vstd::utf8::encode_utf8_decode_utf8("nodes6"@);
    assert("node-id"@.len() == 7);
    assert("nodes"@.len() == 5);
    assert("nodes6"@.len() == 6);
}

/// The wire forms of ids on networks read back as what they are.
pub proof fn lemma_nid_strings(ids: Seq<(IpAddress, NodeId)>, upto: int)
    requires
        0 <= upto <= ids.len(),
    ensures
        nid_strings(byte_values(nids_packed(ids)), upto) == nids_packed(ids).take(upto),
    decreases upto,
{
    if upto > 0 {
        lemma_nid_strings(ids, upto - 1);
        let e = ids[upto - 1];
        assert(e.1@.len() == 20);
        assert(nid_bytes(e).len() == 24 || nid_bytes(e).len() == 36);
        assert(nids_packed(ids).take(upto) =~= nids_packed(ids).take(upto - 1).push(nid_bytes(e)));
    } else {
        assert(nids_packed(ids).take(0) =~= Seq::<Seq<u8>>::empty());
    }
}

/// The compact forms of endpoints read back as what they are.
pub proof fn lemma_endpoint_strings(nodes: Seq<SocketAddress>, upto: int)
    requires
        0 <= upto <= nodes.len(),
    ensures
        endpoint_strings(byte_values(endpoints_packed(nodes)), upto) == endpoints_packed(
            nodes,
        ).take(upto),
    decreases upto,
{
    if upto > 0 {
        lemma_endpoint_strings(nodes, upto - 1);
        let e = nodes[upto - 1];
        assert(e.packed().len() == 6 || e.packed().len() == 18);
        assert(endpoints_packed(nodes).take(upto) =~= endpoints_packed(nodes).take(upto - 1).push(
            e.packed(),
        ));
    } else {
        assert(endpoints_packed(nodes).take(0) =~= Seq::<Seq<u8>>::empty());
    }
}

/// Ids on networks with the same wire forms are the same.
pub proof fn lemma_nids_decided(a: Seq<(IpAddress, NodeId)>, b: Seq<(IpAddress, NodeId)>)
    requires
        nids_packed(a) == nids_packed(b),
    ensures
        a == b,
{
    assert(a.len() == nids_packed(a).len());
    assert(b.len() == nids_packed(b).len());
    assert forall|i: int| 0 <= i < a.len() implies a[i] == b[i] by {
        let x = a[i];
        let y = b[i];
        assert(nids_packed(a)[i] == nid_bytes(x));
        assert(nids_packed(b)[i] == nid_bytes(y));
        assert(x.1@.len() == 20 && y.1@.len() == 20);
        assert(nid_bytes(x).take(20) =~= x.1@);
        assert(nid_bytes(y).take(20) =~= y.1@);
        assert(x.1.data@ =~= y.1.data@);
        assert(x.1.data =~= y.1.data);
        assert(nid_bytes(x).skip(20) =~= x.0.octets());
        assert(nid_bytes(y).skip(20) =~= y.0.octets());
        crate::detail::lemma_rank_decides(x.0, y.0);
    }
    assert(a =~= b);
}

/// Endpoints with the same compact forms are the same.
pub proof fn lemma_endpoints_decided(a: Seq<SocketAddress>, b: Seq<SocketAddress>)
    requires
        endpoints_packed(a) == endpoints_packed(b),
    ensures
        a == b,
{
    assert(a.len() == endpoints_packed(a).len());
    assert(b.len() == endpoints_packed(b).len());
    assert forall|i: int| 0 <= i < a.len() implies a[i] == b[i] by {
        assert(endpoints_packed(a)[i] == a[i].packed());
        assert(endpoints_packed(b)[i] == b[i].packed());
        assert(a[i].packed().len() == b[i].packed().len());
        crate::detail::lemma_packed_decides(a[i], b[i]);
    }
    assert(a =~= b);
}

/// A snapshot round-trips: what is read from the dictionary that `save`
/// makes of a state is the state.
pub proof fn lemma_state_round_trip(
    nids: Seq<(IpAddress, NodeId)>,
    nodes: Seq<SocketAddress>,
    nodes6: Seq<SocketAddress>,
    read_nids: Seq<(IpAddress, NodeId)>,
    read_nodes: Seq<SocketAddress>,
    read_nodes6: Seq<SocketAddress>,
)
    requires
        node_ids_read(
            Bencode::Dict(saved_state(nids, nodes, nodes6)),
            "node-id".spec_bytes(),
            read_nids,
        ),
        endpoints_read(
            Bencode::Dict(saved_state(nids, nodes, nodes6)),
            "nodes".spec_bytes(),
            read_nodes,
        ),
        endpoints_read(
            Bencode::Dict(saved_state(nids, nodes, nodes6)),
            "nodes6".spec_bytes(),
            read_nodes6,
        ),
    ensures
        read_nids == nids,
        read_nodes == nodes,
        read_nodes6 == nodes6,
{
    lemma_state_keys();
    let k0 = "node-id".spec_bytes();
    let k1 = "nodes".spec_bytes();
    let k2 = "nodes6".spec_bytes();
    let v0 = Bencode::List(byte_values(nids_packed(nids)));
    let v1 = Bencode::List(byte_values(endpoints_packed(nodes)));
    let v2 = Bencode::List(byte_values(endpoints_packed(nodes6)));
    let d0 = Seq::<(Seq<u8>, Bencode)>::empty();
    let d1 = if nids.len() > 0 {
        dict_insert(d0, k0, v0)
    } else {
        d0
    };
    let d2 = if nodes.len() > 0 {
        dict_insert(d1, k1, v1)
    } else {
        d1
    };
    let d3 = saved_state(nids, nodes, nodes6);
    assert(keys_sorted(d0));
    assert(dict_get(d0, k0).is_none() && dict_get(d0, k1).is_none() && dict_get(d0, k2).is_none());
    lemma_dict_insert_sorted(d0, k0, v0);
    lemma_dict_insert_other(d0, k0, v0, k1);
    lemma_dict_insert_other(d0, k0, v0, k2);
    assert(keys_sorted(d1));
    lemma_dict_insert_sorted(d1, k1, v1);
    lemma_dict_insert_other(d1, k1, v1, k0);
    lemma_dict_insert_other(d1, k1, v1, k2);
    assert(keys_sorted(d2));
    lemma_dict_insert_sorted(d2, k2, v2);
    lemma_dict_insert_other(d2, k2, v2, k0);
    lemma_dict_insert_other(d2, k2, v2, k1);
    assert(dict_get(d3, k0) == if nids.len() > 0 {
        Some(v0)
    } else {
        None
    });
    assert(dict_get(d3, k1) == if nodes.len() > 0 {
        Some(v1)
    } else {
        None
    });
    assert(dict_get(d3, k2) == if nodes6.len() > 0 {
        Some(v2)
    } else {
        None
    });
    lemma_nid_strings(nids, nids.len() as int);
    lemma_endpoint_strings(nodes, nodes.len() as int);
    lemma_endpoint_strings(nodes6, nodes6.len() as int);
    assert(nids_packed(nids).take(nids.len() as int) =~= nids_packed(nids));
    assert(endpoints_packed(nodes).take(nodes.len() as int) =~= endpoints_packed(nodes));
    assert(endpoints_packed(nodes6).take(nodes6.len() as int) =~= endpoints_packed(nodes6));
    if nids.len() > 0 {
        lemma_nids_decided(read_nids, nids);
    } else {
        assert(read_nids =~= nids);
    }
    if nodes.len() > 0 {
        lemma_endpoints_decided(read_nodes, nodes);
    } else {
        assert(read_nodes =~= nodes);
    }
    if nodes6.len() > 0 {
        lemma_endpoints_decided(read_nodes6, nodes6);
    } else {
        assert(read_nodes6 =~= nodes6);
    }
}

} // verus!
