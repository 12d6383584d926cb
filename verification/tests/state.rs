use dht::detail::{IpAddress, SocketAddress};
use dht::state::{extract_node_ids, DhtState};
use dht::{Sha1Hash, Value, ValueRef};

#[test]
fn state_snapshot_round_trip() {
    let mut state = DhtState::default();
    state.nids.push((
        IpAddress::V4([100, 100, 100, 100]),
        Sha1Hash::from_bytes(b"aaaaabbbbbcccccddddd"),
    ));

    let value = state.save();
    assert_eq!(
        "d7:node-idl24:aaaaabbbbbcccccddddd\x64\x64\x64\x64ee",
        value.to_string()
    );
    let bytes = value.to_vec();
    let borrowed = ValueRef::decode(&bytes).unwrap();

    let read = DhtState::read(&borrowed).unwrap();
    assert_eq!(state, read);
}

#[test]
fn state_with_nodes_of_both_families() {
    let mut state = DhtState::new();
    state.nids.push((
        IpAddress::V6([0x20, 0x01, 0x0d, 0xb8, 0, 0, 0, 0, 0, 0, 0, 0, 0, 0, 0, 1]),
        Sha1Hash::max(),
    ));
    state
        .nodes
        .push(SocketAddress::new(IpAddress::V4([1, 2, 3, 4]), 0x1234));
    state
        .nodes
        .push(SocketAddress::new(IpAddress::V4([9, 9, 9, 9]), 6881));
    state.nodes6.push(SocketAddress::new(
        IpAddress::V6([0xfe, 0x80, 0, 0, 0, 0, 0, 0, 0, 0, 0, 0, 0, 0, 0, 7]),
        443,
    ));
    let value = state.save();
    let nodes = value.dict_find("nodes").unwrap().as_list().unwrap();
    assert_eq!(
        &[1u8, 2, 3, 4, 0x12, 0x34][..],
        nodes[0].as_bytes().unwrap()
    );
    assert_eq!(18, value.dict_find("nodes6").unwrap().as_list().unwrap()[0].as_bytes().unwrap().len());
    assert_eq!(36, value.dict_find("node-id").unwrap().as_list().unwrap()[0].as_bytes().unwrap().len());
    let bytes = value.to_vec();
    let read = DhtState::read(&ValueRef::decode(&bytes).unwrap()).unwrap();
    assert_eq!(state, read);

    let mut cleared = read;
    cleared.clear();
    assert_eq!(DhtState::new(), cleared);
    assert_eq!("de", cleared.save().to_string());
}

#[test]
fn legacy_node_id_is_an_id_on_the_loopback_network() {
    let v = ValueRef::decode(b"d7:node-id20:aaaaabbbbbcccccddddde").unwrap();
    let ids = extract_node_ids(&v, "node-id").unwrap();
    assert_eq!(
        vec![(
            IpAddress::V4([127, 0, 0, 1]),
            Sha1Hash::from_bytes(b"aaaaabbbbbcccccddddd")
        )],
        ids
    );
    let state = DhtState::read(&v).unwrap();
    assert_eq!(ids, state.nids);
}

#[test]
fn entries_of_other_lengths_are_passed_over() {
    let v = ValueRef::decode(b"d7:node-idl3:abci5e24:aaaaabbbbbcccccddddd\x01\x02\x03\x04e5:nodesl6:\x01\x02\x03\x04\x00\x505:shorti1ee6:nodes6i7ee").unwrap();
    let state = DhtState::read(&v).unwrap();
    assert_eq!(1, state.nids.len());
    assert_eq!(IpAddress::V4([1, 2, 3, 4]), state.nids[0].0);
    assert_eq!(
        vec![SocketAddress::new(IpAddress::V4([1, 2, 3, 4]), 80)],
        state.nodes
    );
    assert!(state.nodes6.is_empty());
    let not_a_dict = Value::with_int(5);
    let empty = DhtState::read(&not_a_dict.as_ref()).unwrap();
    assert_eq!(DhtState::new(), empty);
    assert!(extract_node_ids(&v, "missing").unwrap().is_empty());
}
