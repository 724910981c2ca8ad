use graphstore::node::{NodeElementHash, NodeHash, NodeKeyStorage, NodeStorage};
use graphstore::table::Key as TableKey;
use graphstore::variable_storage::Key as VariableKey;

#[test]
fn node_storage() {
    let s = NodeStorage {
        node_static_sized_keys: vec![(NodeElementHash { hash: 0 }, TableKey { index: 0 })],
        node_dynamic_sized_keys: vec![(NodeElementHash { hash: 0 }, VariableKey { index: 0 })],
    };
    let bin = s.to_binary();
    assert_eq!(s, NodeStorage::from_binary(bin));
}

#[test]
fn testing_eq() {
    let s = NodeStorage {
        node_static_sized_keys: vec![(NodeElementHash { hash: 0 }, TableKey { index: 0 })],
        node_dynamic_sized_keys: vec![(NodeElementHash { hash: 0 }, VariableKey { index: 0 })],
    };
    let s2 = NodeStorage {
        node_static_sized_keys: vec![(NodeElementHash { hash: 1 }, TableKey { index: 0 })],
        node_dynamic_sized_keys: vec![(NodeElementHash { hash: 1 }, VariableKey { index: 0 })],
    };
    assert!(s != s2);
}

#[test]
fn big_hashes() {
    let s = NodeStorage {
        node_static_sized_keys: vec![(
            NodeElementHash {
                hash: 0x12_21_12_21_12_98_67_58,
            },
            TableKey {
                index: 0x32_89_29_81_42_29_62_90,
            },
        )],
        node_dynamic_sized_keys: vec![(
            NodeElementHash {
                hash: 0x72_34_34_97_a2_97_86_89,
            },
            VariableKey {
                index: 0x34_86_86_31_92_22_31_92,
            },
        )],
    };
    let bin = s.to_binary();
    assert_eq!(s, NodeStorage::from_binary(bin));
}

#[test]
fn big_hashes_static_only() {
    let s = NodeStorage {
        node_static_sized_keys: vec![(
            NodeElementHash {
                hash: 0x12_21_12_21_12_98_67_58,
            },
            TableKey {
                index: 0x32_89_29_81_42_29_62_90,
            },
        )],
        node_dynamic_sized_keys: vec![],
    };
    let bin = s.to_binary();
    assert_eq!(s, NodeStorage::from_binary(bin));
}

#[test]
fn node_key_storage_round_trip() {
    let n = NodeKeyStorage {
        self_members: TableKey { index: 7 },
        self_hash: NodeHash { hash: 0xdead_beef },
        linked_nodes: vec![VariableKey { index: 3 }, VariableKey { index: 9 }],
    };
    let bin = n.get_data_variable();
    assert_eq!(bin.len(), 32);
    let back = NodeKeyStorage::from_binary(bin);
    assert_eq!(back.self_members.index, 7);
    assert_eq!(back.self_hash.hash, 0xdead_beef);
    assert_eq!(back.linked_nodes.len(), 2);
    assert_eq!(back.linked_nodes[0].index, 3);
    assert_eq!(back.linked_nodes[1].index, 9);
}

#[test]
fn hash_binary_round_trip() {
    let h = NodeElementHash { hash: 0x0102_0304_0506_0708 };
    let bin = h.to_binary();
    assert_eq!(bin, vec![0x08, 0x07, 0x06, 0x05, 0x04, 0x03, 0x02, 0x01]);
    assert_eq!(NodeElementHash::from_binary(bin).hash, h.hash);
    let nh = NodeHash { hash: 42 };
    assert_eq!(NodeHash::from_binary(nh.to_binary()).hash, 42);
}
