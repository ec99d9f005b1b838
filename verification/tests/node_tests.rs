use bonsai_db::format::Reader;
use bonsai_db::node::{BranchInternalNode, InternalNodes, LeafInternalNode, NodeId};

#[test]
fn reads_branch_node() {
    let data = &[
        // flags
        0x00, 0x01, // internal nodes len
        0x00, 0x00, 0x00, 0x00, 0x00, 0x00, 0x00, 0x02, // overflow len
        0x00, 0x00, 0x00, 0x00, 0x00, 0x00, 0x00, 0x00, // page id
        0x00, 0x00, 0x00, 0x00, 0x00, 0x00, 0x00, 0x10, // key len
        0x00, 0x0A, // key
        0x01, 0x02, 0x03, 0x04, 0x05, 0x06, 0x07, 0x08, 0x09, 0x0A, // page id
        0x00, 0x00, 0x00, 0x00, 0x00, 0x00, 0x00, 0x21, // key len
        0x00, 0x09, // key
        0x11, 0x12, 0x13, 0x14, 0x15, 0x16, 0x17, 0x18, 0x19,
    ];

    let mut cursor = Reader::new(data);
    let (_, node) = InternalNodes::read(&mut cursor).unwrap();

    let InternalNodes::Branch(nodes) = node else {
        panic!("unexpected node type");
    };

    assert_eq!(
        nodes,
        vec![
            BranchInternalNode {
                key: (1..=10).into_iter().collect::<Vec<u8>>(),
                node_id: NodeId::Address(16),
            },
            BranchInternalNode {
                key: (17..=25).into_iter().collect::<Vec<u8>>(),
                node_id: NodeId::Address(33),
            }
        ]
    );
}

#[test]
fn reads_leaf_node() {
    let data = &[
        // flags
        0x00, 0x02, // internal nodes len
        0x00, 0x00, 0x00, 0x00, 0x00, 0x00, 0x00, 0x02, // overflow len
        0x00, 0x00, 0x00, 0x00, 0x00, 0x00, 0x00, 0x00, // node 1
        // key len
        0x00, 0x0A, // key
        0x01, 0x02, 0x03, 0x04, 0x05, 0x06, 0x07, 0x08, 0x09, 0x0A, // value len
        0x00, 0x00, 0x00, 0x10, // value
        0x01, 0x02, 0x03, 0x04, 0x05, 0x06, 0x07, 0x08, 0x09, 0x0A, 0x0B, 0x0C, 0x0D, 0x0E,
        0x0F, 0x10, // node 2
        // key len
        0x00, 0x09, // key
        0x11, 0x12, 0x13, 0x14, 0x15, 0x16, 0x17, 0x18, 0x19, // value len
        0x00, 0x00, 0x00, 0x02, // value
        0x11, 0x12,
    ];

    let mut cursor = Reader::new(data);
    let (_, node) = InternalNodes::read(&mut cursor).unwrap();

    let InternalNodes::Leaf(nodes) = node else {
        panic!("unexpected node type");
    };

    assert_eq!(
        nodes,
        vec![
            LeafInternalNode {
                key: (1..=10).into_iter().collect::<Vec<u8>>(),
                value: (1..=16).into_iter().collect::<Vec<u8>>()
            },
            LeafInternalNode {
                key: (17..=25).into_iter().collect::<Vec<u8>>(),
                value: vec![17, 18],
            },
        ]
    );
}
