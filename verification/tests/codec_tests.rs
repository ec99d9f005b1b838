use bonsai_db::error::Error;
use bonsai_db::format::{
    read_u16, read_u32, read_u64, read_vec_u64, write_slice_u64, write_u16, write_u32, write_u64,
    Reader, Writer,
};
use bonsai_db::key::{compare_keys, KeyOrder};
use bonsai_db::node::{
    BranchInternalNode, InternalNodes, LeafInternalNode, NodeId, BRANCH_NODE, LEAF_NODE,
};
use bonsai_db::node_codec::{MetaNode, NodeHeader};

const CHECKSUM: u32 = 0x3bb0ad09;

fn leaf(entries: &[(&[u8], &[u8])]) -> InternalNodes {
    InternalNodes::Leaf(
        entries
            .iter()
            .map(|(k, v)| LeafInternalNode { key: k.to_vec(), value: v.to_vec() })
            .collect(),
    )
}

#[test]
fn integers_are_big_endian() {
    let mut w = Writer::new();
    write_u16(&mut w, 0x0102);
    write_u32(&mut w, 0x0304_0506);
    write_u64(&mut w, 0x0708_090a_0b0c_0d0e);
    write_slice_u64(&mut w, &[1, 0xffff_ffff_ffff_ffff]);
    let bytes = w.into_inner();
    assert_eq!(
        bytes,
        vec![
            1, 2, 3, 4, 5, 6, 7, 8, 9, 10, 11, 12, 13, 14, 0, 0, 0, 0, 0, 0, 0, 1, 255, 255, 255,
            255, 255, 255, 255, 255
        ]
    );
    let mut r = Reader::new(&bytes);
    assert_eq!(read_u16(&mut r), Ok(0x0102));
    assert_eq!(read_u32(&mut r), Ok(0x0304_0506));
    assert_eq!(read_u64(&mut r), Ok(0x0708_090a_0b0c_0d0e));
    assert_eq!(read_vec_u64(&mut r, 2), Ok(vec![1, 0xffff_ffff_ffff_ffff]));
    assert_eq!(r.remaining(), 0);
}

#[test]
fn short_reads_fail_and_read_nothing() {
    let bytes = [1u8, 2, 3];
    let mut r = Reader::new(&bytes);
    assert_eq!(read_u32(&mut r), Err(Error::Io));
    assert_eq!(read_u64(&mut r), Err(Error::Io));
    assert_eq!(read_vec_u64(&mut r, 1), Err(Error::Io));
    assert_eq!(r.remaining(), 3);
    assert_eq!(read_u16(&mut r), Ok(0x0102));
    assert_eq!(read_u16(&mut r), Err(Error::Io));
    assert_eq!(r.remaining(), 1);
}

#[test]
fn keys_are_ordered_byte_by_byte() {
    assert_eq!(compare_keys(b"", b""), KeyOrder::Equal);
    assert_eq!(compare_keys(b"", b"a"), KeyOrder::Less);
    assert_eq!(compare_keys(b"a", b""), KeyOrder::Greater);
    assert_eq!(compare_keys(b"ab", b"abc"), KeyOrder::Less);
    assert_eq!(compare_keys(b"abd", b"abc"), KeyOrder::Greater);
    assert_eq!(compare_keys(b"KEY_150", b"KEY_1500"), KeyOrder::Less);
    assert_eq!(compare_keys(&[0xff], &[0x00, 0xff]), KeyOrder::Greater);
}

#[test]
fn node_round_trip() {
    let node = leaf(&[(b"a", b"1"), (b"bb", b""), (b"", b"333")]);
    let mut w = Writer::new();
    let header = node.write(&mut w, 128).unwrap();
    assert_eq!(header, NodeHeader { flags: LEAF_NODE, internal_nodes_len: 3, overflow_len: 0 });
    let bytes = w.into_inner();
    assert_eq!(bytes.len() as u64, node.size());
    assert_eq!(node.size(), 18 + 8 + 8 + 9);
    let mut r = Reader::new(&bytes);
    let (read_header, read) = InternalNodes::read(&mut r).unwrap();
    assert_eq!(read_header, header);
    let (InternalNodes::Leaf(a), InternalNodes::Leaf(b)) = (node, read) else {
        panic!("unexpected node type");
    };
    assert_eq!(a, b);

    let branch = InternalNodes::Branch(vec![
        BranchInternalNode { key: b"k1".to_vec(), node_id: NodeId::Address(2048) },
        BranchInternalNode { key: b"k2".to_vec(), node_id: NodeId::Address(4096) },
    ]);
    let mut w = Writer::new();
    let header = branch.write(&mut w, 128).unwrap();
    assert_eq!(header.flags, BRANCH_NODE);
    let bytes = w.into_inner();
    assert_eq!(bytes.len(), 18 + 12 + 12);
    let mut r = Reader::new(&bytes);
    let (_, read) = InternalNodes::read(&mut r).unwrap();
    let (InternalNodes::Branch(a), InternalNodes::Branch(b)) = (branch, read) else {
        panic!("unexpected node type");
    };
    assert_eq!(a, b);
}

#[test]
fn overflow_pages_are_counted_by_whole_pages() {
    for (value_len, overflow) in [(0usize, 0u64), (103, 0), (104, 1), (231, 1), (232, 2)] {
        let node = leaf(&[(b"k", &vec![0u8; value_len])]);
        let mut w = Writer::new();
        let header = node.write(&mut w, 128).unwrap();
        assert_eq!(node.size(), 18 + 7 + value_len as u64);
        assert_eq!(header.overflow_len, overflow);
    }
}

#[test]
fn staged_children_and_long_keys_cannot_be_written() {
    let branch = InternalNodes::Branch(vec![BranchInternalNode {
        key: b"k".to_vec(),
        node_id: NodeId::Id(7),
    }]);
    let mut w = Writer::new();
    assert_eq!(branch.write(&mut w, 128), Err(Error::InvalidArgument));
    let long = leaf(&[(&vec![1u8; 65536], b"v")]);
    assert_eq!(long.write(&mut w, 128), Err(Error::InvalidArgument));
    let fine = leaf(&[(&vec![1u8; 65535], b"v")]);
    assert_eq!(fine.write(&mut w, 0), Err(Error::InvalidArgument));
    assert_eq!(w.len(), 0);
    assert!(fine.write(&mut w, 128).is_ok());
}

#[test]
fn unknown_node_kind_is_corruption() {
    let mut bytes = vec![0u8; 18];
    bytes[1] = 9;
    let mut r = Reader::new(&bytes);
    assert!(matches!(InternalNodes::read(&mut r), Err(Error::Corruption)));
    assert_eq!(r.remaining(), 18);
    let mut r = Reader::new(&bytes[..10]);
    assert!(matches!(InternalNodes::read(&mut r), Err(Error::Io)));
}

#[test]
fn meta_record_layout_and_checksum() {
    let meta = MetaNode {
        page_size: 128,
        root_node: 2176,
        free_list_node: 2048,
        transaction_id: 1,
        end_address: 2304,
    };
    assert_eq!(MetaNode::size(), 40);
    assert_eq!(MetaNode::page_size(), 1024);
    let mut w = Writer::new();
    meta.write(&mut w);
    let bytes = w.into_inner();
    assert_eq!(bytes.len(), 40);
    assert_eq!(
        &bytes[..36],
        &[
            0, 0, 0, 128, 0, 0, 0, 0, 0, 0, 8, 128, 0, 0, 0, 0, 0, 0, 8, 0, 0, 0, 0, 0, 0, 0, 0, 1,
            0, 0, 0, 0, 0, 0, 9, 0
        ]
    );
    assert_eq!(meta.checksum(), CHECKSUM);
    assert_eq!(&bytes[36..], &CHECKSUM.to_be_bytes());
    assert_eq!(crc32fast::hash(&bytes[..36]), CHECKSUM);
    let mut r = Reader::new(&bytes);
    assert_eq!(MetaNode::read(&mut r), Ok(meta));
    let mut torn = bytes.clone();
    torn[5] ^= 1;
    let mut r = Reader::new(&torn);
    assert_eq!(MetaNode::read(&mut r), Err(Error::Corruption));
    assert_eq!(r.remaining(), 40);
    assert_eq!(meta.verify(1, 1), Ok(meta));
    assert_eq!(meta.verify(1, 2), Err(Error::Corruption));
}

#[test]
fn split_keeps_every_entry_and_two_per_piece() {
    let entries: Vec<(Vec<u8>, Vec<u8>)> =
        (0..11u8).map(|i| (vec![b'k', i], vec![i; 40])).collect();
    let node = InternalNodes::Leaf(
        entries
            .iter()
            .map(|(k, v)| LeafInternalNode { key: k.clone(), value: v.clone() })
            .collect(),
    );
    // Each entry takes 48 bytes: with the header two fit a page of 128
    // bytes, a third does not.
    let pieces = node.split(128);
    let lens: Vec<usize> = pieces.iter().map(|p| p.len()).collect();
    assert_eq!(lens, vec![2, 2, 2, 2, 3]);
    let mut all = Vec::new();
    for piece in pieces {
        let InternalNodes::Leaf(es) = piece else {
            panic!("unexpected node type");
        };
        for e in es {
            all.push((e.key, e.value));
        }
    }
    assert_eq!(all, entries);
    let small = leaf(&[(b"a", b"1"), (b"b", b"2")]);
    assert_eq!(small.split(1).len(), 1);
}

#[test]
fn search_finds_the_place_of_a_key() {
    let node = leaf(&[(b"b", b"1"), (b"d", b"2"), (b"f", b"3")]);
    assert_eq!(node.search(b"a"), (false, 0));
    assert_eq!(node.search(b"b"), (true, 0));
    assert_eq!(node.search(b"c"), (false, 1));
    assert_eq!(node.search(b"d"), (true, 1));
    assert_eq!(node.search(b"e"), (false, 2));
    assert_eq!(node.search(b"f"), (true, 2));
    assert_eq!(node.search(b"g"), (false, 3));
    assert!(node.has_min_keys());
    assert!(node.is_leaf());
    assert!(!leaf(&[(b"a", b"1")]).has_min_keys());
    assert_eq!(node.next_dirty_child(0), None);
}
