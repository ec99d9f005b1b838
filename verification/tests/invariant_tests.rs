use bonsai_db::database::{Database, Options};
use bonsai_db::node::{InternalNodes, NodeId};
use bonsai_db::store::NodeManager;
use std::collections::BTreeSet;

fn options() -> Options {
    Options { max_files: 4, page_size: 128, cache_size: 0 }
}

fn key(i: usize) -> Vec<u8> {
    format!("KEY_{:04}", i).into_bytes()
}

struct Walk {
    pages: BTreeSet<u64>,
    leaf_depths: BTreeSet<usize>,
    entries: usize,
}

/// Walks the tree under `address` and checks what must hold of every
/// node of a committed tree. Returns the smallest key under the node.
fn walk(store: &NodeManager, address: u64, depth: usize, is_root: bool, out: &mut Walk) -> Option<Vec<u8>> {
    assert!(address >= 2048);
    assert_eq!(address % 128, 0);
    let (header, node) = store.read_node(address).unwrap();
    assert_eq!(header.internal_nodes_len as usize, node.len());
    assert_eq!(header.overflow_len, (node.size() - 1) / 128);
    for i in 0..=header.overflow_len {
        let page = address + i * 128;
        assert!(page + 128 <= store.size());
        assert!(out.pages.insert(page), "page {page} is used twice");
    }
    if !is_root {
        assert!(node.len() >= 2, "a node that is not the root holds {} entries", node.len());
    }
    for i in 1..node.len() {
        assert!(node.key_at(i - 1) < node.key_at(i));
    }
    match &node {
        InternalNodes::Leaf(entries) => {
            out.leaf_depths.insert(depth);
            out.entries += entries.len();
            entries.first().map(|e| e.key.clone())
        }
        InternalNodes::Branch(entries) => {
            assert!(!entries.is_empty());
            for entry in entries {
                let NodeId::Address(child) = entry.node_id else {
                    panic!("a staged child in a committed tree");
                };
                let smallest = walk(store, child, depth + 1, false, out);
                assert_eq!(smallest.as_deref(), Some(&entry.key[..]));
            }
            Some(entries[0].key.clone())
        }
    }
}

fn check_snapshot(db: &Database, expected_entries: usize) {
    let meta = db.internal.read_state.meta_node;
    let mut out = Walk { pages: BTreeSet::new(), leaf_depths: BTreeSet::new(), entries: 0 };
    walk(db.store(), meta.root_node, 0, true, &mut out);
    assert_eq!(out.leaf_depths.len(), 1, "leaves at depths {:?}", out.leaf_depths);
    assert_eq!(out.entries, expected_entries);
    assert!(meta.end_address <= db.store().size());
    assert!(out.pages.iter().all(|p| *p < meta.end_address));
    let state = db.internal.write_state.as_ref().unwrap();
    let free: BTreeSet<u64> = state.free_list.copy_all().into_iter().collect();
    for page in &free {
        assert!(*page >= 2048 && *page % 128 == 0 && *page < meta.end_address);
        assert!(!out.pages.contains(page), "page {page} is free and in the tree");
    }
    // The pages of the free list itself are neither free nor in the tree.
    for i in 0..=state.free_list_header.overflow_len {
        let page = state.free_list_node_address + i * 128;
        assert!(!out.pages.contains(&page));
        assert!(!free.contains(&page));
    }
}

#[test]
fn committed_snapshots_are_balanced_search_trees() {
    let mut db = Database::open(None, options()).unwrap();
    check_snapshot(&db, 0);
    let mut expected = BTreeSet::new();
    // Grow, shrink and grow again, with a check after every commit.
    for round in 0..12usize {
        let mut tx = db.begin_write().unwrap();
        for n in 0..60usize {
            let i = (round * 131 + n * 17) % 400;
            if round % 3 == 2 {
                tx.remove(db.store(), &key(i)).unwrap();
                expected.remove(&i);
            } else {
                let value = vec![b'a' + (round as u8); 10 + (i % 50)];
                tx.put(db.store(), &key(i), &value).unwrap();
                expected.insert(i);
            }
        }
        db.commit(tx).unwrap();
        check_snapshot(&db, expected.len());
        let bytes = db.into_bytes();
        db = Database::open(Some(bytes), options()).unwrap();
        check_snapshot(&db, expected.len());
        let reader = db.begin_read();
        for i in 0..400 {
            assert_eq!(reader.get(db.store(), &key(i)).unwrap().is_some(), expected.contains(&i));
        }
        db.end_read(reader).unwrap();
    }
    // Take everything out: the root is a leaf without entries.
    let mut tx = db.begin_write().unwrap();
    for i in 0..400 {
        tx.remove(db.store(), &key(i)).unwrap();
    }
    db.commit(tx).unwrap();
    check_snapshot(&db, 0);
    let (_, root) = db.store().read_node(db.internal.read_state.meta_node.root_node).unwrap();
    assert!(root.is_leaf() && root.is_empty());
}

#[test]
fn a_commit_writes_only_where_nothing_lives() {
    let mut db = Database::open(None, options()).unwrap();
    let mut held: Vec<(u64, Vec<u8>)> = Vec::new();
    for round in 0..10usize {
        let mut tx = db.begin_write().unwrap();
        for n in 0..40usize {
            let i = (round * 97 + n * 13) % 300;
            if round % 4 == 3 {
                tx.remove(db.store(), &key(i)).unwrap();
            } else {
                tx.put(db.store(), &key(i), &vec![b'x'; 20 + i % 30]).unwrap();
            }
        }
        let before = db.store().bytes().to_vec();
        let free: BTreeSet<u64> = tx.writer.free_list.free.difference(&tx.writer.free_list.pending_allocated).copied().collect();
        let end = tx.writer.meta().end_address;
        let slot = (tx.transaction_id % 2) * 1024;
        db.commit(tx).unwrap();
        let after = db.store().bytes();
        assert!(after.len() >= before.len());
        for i in 0..before.len() as u64 {
            if after[i as usize] == before[i as usize] {
                continue;
            }
            let in_meta = slot <= i && i < slot + 40;
            let page = i - i % 128;
            let writable = i >= end || free.contains(&page);
            assert!(in_meta || (i >= 2048 && writable), "byte {i} changed in round {round}");
        }
        // The file opens on the commit, and still holds every tree that
        // an earlier commit left in it and that no later one could free.
        let meta = db.internal.read_state.meta_node;
        assert_eq!(meta.transaction_id % 2 * 1024, slot);
        let reopened = Database::open(Some(after.to_vec()), options()).unwrap();
        assert_eq!(reopened.internal.read_state.meta_node, meta);
        held.push((meta.root_node, after.to_vec()));
    }
    // The last snapshot reads the same from the final file as from the
    // file it was committed to.
    let (root, image) = held.last().unwrap();
    let then = NodeManager::new(image.clone(), 128);
    let mut a = Walk { pages: BTreeSet::new(), leaf_depths: BTreeSet::new(), entries: 0 };
    let mut b = Walk { pages: BTreeSet::new(), leaf_depths: BTreeSet::new(), entries: 0 };
    walk(&then, *root, 0, true, &mut a);
    walk(db.store(), *root, 0, true, &mut b);
    assert_eq!(a.entries, b.entries);
    assert_eq!(a.pages, b.pages);
}
