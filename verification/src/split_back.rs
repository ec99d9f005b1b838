use crate::merge_back::{lemma_passed_down_trans, passed_back, passed_down};
use crate::merge_law::{lemma_file_children, lemma_more_levels, sane};
use crate::node::{next_dirty, NodeId, NodeModel};
use crate::rank_split::{lemma_passed_up_sane, lemma_piece, piece_start};
use crate::split::{split_all, split_candidate, split_children, split_node, traverse_split};
use crate::split_law::{
    crown_of, crowned, lemma_split_children, lemma_split_inside, lemma_split_one, lemma_split_root,
    lemma_traverse_split, parted,
};
use crate::tree_update::{closed_refs, is_entry, ref_at, unique_refs};
use crate::write_law::{held, lemma_held_branch, lemma_held_leaf, load};
use crate::write_model::CommitModel;
use vstd::prelude::*;

verus! {

/// What a piece of the node that was split holds, the node held.
pub proof fn lemma_parted_piece_back(
    c: CommitModel,
    d: CommitModel,
    page_size: u32,
    parent: u64,
    gone: u64,
    at: int,
    i: int,
    h: nat,
    k: Seq<u8>,
    v: Seq<u8>,
)
    requires
        parted(c, d, page_size, parent, gone, at),
        unique_refs(c.tx.staging),
        closed_refs(c.tx.staging),
        c.tx.staging.fresh(),
        0 <= i < c.tx.staging.nodes[gone].split(page_size as nat).len(),
        held(d, NodeId::Id((c.tx.staging.next_node_id + i) as u64), h, k, v),
    ensures
        held(c, NodeId::Id(gone), h, k, v),
    decreases h, 0nat,
{
    let st = c.tx.staging;
    let node = st.nodes[gone];
    let t = page_size as nat;
    let pieces = node.split(t);
    let b = st.next_node_id;
    let y = NodeId::Id((b + i) as u64);
    let x = NodeId::Id(gone);
    let start = piece_start(node, t, i);
    let low = (h - 1) as nat;
    assert(d.tx.staging.nodes.contains_key((b + i) as u64));
    assert(d.tx.staging.nodes[(b + i) as u64] == pieces[i]);
    assert(load(d, y)->Ok_0.node == pieces[i]);
    assert(load(c, x)->Ok_0.node == node);
    lemma_piece(node, t, i);
    match node {
        NodeModel::Leaf(ns) => {
            let ps = pieces[i]->Leaf_0;
            let q = choose|q: int|
                0 <= q < ps.len() && (#[trigger] ps[q]).key == k && ps[q].value == v;
            assert(ps[q] == ns[start + q]);
            lemma_held_leaf(c, x, h, start + q);
        },
        NodeModel::Branch(ns) => {
            let ps = pieces[i]->Branch_0;
            let q = choose|q: int| 0 <= q < ps.len() && held(d, (#[trigger] ps[q]).node_id, low, k, v);
            assert(ps[q] == ns[start + q]);
            assert(is_entry(st, gone, start + q));
            if let NodeId::Id(z) = ns[start + q].node_id {
                assert(st.nodes.contains_key(ref_at(st, gone, start + q)->Id_0));
            }
            lemma_parted_back(c, d, page_size, parent, gone, at, ns[start + q].node_id, low, k, v);
            lemma_held_branch(c, x, h, start + q, k, v);
        },
    }
}

/// What a tree holds after a node was split it held before, where its
/// root was there before.
pub proof fn lemma_parted_back(
    c: CommitModel,
    d: CommitModel,
    page_size: u32,
    parent: u64,
    gone: u64,
    at: int,
    id: NodeId,
    h: nat,
    k: Seq<u8>,
    v: Seq<u8>,
)
    requires
        parted(c, d, page_size, parent, gone, at),
        unique_refs(c.tx.staging),
        closed_refs(c.tx.staging),
        c.tx.staging.fresh(),
        id matches NodeId::Id(x) ==> c.tx.staging.nodes.contains_key(x),
        held(d, id, h, k, v),
    ensures
        held(c, id, h, k, v),
    decreases h, 1nat,
{
    let st = c.tx.staging;
    let es = st.nodes[parent]->Branch_0;
    let n = st.nodes[gone].split(page_size as nat).len() as int;
    let b = st.next_node_id;
    let low = (h - 1) as nat;
    match id {
        NodeId::Address(a) => {
            lemma_file_children(c, a);
            assert(load(d, id) == load(c, id));
        },
        NodeId::Id(x) => {
            assert(x < b);
            assert(d.tx.staging.nodes.contains_key(x));
            assert(x != gone);
            if x != parent {
                assert(d.tx.staging.nodes[x] == st.nodes[x]);
            }
        },
    }
    match load(d, id)->Ok_0.node {
        NodeModel::Leaf(ls) => {
            let j = choose|j: int|
                0 <= j < ls.len() && (#[trigger] ls[j]).key == k && ls[j].value == v;
            lemma_held_leaf(c, id, h, j);
        },
        NodeModel::Branch(ds) => {
            let j = choose|j: int| 0 <= j < ds.len() && held(d, (#[trigger] ds[j]).node_id, low, k, v);
            if id == NodeId::Id(parent) {
                if j < at {
                    assert(ds[j] == es[j]);
                    assert(is_entry(st, parent, j));
                    if let NodeId::Id(z) = es[j].node_id {
                        assert(st.nodes.contains_key(ref_at(st, parent, j)->Id_0));
                    }
                    lemma_parted_back(c, d, page_size, parent, gone, at, es[j].node_id, low, k, v);
                    lemma_held_branch(c, id, h, j, k, v);
                } else if j < at + n {
                    let i = j - at;
                    assert(ds[at + i].node_id == NodeId::Id((b + i) as u64));
                    lemma_parted_piece_back(c, d, page_size, parent, gone, at, i, low, k, v);
                    lemma_held_branch(c, id, h, at, k, v);
                } else {
                    let i = j - n + 1;
                    assert(ds[i + n - 1] == es[i]);
                    assert(is_entry(st, parent, i));
                    if let NodeId::Id(z) = es[i].node_id {
                        assert(st.nodes.contains_key(ref_at(st, parent, i)->Id_0));
                    }
                    lemma_parted_back(c, d, page_size, parent, gone, at, es[i].node_id, low, k, v);
                    lemma_held_branch(c, id, h, i, k, v);
                }
            } else {
                let cs = load(c, id)->Ok_0.node->Branch_0;
                assert(ds[j] == cs[j]);
                if let NodeId::Id(x) = id {
                    assert(is_entry(st, x, j));
                    if let NodeId::Id(z) = cs[j].node_id {
                        assert(st.nodes.contains_key(ref_at(st, x, j)->Id_0));
                    }
                }
                lemma_parted_back(c, d, page_size, parent, gone, at, cs[j].node_id, low, k, v);
                lemma_held_branch(c, id, h, j, k, v);
            }
        },
    }
}

/// What a tree holds after a new root was put above the root it held
/// before, where its root was there before.
pub proof fn lemma_crowned_back(
    c: CommitModel,
    d: CommitModel,
    root: u64,
    id: NodeId,
    h: nat,
    k: Seq<u8>,
    v: Seq<u8>,
)
    requires
        crowned(c, d, root),
        closed_refs(c.tx.staging),
        c.tx.staging.fresh(),
        id matches NodeId::Id(x) ==> c.tx.staging.nodes.contains_key(x),
        held(d, id, h, k, v),
    ensures
        held(c, id, h, k, v),
    decreases h,
{
    let st = c.tx.staging;
    let low = (h - 1) as nat;
    match id {
        NodeId::Address(a) => {
            lemma_file_children(c, a);
            assert(load(d, id) == load(c, id));
        },
        NodeId::Id(x) => {
            assert(d.tx.staging.nodes[x] == st.nodes[x]);
            assert(d.tx.staging.nodes.dom().contains(x));
        },
    }
    match load(d, id)->Ok_0.node {
        NodeModel::Leaf(ls) => {
            let j = choose|j: int|
                0 <= j < ls.len() && (#[trigger] ls[j]).key == k && ls[j].value == v;
            lemma_held_leaf(c, id, h, j);
        },
        NodeModel::Branch(cs) => {
            let j = choose|j: int| 0 <= j < cs.len() && held(d, (#[trigger] cs[j]).node_id, low, k, v);
            if let NodeId::Id(x) = id {
                assert(is_entry(st, x, j));
                if let NodeId::Id(z) = cs[j].node_id {
                    assert(st.nodes.contains_key(ref_at(st, x, j)->Id_0));
                }
            }
            lemma_crowned_back(c, d, root, cs[j].node_id, low, k, v);
            lemma_held_branch(c, id, h, j, k, v);
        },
    }
}

/// What the tree holds after a node was split, it held before.
pub proof fn lemma_split_node_back(c: CommitModel, page_size: u32, node_id: u64, node_index: int)
    requires
        split_node(c.tx, page_size, node_id, node_index) is Ok,
    ensures
        passed_down(
            c,
            CommitModel { tx: split_node(c.tx, page_size, node_id, node_index)->Ok_0.0, ..c },
        ),
{
    let st = c.tx;
    let (st2, _) = split_node(st, page_size, node_id, node_index)->Ok_0;
    let d = CommitModel { tx: st2, ..c };
    if sane(st) {
        if st.staging.nodes[node_id].split(page_size as nat).len() == 1 {
            lemma_split_one(c, page_size, node_id, node_index);
            assert(d == c);
        } else if st.staging.parent.contains_key(node_id) {
            let parent_id = st.staging.parent[node_id];
            lemma_split_inside(c, page_size, node_id, node_index);
            assert forall|h: nat, k: Seq<u8>, v: Seq<u8>| #[trigger]
                held(d, d.tx.root, h, k, v) implies held(c, c.tx.root, h + 0, k, v) by {
                lemma_parted_back(c, d, page_size, parent_id, node_id, node_index, c.tx.root, h, k, v);
            }
        } else {
            let b = st.staging.next_node_id;
            let mid = crown_of(c, node_id);
            lemma_split_root(c, page_size, node_id, node_index);
            crate::split_law::lemma_crowned(c, mid, page_size, node_id);
            assert forall|h: nat, k: Seq<u8>, v: Seq<u8>| #[trigger]
                held(d, d.tx.root, h, k, v) implies held(c, c.tx.root, h + 0, k, v) by {
                lemma_parted_back(mid, d, page_size, b, node_id, 0, mid.tx.root, h, k, v);
                let es = mid.tx.staging.nodes[b]->Branch_0;
                assert(load(mid, NodeId::Id(b))->Ok_0.node == NodeModel::Branch(es));
                let j = choose|j: int|
                    0 <= j < es.len() && held(mid, (#[trigger] es[j]).node_id, (h - 1) as nat, k, v);
                lemma_crowned_back(c, mid, node_id, NodeId::Id(node_id), (h - 1) as nat, k, v);
                lemma_more_levels(c, page_size, c.tx.root, (h - 1) as nat, k, v);
            }
        }
    }
    assert(passed_back(c, d, 0));
}

/// What the tree holds after splitting below the staged children of a
/// node, it held before.
pub proof fn lemma_split_children_back(
    c: CommitModel,
    page_size: u32,
    node_id: u64,
    from: int,
    depth: nat,
    measure: nat,
)
    requires
        split_children(c.tx, page_size, node_id, from, depth, measure) is Ok,
    ensures
        passed_down(
            c,
            CommitModel {
                tx: split_children(c.tx, page_size, node_id, from, depth, measure)->Ok_0,
                ..c
            },
        ),
    decreases depth, 0nat, measure,
{
    match next_dirty(c.tx.staging.nodes[node_id], from) {
        None => {
            assert(passed_back(c, c, 0));
        },
        Some((child, index)) => {
            lemma_traverse_split_back(c, page_size, child, index, (depth - 1) as nat);
            lemma_traverse_split(c, page_size, child, index, (depth - 1) as nat);
            let (after, count) = traverse_split(
                c.tx,
                page_size,
                child,
                index,
                (depth - 1) as nat,
            )->Ok_0;
            let next_from = index + count;
            let left = after.staging.nodes[node_id].len() - next_from;
            let c1 = CommitModel { tx: after, ..c };
            lemma_split_children_back(c1, page_size, node_id, next_from, depth, left as nat);
            lemma_passed_up_sane(c, c1, page_size);
            let done = split_children(after, page_size, node_id, next_from, depth, left as nat)->Ok_0;
            lemma_passed_down_trans(c, c1, CommitModel { tx: done, ..c });
        },
    }
}

/// What the tree holds after splitting in the staged tree under a node,
/// it held before.
pub proof fn lemma_traverse_split_back(
    c: CommitModel,
    page_size: u32,
    node_id: u64,
    node_index: int,
    depth: nat,
)
    requires
        traverse_split(c.tx, page_size, node_id, node_index, depth) is Ok,
    ensures
        passed_down(
            c,
            CommitModel {
                tx: traverse_split(c.tx, page_size, node_id, node_index, depth)->Ok_0.0,
                ..c
            },
        ),
    decreases depth, 1nat, 0nat,
{
    lemma_split_children_back(c, page_size, node_id, 0, depth, c.tx.staging.nodes[node_id].len());
    lemma_split_children(c, page_size, node_id, 0, depth, c.tx.staging.nodes[node_id].len());
    let after = split_children(
        c.tx,
        page_size,
        node_id,
        0,
        depth,
        c.tx.staging.nodes[node_id].len(),
    )->Ok_0;
    let c1 = CommitModel { tx: after, ..c };
    lemma_passed_up_sane(c, c1, page_size);
    if split_candidate(after.staging.nodes[node_id], page_size) {
        lemma_split_node_back(c1, page_size, node_id, node_index);
        let done = split_node(after, page_size, node_id, node_index)->Ok_0.0;
        lemma_passed_down_trans(c, c1, CommitModel { tx: done, ..c });
    }
}

/// Splitting in the staged tree adds nothing to what the tree holds:
/// every value that the tree holds under a key afterwards it held under
/// the key before.
pub proof fn lemma_split_all_back(c: CommitModel, page_size: u32, rounds: nat)
    requires
        split_all(c.tx, page_size, rounds) is Ok,
    ensures
        passed_down(c, CommitModel { tx: split_all(c.tx, page_size, rounds)->Ok_0, ..c }),
    decreases rounds,
{
    match c.tx.root {
        NodeId::Address(_) => {
            assert(passed_back(c, c, 0));
        },
        NodeId::Id(id) => {
            lemma_traverse_split_back(c, page_size, id, 0, 64);
            lemma_traverse_split(c, page_size, id, 0, 64);
            let (after, count) = traverse_split(c.tx, page_size, id, 0, 64)->Ok_0;
            let c1 = CommitModel { tx: after, ..c };
            lemma_passed_up_sane(c, c1, page_size);
            if count >= 2 {
                lemma_split_all_back(c1, page_size, (rounds - 1) as nat);
                let done = split_all(after, page_size, (rounds - 1) as nat)->Ok_0;
                lemma_passed_down_trans(c, c1, CommitModel { tx: done, ..c });
            }
        },
    }
}

} // verus!
