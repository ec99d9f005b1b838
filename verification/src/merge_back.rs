use crate::merge::{
    merge_all, merge_candidate, merge_children, merge_inner, merge_root, stage_child,
    traverse_merge,
};
use crate::merge_law::{
    dropped, joined, lemma_file_children, lemma_merge_children, lemma_more_levels, lemma_only_ref,
    lemma_stage_child, lemma_traverse_merge, lifted, sane,
};
use crate::node::{next_dirty, NodeId, NodeModel};
use crate::store::node_at;
use crate::tree_update::{closed_refs, is_entry, ref_at, unique_refs};
use crate::write_law::{held, lemma_held_branch, lemma_held_leaf, load};
use crate::write_model::CommitModel;
use vstd::prelude::*;

verus! {

/// What the node that took the entries of the other holds afterwards,
/// one of the two held before.
pub proof fn lemma_joined_keep_back(
    c: CommitModel,
    d: CommitModel,
    parent: u64,
    keep: u64,
    gone: u64,
    at: int,
    h: nat,
    k: Seq<u8>,
    v: Seq<u8>,
)
    requires
        joined(c, d, parent, keep, gone, at),
        unique_refs(c.tx.staging),
        held(d, NodeId::Id(keep), h, k, v),
    ensures
        held(c, NodeId::Id(keep), h, k, v) || held(c, NodeId::Id(gone), h, k, v),
    decreases h, 0nat,
{
    let st = c.tx.staging;
    let kn = st.nodes[keep];
    let g = st.nodes[gone];
    let low = (h - 1) as nat;
    assert(is_entry(st, parent, at + 1));
    assert(is_entry(st, parent, at));
    assert(d.tx.staging.nodes.contains_key(keep));
    assert(d.tx.staging.nodes[keep] == kn.merge(g));
    assert(load(d, NodeId::Id(keep))->Ok_0.node == kn.merge(g));
    assert(load(c, NodeId::Id(keep))->Ok_0.node == kn);
    assert(load(c, NodeId::Id(gone))->Ok_0.node == g);
    match kn {
        NodeModel::Leaf(ks) => {
            let gs = g->Leaf_0;
            let m = ks + gs;
            assert(kn.merge(g) == NodeModel::Leaf(m));
            let j = choose|j: int| 0 <= j < m.len() && (#[trigger] m[j]).key == k && m[j].value == v;
            if j < ks.len() {
                assert(m[j] == ks[j]);
                lemma_held_leaf(c, NodeId::Id(keep), h, j);
            } else {
                assert(m[j] == gs[j - ks.len()]);
                lemma_held_leaf(c, NodeId::Id(gone), h, j - ks.len());
            }
        },
        NodeModel::Branch(ks) => {
            let gs = g->Branch_0;
            let m = ks + gs;
            assert(kn.merge(g) == NodeModel::Branch(m));
            let j = choose|j: int| 0 <= j < m.len() && held(d, (#[trigger] m[j]).node_id, low, k, v);
            let (a, i) = if j < ks.len() {
                (keep, j)
            } else {
                (gone, j - ks.len())
            };
            assert(is_entry(st, a, i));
            assert(m[j].node_id == ref_at(st, a, i));
            if m[j].node_id == NodeId::Id(keep) {
                lemma_only_ref(c.tx, a, i, parent, at);
            }
            lemma_joined_back(c, d, parent, keep, gone, at, m[j].node_id, low, k, v);
            lemma_held_branch(c, NodeId::Id(a), h, i, k, v);
        },
    }
}

/// What a tree holds after two nodes were joined it held before, where
/// its root is not the node that took the entries.
pub proof fn lemma_joined_back(
    c: CommitModel,
    d: CommitModel,
    parent: u64,
    keep: u64,
    gone: u64,
    at: int,
    id: NodeId,
    h: nat,
    k: Seq<u8>,
    v: Seq<u8>,
)
    requires
        joined(c, d, parent, keep, gone, at),
        unique_refs(c.tx.staging),
        id != NodeId::Id(keep),
        held(d, id, h, k, v),
    ensures
        held(c, id, h, k, v),
    decreases h, 1nat,
{
    let st = c.tx.staging;
    let es = st.nodes[parent]->Branch_0;
    let low = (h - 1) as nat;
    assert(is_entry(st, parent, at + 1));
    assert(is_entry(st, parent, at));
    match id {
        NodeId::Address(a) => {
            lemma_file_children(c, a);
            assert(load(d, id) == load(c, id));
        },
        NodeId::Id(x) => {
            assert(d.tx.staging.nodes.contains_key(x));
            assert(x != gone);
            assert(st.nodes.contains_key(x));
            if x != parent {
                assert(d.tx.staging.nodes[x] == st.nodes[x]);
            }
        },
    }
    if id == NodeId::Id(parent) {
        let after = es.remove(at + 1);
        assert(d.tx.staging.nodes[parent] == NodeModel::Branch(after));
        let j = choose|j: int| 0 <= j < after.len() && held(d, (#[trigger] after[j]).node_id, low, k, v);
        let i = if j < at + 1 {
            j
        } else {
            j + 1
        };
        assert(after[j] == es[i]);
        assert(is_entry(st, parent, i));
        if i == at {
            lemma_joined_keep_back(c, d, parent, keep, gone, at, low, k, v);
            if held(c, NodeId::Id(keep), low, k, v) {
                lemma_held_branch(c, id, h, at, k, v);
            } else {
                lemma_held_branch(c, id, h, at + 1, k, v);
            }
        } else {
            if es[i].node_id == NodeId::Id(keep) {
                lemma_only_ref(c.tx, parent, i, parent, at);
            }
            lemma_joined_back(c, d, parent, keep, gone, at, es[i].node_id, low, k, v);
            lemma_held_branch(c, id, h, i, k, v);
        }
    } else {
        match load(d, id)->Ok_0.node {
            NodeModel::Leaf(ls) => {
                let j = choose|j: int|
                    0 <= j < ls.len() && (#[trigger] ls[j]).key == k && ls[j].value == v;
                lemma_held_leaf(c, id, h, j);
            },
            NodeModel::Branch(cs) => {
                let j = choose|j: int| 0 <= j < cs.len() && held(d, (#[trigger] cs[j]).node_id, low, k, v);
                if let NodeId::Id(x) = id {
                    assert(is_entry(st, x, j));
                    if cs[j].node_id == NodeId::Id(keep) {
                        lemma_only_ref(c.tx, x, j, parent, at);
                    }
                }
                lemma_joined_back(c, d, parent, keep, gone, at, cs[j].node_id, low, k, v);
                lemma_held_branch(c, id, h, j, k, v);
            },
        }
    }
}

/// What a tree holds after a node without entries left it, it held
/// before.
pub proof fn lemma_dropped_back(
    c: CommitModel,
    d: CommitModel,
    parent: u64,
    gone: u64,
    at: int,
    id: NodeId,
    h: nat,
    k: Seq<u8>,
    v: Seq<u8>,
)
    requires
        dropped(c, d, parent, gone, at),
        held(d, id, h, k, v),
    ensures
        held(c, id, h, k, v),
    decreases h,
{
    let st = c.tx.staging;
    let es = st.nodes[parent]->Branch_0;
    let low = (h - 1) as nat;
    match id {
        NodeId::Address(a) => {
            assert(load(d, id) == load(c, id));
        },
        NodeId::Id(x) => {
            assert(d.tx.staging.nodes.contains_key(x));
            assert(x != gone);
            assert(st.nodes.contains_key(x));
            if x != parent {
                assert(d.tx.staging.nodes[x] == st.nodes[x]);
            } else {
                assert(d.tx.staging.nodes[parent] == NodeModel::Branch(es.remove(at)));
            }
        },
    }
    match load(d, id)->Ok_0.node {
        NodeModel::Leaf(ls) => {
            let j = choose|j: int|
                0 <= j < ls.len() && (#[trigger] ls[j]).key == k && ls[j].value == v;
            lemma_held_leaf(c, id, h, j);
        },
        NodeModel::Branch(ds) => {
            let j = choose|j: int| 0 <= j < ds.len() && held(d, (#[trigger] ds[j]).node_id, low, k, v);
            let i = if id == NodeId::Id(parent) && j >= at {
                j + 1
            } else {
                j
            };
            let cs = load(c, id)->Ok_0.node->Branch_0;
            assert(ds[j] == cs[i]);
            lemma_dropped_back(c, d, parent, gone, at, ds[j].node_id, low, k, v);
            lemma_held_branch(c, id, h, i, k, v);
        },
    }
}

/// What a tree holds after a child was staged it held before, where its
/// root is not the staged copy.
pub proof fn lemma_lifted_back(
    c: CommitModel,
    d: CommitModel,
    parent: u64,
    at: int,
    id: NodeId,
    h: nat,
    k: Seq<u8>,
    v: Seq<u8>,
)
    requires
        lifted(c, d, parent, at),
        c.tx.staging.fresh(),
        closed_refs(c.tx.staging),
        id != NodeId::Id(c.tx.staging.next_node_id),
        held(d, id, h, k, v),
    ensures
        held(c, id, h, k, v),
    decreases h, 1nat,
{
    let st = c.tx.staging;
    let new = st.next_node_id;
    let es = st.nodes[parent]->Branch_0;
    let low = (h - 1) as nat;
    match id {
        NodeId::Address(a) => {
            lemma_file_children(c, a);
            assert(load(d, id) == load(c, id));
        },
        NodeId::Id(x) => {
            assert(d.tx.staging.nodes.contains_key(x));
            assert(st.nodes.contains_key(x));
            if x != parent {
                assert(d.tx.staging.nodes[x] == st.nodes[x]);
            }
        },
    }
    match load(d, id)->Ok_0.node {
        NodeModel::Leaf(ls) => {
            let j = choose|j: int|
                0 <= j < ls.len() && (#[trigger] ls[j]).key == k && ls[j].value == v;
            lemma_held_leaf(c, id, h, j);
        },
        NodeModel::Branch(ds) => {
            let j = choose|j: int| 0 <= j < ds.len() && held(d, (#[trigger] ds[j]).node_id, low, k, v);
            let cs = load(c, id)->Ok_0.node->Branch_0;
            if id == NodeId::Id(parent) && j == at {
                lemma_lifted_child_back(c, d, parent, at, low, k, v);
            } else {
                assert(ds[j] == cs[j]);
                if let NodeId::Id(x) = id {
                    assert(is_entry(st, x, j));
                    if cs[j].node_id == NodeId::Id(new) {
                        assert(st.nodes.contains_key(ref_at(st, x, j)->Id_0));
                    }
                }
                lemma_lifted_back(c, d, parent, at, cs[j].node_id, low, k, v);
            }
            lemma_held_branch(c, id, h, j, k, v);
        },
    }
}

/// What the staged copy of a child holds, the child in the file held.
pub proof fn lemma_lifted_child_back(
    c: CommitModel,
    d: CommitModel,
    parent: u64,
    at: int,
    h: nat,
    k: Seq<u8>,
    v: Seq<u8>,
)
    requires
        lifted(c, d, parent, at),
        c.tx.staging.fresh(),
        closed_refs(c.tx.staging),
        held(d, NodeId::Id(c.tx.staging.next_node_id), h, k, v),
    ensures
        held(c, c.tx.staging.nodes[parent]->Branch_0[at].node_id, h, k, v),
    decreases h, 0nat,
{
    let st = c.tx.staging;
    let new = st.next_node_id;
    let es = st.nodes[parent]->Branch_0;
    let a = es[at].node_id->Address_0;
    let x = NodeId::Address(a);
    let y = NodeId::Id(new);
    let child = node_at(c.image, a as int)->Ok_0.1;
    let low = (h - 1) as nat;
    assert(d.tx.staging.nodes.contains_key(new));
    assert(d.tx.staging.nodes[new] == child);
    assert(load(c, x)->Ok_0.node == child);
    assert(load(d, y)->Ok_0.node == child);
    lemma_file_children(c, a);
    match child {
        NodeModel::Leaf(ls) => {
            let j = choose|j: int|
                0 <= j < ls.len() && (#[trigger] ls[j]).key == k && ls[j].value == v;
            lemma_held_leaf(c, x, h, j);
        },
        NodeModel::Branch(cs) => {
            let j = choose|j: int| 0 <= j < cs.len() && held(d, (#[trigger] cs[j]).node_id, low, k, v);
            lemma_lifted_back(c, d, parent, at, cs[j].node_id, low, k, v);
            lemma_held_branch(c, x, h, j, k, v);
        },
    }
}

/// What a tree holds after staged nodes left the staging area, the
/// others staying as they are, it held before.
pub proof fn lemma_fewer_back(c: CommitModel, d: CommitModel, id: NodeId, h: nat, k: Seq<u8>, v: Seq<u8>)
    requires
        d.image == c.image,
        forall|x: u64| #[trigger]
            d.tx.staging.nodes.contains_key(x) ==> c.tx.staging.nodes.contains_key(x)
                && c.tx.staging.nodes[x] == d.tx.staging.nodes[x],
        held(d, id, h, k, v),
    ensures
        held(c, id, h, k, v),
    decreases h,
{
    match id {
        NodeId::Address(a) => {
            assert(load(d, id) == load(c, id));
        },
        NodeId::Id(x) => {
            assert(d.tx.staging.nodes.contains_key(x));
        },
    }
    match load(d, id)->Ok_0.node {
        NodeModel::Leaf(ls) => {
            let j = choose|j: int|
                0 <= j < ls.len() && (#[trigger] ls[j]).key == k && ls[j].value == v;
            lemma_held_leaf(c, id, h, j);
        },
        NodeModel::Branch(cs) => {
            let j = choose|j: int|
                0 <= j < cs.len() && held(d, (#[trigger] cs[j]).node_id, (h - 1) as nat, k, v);
            lemma_fewer_back(c, d, cs[j].node_id, (h - 1) as nat, k, v);
            lemma_held_branch(c, id, h, j, k, v);
        },
    }
}

/// Whether what the tree of the transaction holds at `d` it held at `c`,
/// with `grow` more levels allowed, where the staged nodes were in order
/// at `c`.
pub open spec fn passed_back(c: CommitModel, d: CommitModel, grow: nat) -> bool {
    sane(c.tx) ==> forall|h: nat, k: Seq<u8>, v: Seq<u8>| #[trigger]
        held(d, d.tx.root, h, k, v) ==> held(c, c.tx.root, h + grow, k, v)
}

/// Whether what the tree of the transaction holds at `d` it held at `c`,
/// with some more levels allowed.
pub open spec fn passed_down(c: CommitModel, d: CommitModel) -> bool {
    exists|grow: nat| passed_back(c, d, grow)
}

/// What is passed down from `c` to `d` and from `d` to `e` is passed
/// down from `c` to `e`, where the staged nodes stay in order.
pub proof fn lemma_passed_down_trans(c: CommitModel, d: CommitModel, e: CommitModel)
    requires
        passed_down(c, d),
        passed_down(d, e),
        sane(c.tx) ==> sane(d.tx),
    ensures
        passed_down(c, e),
{
    let g1 = choose|g: nat| passed_back(c, d, g);
    let g2 = choose|g: nat| passed_back(d, e, g);
    if sane(c.tx) {
        assert forall|h: nat, k: Seq<u8>, v: Seq<u8>| #[trigger]
            held(e, e.tx.root, h, k, v) implies held(c, c.tx.root, h + (g1 + g2), k, v) by {
            assert(held(d, d.tx.root, h + g2, k, v));
            assert(held(c, c.tx.root, (h + g2) + g1, k, v));
        }
    }
    assert(passed_back(c, e, g1 + g2));
}

/// What a tree holds after the child at an entry of a staged branch was
/// staged it held before, where its root was there before.
pub proof fn lemma_stage_child_back(
    c: CommitModel,
    parent: u64,
    at: int,
    id: NodeId,
    h: nat,
    k: Seq<u8>,
    v: Seq<u8>,
)
    requires
        sane(c.tx),
        stage_child(c.tx, c.image, parent, at) is Ok,
        id matches NodeId::Id(x) ==> c.tx.staging.nodes.contains_key(x),
        held(CommitModel { tx: stage_child(c.tx, c.image, parent, at)->Ok_0.0, ..c }, id, h, k, v),
    ensures
        held(c, id, h, k, v),
{
    let (st, child) = stage_child(c.tx, c.image, parent, at)->Ok_0;
    let d = CommitModel { tx: st, ..c };
    let es = c.tx.staging.nodes[parent]->Branch_0;
    match es[at].node_id {
        NodeId::Id(x) => {
            assert(d == c);
        },
        NodeId::Address(a) => {
            assert(lifted(c, d, parent, at));
            lemma_lifted_back(c, d, parent, at, id, h, k, v);
        },
    }
}

/// What the tree holds after a node that is not the root was merged, it
/// held before.
pub proof fn lemma_merge_inner_back(c: CommitModel, node_id: u64, node_index: int, parent_id: u64)
    requires
        c.tx.staging.nodes.contains_key(node_id),
        merge_inner(c.tx, c.image, node_id, node_index, parent_id) is Ok,
    ensures
        passed_down(
            c,
            CommitModel {
                tx: merge_inner(c.tx, c.image, node_id, node_index, parent_id)->Ok_0.0,
                ..c
            },
        ),
{
    let st = c.tx;
    let (st2, _) = merge_inner(st, c.image, node_id, node_index, parent_id)->Ok_0;
    let d = CommitModel { tx: st2, ..c };
    if sane(st) {
        let node = st.staging.nodes[node_id];
        let parent_entries = st.staging.nodes[parent_id]->Branch_0;
        if node.len() == 0 {
            assert(dropped(c, d, parent_id, node_id, node_index));
            assert forall|h: nat, k: Seq<u8>, v: Seq<u8>| #[trigger]
                held(d, d.tx.root, h, k, v) implies held(c, c.tx.root, h + 0, k, v) by {
                lemma_dropped_back(c, d, parent_id, node_id, node_index, d.tx.root, h, k, v);
            }
        } else if parent_entries.len() < 2 {
            assert(d == c);
        } else {
            let sibling_index = if node_index == 0 {
                1
            } else {
                node_index - 1
            };
            lemma_stage_child(c, 1, parent_id, sibling_index);
            let (staged, sibling_id) = stage_child(st, c.image, parent_id, sibling_index)->Ok_0;
            let c1 = CommitModel { tx: staged, ..c };
            let (keep, gone, at) = if node_index == 0 {
                (node_id, sibling_id, 0int)
            } else {
                (sibling_id, node_id, node_index - 1)
            };
            let es1 = staged.staging.nodes[parent_id]->Branch_0;
            assert(es1[node_index] == parent_entries[node_index]);
            assert(joined(c1, d, parent_id, keep, gone, at));
            assert forall|h: nat, k: Seq<u8>, v: Seq<u8>| #[trigger]
                held(d, d.tx.root, h, k, v) implies held(c, c.tx.root, h + 0, k, v) by {
                lemma_joined_back(c1, d, parent_id, keep, gone, at, d.tx.root, h, k, v);
                lemma_stage_child_back(c, parent_id, sibling_index, c.tx.root, h, k, v);
            }
        }
    }
    assert(passed_back(c, d, 0));
}

/// What the tree holds after the root was merged, it held before.
pub proof fn lemma_merge_root_back(c: CommitModel, node_id: u64)
    requires
        c.tx.staging.nodes.contains_key(node_id),
        merge_root(c.tx, c.image, node_id) is Ok,
    ensures
        passed_down(c, CommitModel { tx: merge_root(c.tx, c.image, node_id)->Ok_0.0, ..c }),
{
    let st = c.tx;
    let (st2, _) = merge_root(st, c.image, node_id)->Ok_0;
    let d = CommitModel { tx: st2, ..c };
    let root = NodeId::Id(node_id);
    if sane(st) {
        let node = st.staging.nodes[node_id];
        if node.len() == 0 {
            let new = st.staging.next_node_id;
            assert(st2.staging.nodes[new] == NodeModel::Leaf(Seq::empty()));
            assert(load(d, d.tx.root)->Ok_0.node == NodeModel::Leaf(Seq::empty()));
            assert forall|h: nat, k: Seq<u8>, v: Seq<u8>| #[trigger]
                held(d, d.tx.root, h, k, v) implies held(c, c.tx.root, h + 1, k, v) by {}
        } else if node is Branch && node.len() == 1 {
            lemma_stage_child(c, 1, node_id, 0);
            let (staged, child) = stage_child(st, c.image, node_id, 0)->Ok_0;
            let c1 = CommitModel { tx: staged, ..c };
            let y = NodeId::Id(child);
            assert forall|h: nat, k: Seq<u8>, v: Seq<u8>| #[trigger]
                held(d, d.tx.root, h, k, v) implies held(c, c.tx.root, h + 1, k, v) by {
                lemma_fewer_back(c1, d, y, h, k, v);
                lemma_held_branch(c1, root, h + 1, 0, k, v);
                lemma_stage_child_back(c, node_id, 0, root, h + 1, k, v);
            }
        } else {
            assert(d == c);
            assert forall|h: nat, k: Seq<u8>, v: Seq<u8>| #[trigger]
                held(d, d.tx.root, h, k, v) implies held(c, c.tx.root, h + 1, k, v) by {
                lemma_more_levels(c, 1, c.tx.root, h, k, v);
            }
        }
    }
    assert(passed_back(c, d, 1));
}

/// What the tree holds after merging below the staged children of a
/// node, it held before.
pub proof fn lemma_merge_children_back(
    c: CommitModel,
    page_size: u32,
    node_id: u64,
    from: int,
    depth: nat,
    measure: nat,
)
    requires
        merge_children(c.tx, c.image, page_size, node_id, from, depth, measure) is Ok,
    ensures
        passed_down(
            c,
            CommitModel {
                tx: merge_children(c.tx, c.image, page_size, node_id, from, depth, measure)->Ok_0,
                ..c
            },
        ),
    decreases depth, 0nat, measure,
{
    match next_dirty(c.tx.staging.nodes[node_id], from) {
        None => {
            assert(passed_back(c, c, 0));
        },
        Some((child, index)) => {
            lemma_traverse_merge_back(c, page_size, child, index, (depth - 1) as nat);
            lemma_traverse_merge(c, page_size, child, index, (depth - 1) as nat);
            let (after, merged) = traverse_merge(
                c.tx,
                c.image,
                page_size,
                child,
                index,
                (depth - 1) as nat,
            )->Ok_0;
            let next_from = if merged {
                index
            } else {
                index + 1
            };
            let left = after.staging.nodes[node_id].len() - next_from;
            let c1 = CommitModel { tx: after, ..c };
            lemma_merge_children_back(c1, page_size, node_id, next_from, depth, left as nat);
            let done = merge_children(
                after,
                c.image,
                page_size,
                node_id,
                next_from,
                depth,
                left as nat,
            )->Ok_0;
            lemma_passed_down_trans(c, c1, CommitModel { tx: done, ..c });
        },
    }
}

/// What the tree holds after merging in the staged tree under a node, it
/// held before.
pub proof fn lemma_traverse_merge_back(
    c: CommitModel,
    page_size: u32,
    node_id: u64,
    node_index: int,
    depth: nat,
)
    requires
        traverse_merge(c.tx, c.image, page_size, node_id, node_index, depth) is Ok,
    ensures
        passed_down(
            c,
            CommitModel {
                tx: traverse_merge(c.tx, c.image, page_size, node_id, node_index, depth)->Ok_0.0,
                ..c
            },
        ),
    decreases depth, 1nat, 0nat,
{
    lemma_merge_children_back(
        c,
        page_size,
        node_id,
        0,
        depth,
        c.tx.staging.nodes[node_id].len(),
    );
    lemma_merge_children(c, page_size, node_id, 0, depth, c.tx.staging.nodes[node_id].len());
    let after = merge_children(
        c.tx,
        c.image,
        page_size,
        node_id,
        0,
        depth,
        c.tx.staging.nodes[node_id].len(),
    )->Ok_0;
    let c1 = CommitModel { tx: after, ..c };
    if merge_candidate(after.staging.nodes[node_id], page_size) {
        if !after.staging.parent.contains_key(node_id) {
            lemma_merge_root_back(c1, node_id);
        } else {
            lemma_merge_inner_back(c1, node_id, node_index, after.staging.parent[node_id]);
        }
        let done = crate::merge::merge_node(after, c.image, node_id, node_index)->Ok_0.0;
        lemma_passed_down_trans(c, c1, CommitModel { tx: done, ..c });
    }
}

/// Merging in the staged tree adds nothing to what the tree holds: every
/// value that the tree holds under a key afterwards it held under the
/// key before.
pub proof fn lemma_merge_all_back(c: CommitModel, page_size: u32)
    requires
        merge_all(c.tx, c.image, page_size) is Ok,
    ensures
        passed_down(c, CommitModel { tx: merge_all(c.tx, c.image, page_size)->Ok_0, ..c }),
{
    match c.tx.root {
        NodeId::Address(_) => {
            assert(passed_back(c, c, 0));
        },
        NodeId::Id(id) => {
            lemma_traverse_merge_back(c, page_size, id, 0, 64);
        },
    }
}

} // verus!
