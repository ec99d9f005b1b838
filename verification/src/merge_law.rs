use crate::error::Error;
use crate::merge::{
    merge_all, merge_candidate, merge_children, merge_inner, merge_node, merge_root, stage_child,
    traverse_merge,
};
use crate::node::{BranchEntry, next_dirty, NodeId, NodeModel};
use crate::reader::Loaded;
use crate::store::node_at;
use crate::tree_update::{closed_refs, is_entry, ref_at, unique_refs};
use crate::tx::TxModel;
use crate::write_law::{held, kept, lemma_held_branch, lemma_held_leaf, load};
use crate::write_model::CommitModel;
use vstd::prelude::*;

verus! {

/// Whether the staged nodes of a transaction are in order: every staged
/// node has a number that was given out, no staged node is referred to by
/// two entries, and every staged node that is referred to is staged.
pub open spec fn sane(st: TxModel) -> bool {
    &&& st.staging.fresh()
    &&& unique_refs(st.staging)
    &&& closed_refs(st.staging)
    &&& root_free(st)
    &&& st.root matches NodeId::Id(root) ==> st.staging.nodes.contains_key(root)
}

/// Whether no entry of a staged branch refers to the root of the
/// transaction.
pub open spec fn root_free(st: TxModel) -> bool {
    forall|a: u64, i: int|
        is_entry(st.staging, a, i) && #[trigger] ref_at(st.staging, a, i) is Id ==> ref_at(
            st.staging,
            a,
            i,
        ) != st.root
}

/// Whether `d` is `c` after the staged node `gone`, entry `at + 1` of the
/// staged branch `parent`, gave its entries to the staged node `keep`,
/// the entry before it, and left the tree.
pub open spec fn joined(c: CommitModel, d: CommitModel, parent: u64, keep: u64, gone: u64, at: int) -> bool {
    let nodes = c.tx.staging.nodes;
    &&& d.image == c.image
    &&& d.writer == c.writer
    &&& d.tx.root == c.tx.root
    &&& d.tx.staging.next_node_id == c.tx.staging.next_node_id
    &&& nodes.contains_key(parent) && nodes.contains_key(keep) && nodes.contains_key(gone)
    &&& parent != keep && parent != gone && keep != gone
    &&& c.tx.root != NodeId::Id(gone)
    &&& c.tx.root != NodeId::Id(keep)
    &&& nodes[parent] matches NodeModel::Branch(es) && 0 <= at && at + 1 < es.len() && es[at].node_id
        == NodeId::Id(keep) && es[at + 1].node_id == NodeId::Id(gone) && d.tx.staging.nodes
        == nodes.remove(gone).insert(keep, nodes[keep].merge(nodes[gone])).insert(
        parent,
        NodeModel::Branch(es.remove(at + 1)),
    )
    &&& (nodes[keep] is Branch) == (nodes[gone] is Branch)
}

/// A staged node that one entry refers to is referred to by no other.
pub proof fn lemma_only_ref(st: TxModel, a: u64, i: int, b: u64, j: int)
    requires
        unique_refs(st.staging),
        is_entry(st.staging, a, i),
        is_entry(st.staging, b, j),
        ref_at(st.staging, a, i) == ref_at(st.staging, b, j),
        ref_at(st.staging, a, i) is Id,
    ensures
        a == b,
        i == j,
{
}

/// What a tree held before two nodes were joined it holds afterwards,
/// where its root did not leave the tree.
pub proof fn lemma_joined_holds(
    c: CommitModel,
    d: CommitModel,
    parent: u64,
    keep: u64,
    gone: u64,
    at: int,
    id: NodeId,
    h: nat,
    k: Seq<u8>,
    v: Seq<u8>,
)
    requires
        joined(c, d, parent, keep, gone, at),
        unique_refs(c.tx.staging),
        id != NodeId::Id(gone),
        held(c, id, h, k, v),
    ensures
        held(d, id, h, k, v),
    decreases h,
{
    let st = c.tx.staging;
    let es = st.nodes[parent]->Branch_0;
    let n = load(c, id)->Ok_0.node;
    let low = (h - 1) as nat;
    assert(is_entry(st, parent, at + 1));
    assert(is_entry(st, parent, at));
    if id == NodeId::Id(parent) {
        let after = es.remove(at + 1);
        assert(load(d, id)->Ok_0.node == NodeModel::Branch(after));
        let j = choose|j: int| 0 <= j < es.len() && held(c, (#[trigger] es[j]).node_id, low, k, v);
        if j == at + 1 {
            let g = st.nodes[gone];
            let kn = st.nodes[keep];
            assert(d.tx.staging.nodes.contains_key(keep));
            assert(d.tx.staging.nodes[keep] == kn.merge(g));
            assert(load(d, NodeId::Id(keep)) == Ok::<Loaded, Error>(
                Loaded { header: None, node: kn.merge(g) },
            ));
            match g {
                NodeModel::Leaf(gs) => {
                    let ks = kn->Leaf_0;
                    let i = choose|i: int|
                        0 <= i < gs.len() && (#[trigger] gs[i]).key == k && gs[i].value == v;
                    let m = ks + gs;
                    assert(m[ks.len() + i] == gs[i]);
                    assert(0 <= ks.len() + i < m.len() && m[ks.len() + i].key == k && m[ks.len()
                        + i].value == v);
                    assert(kn.merge(g) == NodeModel::Leaf(m));
                    assert(load(d, NodeId::Id(keep))->Ok_0.node == NodeModel::Leaf(m));
                    lemma_held_leaf(d, NodeId::Id(keep), low, ks.len() + i);
                    assert(held(d, NodeId::Id(keep), low, k, v));
                },
                NodeModel::Branch(gs) => {
                    let ks = kn->Branch_0;
                    let i = choose|i: int|
                        0 <= i < gs.len() && held(
                            c,
                            (#[trigger] gs[i]).node_id,
                            (low - 1) as nat,
                            k,
                            v,
                        );
                    assert(is_entry(st, gone, i));
                    if gs[i].node_id == NodeId::Id(gone) {
                        lemma_only_ref(c.tx, gone, i, parent, at + 1);
                    }
                    lemma_joined_holds(
                        c,
                        d,
                        parent,
                        keep,
                        gone,
                        at,
                        gs[i].node_id,
                        (low - 1) as nat,
                        k,
                        v,
                    );
                    let m = ks + gs;
                    assert(m[ks.len() + i] == gs[i]);
                    assert(0 <= ks.len() + i < m.len() && held(
                        d,
                        m[ks.len() + i].node_id,
                        (low - 1) as nat,
                        k,
                        v,
                    ));
                    assert(kn.merge(g) == NodeModel::Branch(m));
                    assert(low > 0);
                    assert(held(d, NodeId::Id(keep), low, k, v));
                },
            }
            assert(held(d, NodeId::Id(keep), low, k, v));
            assert(after[at] == es[at]);
            assert(held(d, after[at].node_id, low, k, v));
        } else {
            if es[j].node_id == NodeId::Id(gone) {
                assert(is_entry(st, parent, j));
                lemma_only_ref(c.tx, parent, j, parent, at + 1);
            }
            lemma_joined_holds(c, d, parent, keep, gone, at, es[j].node_id, low, k, v);
            if j < at + 1 {
                assert(after[j] == es[j]);
                assert(held(d, after[j].node_id, low, k, v));
            } else {
                assert(after[j - 1] == es[j]);
                assert(held(d, after[j - 1].node_id, low, k, v));
            }
        }
    } else if id == NodeId::Id(keep) {
        let g = st.nodes[gone];
        let kn = st.nodes[keep];
        assert(load(d, id)->Ok_0.node == kn.merge(g));
        match kn {
            NodeModel::Leaf(ks) => {
                let gs = g->Leaf_0;
                let i = choose|i: int|
                    0 <= i < ks.len() && (#[trigger] ks[i]).key == k && ks[i].value == v;
                let m = ks + gs;
                assert(m[i] == ks[i]);
                assert(0 <= i < m.len() && m[i].key == k && m[i].value == v);
            },
            NodeModel::Branch(ks) => {
                let gs = g->Branch_0;
                let i = choose|i: int|
                    0 <= i < ks.len() && held(c, (#[trigger] ks[i]).node_id, low, k, v);
                assert(is_entry(st, keep, i));
                if ks[i].node_id == NodeId::Id(gone) {
                    lemma_only_ref(c.tx, keep, i, parent, at + 1);
                }
                lemma_joined_holds(c, d, parent, keep, gone, at, ks[i].node_id, low, k, v);
                let m = ks + gs;
                assert(m[i] == ks[i]);
                assert(0 <= i < m.len() && held(d, m[i].node_id, low, k, v));
            },
        }
    } else {
        assert(load(d, id) == load(c, id));
        if let NodeModel::Branch(cs) = n {
            let j = choose|j: int|
                0 <= j < cs.len() && held(c, (#[trigger] cs[j]).node_id, low, k, v);
            match id {
                NodeId::Address(a) => {
                    crate::node_codec::lemma_parsed_node_children(
                        crate::store::tail(c.image, a as int),
                    );
                },
                NodeId::Id(x) => {
                    if cs[j].node_id == NodeId::Id(gone) {
                        assert(is_entry(st, x, j));
                        lemma_only_ref(c.tx, x, j, parent, at + 1);
                    }
                },
            }
            lemma_joined_holds(c, d, parent, keep, gone, at, cs[j].node_id, low, k, v);
        }
    }
}

/// The children of a node in the file are in the file.
pub proof fn lemma_file_children(c: CommitModel, address: u64)
    ensures
        load(c, NodeId::Address(address)) matches Ok(n) ==> (n.node matches NodeModel::Branch(es)
            ==> forall|i: int| 0 <= i < es.len() ==> (#[trigger] es[i]).node_id is Address),
{
    crate::node_codec::lemma_parsed_node_children(crate::store::tail(c.image, address as int));
}

/// A tree that was in good keeping before two nodes were joined is so
/// afterwards, where its root is neither of the two.
pub proof fn lemma_joined_keeps(
    c: CommitModel,
    d: CommitModel,
    page_size: u32,
    parent: u64,
    keep: u64,
    gone: u64,
    at: int,
    id: NodeId,
    h: nat,
)
    requires
        joined(c, d, parent, keep, gone, at),
        unique_refs(c.tx.staging),
        id != NodeId::Id(gone),
        id != NodeId::Id(keep),
        kept(c, page_size, id, h),
    ensures
        kept(d, page_size, id, h),
    decreases h,
{
    let st = c.tx.staging;
    let es = st.nodes[parent]->Branch_0;
    let n = load(c, id)->Ok_0.node;
    let low = (h - 1) as nat;
    assert(is_entry(st, parent, at + 1));
    assert(is_entry(st, parent, at));
    match id {
        NodeId::Address(a) => {
            lemma_file_children(c, a);
            assert(load(d, id) == load(c, id));
            if let NodeModel::Branch(cs) = n {
                assert forall|j: int| 0 <= j < cs.len() implies kept(
                    d,
                    page_size,
                    (#[trigger] cs[j]).node_id,
                    low,
                ) by {
                    lemma_joined_keeps(c, d, page_size, parent, keep, gone, at, cs[j].node_id, low);
                }
            }
        },
        NodeId::Id(x) => {
            if x == parent {
                let after = es.remove(at + 1);
                assert(d.tx.staging.nodes.contains_key(parent));
                assert(d.tx.staging.nodes[parent] == NodeModel::Branch(after));
                assert forall|j: int| 0 <= j < after.len() implies kept(
                    d,
                    page_size,
                    (#[trigger] after[j]).node_id,
                    low,
                ) by {
                    let i = if j < at + 1 {
                        j
                    } else {
                        j + 1
                    };
                    assert(after[j] == es[i]);
                    assert(kept(c, page_size, es[i].node_id, low));
                    assert(is_entry(st, parent, i));
                    if i == at {
                        assert(kept(c, page_size, es[at + 1].node_id, low));
                        lemma_joined_keep_kept(c, d, page_size, parent, keep, gone, at, low);
                    } else {
                        if es[i].node_id == NodeId::Id(gone) {
                            lemma_only_ref(c.tx, parent, i, parent, at + 1);
                        }
                        if es[i].node_id == NodeId::Id(keep) {
                            lemma_only_ref(c.tx, parent, i, parent, at);
                        }
                        lemma_joined_keeps(
                            c,
                            d,
                            page_size,
                            parent,
                            keep,
                            gone,
                            at,
                            es[i].node_id,
                            low,
                        );
                    }
                }
            } else {
                assert(d.tx.staging.nodes.contains_key(x));
                assert(d.tx.staging.nodes[x] == st.nodes[x]);
                if let NodeModel::Branch(cs) = n {
                    assert forall|j: int| 0 <= j < cs.len() implies kept(
                        d,
                        page_size,
                        (#[trigger] cs[j]).node_id,
                        low,
                    ) by {
                        assert(is_entry(st, x, j));
                        if cs[j].node_id == NodeId::Id(gone) {
                            lemma_only_ref(c.tx, x, j, parent, at + 1);
                        }
                        if cs[j].node_id == NodeId::Id(keep) {
                            lemma_only_ref(c.tx, x, j, parent, at);
                        }
                        lemma_joined_keeps(
                            c,
                            d,
                            page_size,
                            parent,
                            keep,
                            gone,
                            at,
                            cs[j].node_id,
                            low,
                        );
                    }
                }
            }
        },
    }
}

/// The node that took the entries of the other is in good keeping where
/// both were.
pub proof fn lemma_joined_keep_kept(
    c: CommitModel,
    d: CommitModel,
    page_size: u32,
    parent: u64,
    keep: u64,
    gone: u64,
    at: int,
    h: nat,
)
    requires
        joined(c, d, parent, keep, gone, at),
        unique_refs(c.tx.staging),
        kept(c, page_size, NodeId::Id(keep), h),
        kept(c, page_size, NodeId::Id(gone), h),
    ensures
        kept(d, page_size, NodeId::Id(keep), h),
    decreases h, 0nat,
{
    let st = c.tx.staging;
    let kn = st.nodes[keep];
    let g = st.nodes[gone];
    let low = (h - 1) as nat;
    assert(is_entry(st, parent, at + 1));
    assert(is_entry(st, parent, at));
    assert(d.tx.staging.nodes.contains_key(keep));
    assert(d.tx.staging.nodes[keep] == kn.merge(g));
    if let NodeModel::Branch(ks) = kn {
        let gs = g->Branch_0;
        let m = ks + gs;
        assert(kn.merge(g) == NodeModel::Branch(m));
        assert forall|j: int| 0 <= j < m.len() implies kept(
            d,
            page_size,
            (#[trigger] m[j]).node_id,
            low,
        ) by {
            let (a, i) = if j < ks.len() {
                (keep, j)
            } else {
                (gone, j - ks.len())
            };
            assert(is_entry(st, a, i));
            assert(m[j].node_id == ref_at(st, a, i));
            if m[j].node_id == NodeId::Id(gone) {
                lemma_only_ref(c.tx, a, i, parent, at + 1);
            }
            if m[j].node_id == NodeId::Id(keep) {
                lemma_only_ref(c.tx, a, i, parent, at);
            }
            if j < ks.len() {
                assert(kept(c, page_size, ks[j].node_id, low));
            } else {
                assert(kept(c, page_size, gs[j - ks.len()].node_id, low));
            }
            lemma_joined_keeps(c, d, page_size, parent, keep, gone, at, m[j].node_id, low);
        }
    } else {
        assert(kn.merge(g) is Leaf);
    }
}

/// The entry before the nodes were joined that an entry afterwards came
/// from.
pub open spec fn joined_from(st: TxModel, parent: u64, keep: u64, gone: u64, at: int, a: u64, i: int) -> (
    u64,
    int,
) {
    if a == parent {
        if i <= at {
            (parent, i)
        } else {
            (parent, i + 1)
        }
    } else if a == keep {
        if i < st.staging.nodes[keep].len() {
            (keep, i)
        } else {
            (gone, i - st.staging.nodes[keep].len())
        }
    } else {
        (a, i)
    }
}

/// An entry after two nodes were joined refers to what the entry that it
/// came from referred to.
pub proof fn lemma_joined_from(
    c: CommitModel,
    d: CommitModel,
    parent: u64,
    keep: u64,
    gone: u64,
    at: int,
    a: u64,
    i: int,
)
    requires
        joined(c, d, parent, keep, gone, at),
        is_entry(d.tx.staging, a, i),
    ensures
        ({
            let (b, j) = joined_from(c.tx, parent, keep, gone, at, a, i);
            &&& is_entry(c.tx.staging, b, j)
            &&& ref_at(c.tx.staging, b, j) == ref_at(d.tx.staging, a, i)
            &&& !(b == parent && j == at + 1)
        }),
{
    let st = c.tx.staging;
    let es = st.nodes[parent]->Branch_0;
    if a == parent {
        assert(d.tx.staging.nodes[parent] == NodeModel::Branch(es.remove(at + 1)));
    } else if a == keep {
        assert(d.tx.staging.nodes[keep] == st.nodes[keep].merge(st.nodes[gone]));
    } else {
        assert(d.tx.staging.nodes[a] == st.nodes[a]);
    }
}

/// Joining two nodes leaves the staged nodes in order.
pub proof fn lemma_joined_sane(c: CommitModel, d: CommitModel, parent: u64, keep: u64, gone: u64, at: int)
    requires
        joined(c, d, parent, keep, gone, at),
        sane(c.tx),
    ensures
        sane(d.tx),
{
    let st = c.tx.staging;
    let dt = d.tx.staging;
    assert(is_entry(st, parent, at + 1));
    assert forall|a: u64, i: int, b: u64, j: int|
        is_entry(dt, a, i) && is_entry(dt, b, j) && #[trigger] ref_at(dt, a, i) == #[trigger] ref_at(
            dt,
            b,
            j,
        ) && ref_at(dt, a, i) is Id implies a == b && i == j by {
        lemma_joined_from(c, d, parent, keep, gone, at, a, i);
        lemma_joined_from(c, d, parent, keep, gone, at, b, j);
        let (a0, i0) = joined_from(c.tx, parent, keep, gone, at, a, i);
        let (b0, j0) = joined_from(c.tx, parent, keep, gone, at, b, j);
        lemma_only_ref(c.tx, a0, i0, b0, j0);
    }
    assert forall|a: u64, i: int| is_entry(dt, a, i) && #[trigger] ref_at(dt, a, i) is Id implies dt.nodes.contains_key(
        ref_at(dt, a, i)->Id_0,
    ) by {
        lemma_joined_from(c, d, parent, keep, gone, at, a, i);
        let (a0, i0) = joined_from(c.tx, parent, keep, gone, at, a, i);
        assert(st.nodes.contains_key(ref_at(st, a0, i0)->Id_0));
        if ref_at(st, a0, i0) == NodeId::Id(gone) {
            lemma_only_ref(c.tx, a0, i0, parent, at + 1);
        }
    }
    assert forall|id: u64| dt.nodes.contains_key(id) implies id < dt.next_node_id by {
        assert(st.nodes.contains_key(id));
    }
    assert forall|a: u64, i: int| is_entry(dt, a, i) && #[trigger] ref_at(dt, a, i) is Id implies ref_at(
        dt,
        a,
        i,
    ) != d.tx.root by {
        lemma_joined_from(c, d, parent, keep, gone, at, a, i);
        let (a0, i0) = joined_from(c.tx, parent, keep, gone, at, a, i);
        assert(ref_at(st, a0, i0) != c.tx.root);
    }
}

/// Whether `d` is `c` after the staged node `gone`, entry `at` of the
/// staged branch `parent` and without entries, left the tree.
pub open spec fn dropped(c: CommitModel, d: CommitModel, parent: u64, gone: u64, at: int) -> bool {
    let nodes = c.tx.staging.nodes;
    &&& d.image == c.image
    &&& d.writer == c.writer
    &&& d.tx.root == c.tx.root
    &&& d.tx.staging.next_node_id == c.tx.staging.next_node_id
    &&& nodes.contains_key(parent) && nodes.contains_key(gone)
    &&& parent != gone
    &&& c.tx.root != NodeId::Id(gone)
    &&& nodes[gone].len() == 0
    &&& nodes[parent] matches NodeModel::Branch(es) && 0 <= at < es.len() && es[at].node_id
        == NodeId::Id(gone) && d.tx.staging.nodes == nodes.remove(gone).insert(
        parent,
        NodeModel::Branch(es.remove(at)),
    )
}

/// What a tree held before a node without entries left it holds
/// afterwards, and a tree that was in good keeping is so afterwards, where
/// its root is not that node.
pub proof fn lemma_dropped_holds(
    c: CommitModel,
    d: CommitModel,
    page_size: u32,
    parent: u64,
    gone: u64,
    at: int,
    id: NodeId,
    h: nat,
    k: Seq<u8>,
    v: Seq<u8>,
)
    requires
        dropped(c, d, parent, gone, at),
        unique_refs(c.tx.staging),
        id != NodeId::Id(gone),
    ensures
        held(c, id, h, k, v) ==> held(d, id, h, k, v),
        kept(c, page_size, id, h) ==> kept(d, page_size, id, h),
    decreases h,
{
    let st = c.tx.staging;
    let es = st.nodes[parent]->Branch_0;
    let low = (h - 1) as nat;
    assert(is_entry(st, parent, at));
    match id {
        NodeId::Address(a) => {
            lemma_file_children(c, a);
            assert(load(d, id) == load(c, id));
        },
        NodeId::Id(x) => {
            if st.nodes.contains_key(x) {
                if x == parent {
                    assert(d.tx.staging.nodes[parent] == NodeModel::Branch(es.remove(at)));
                } else {
                    assert(d.tx.staging.nodes.contains_key(x));
                    assert(d.tx.staging.nodes[x] == st.nodes[x]);
                }
            }
        },
    }
    if let Ok(loaded) = load(c, id) {
        if let NodeModel::Branch(cs) = loaded.node {
            let ds = load(d, id)->Ok_0.node->Branch_0;
            if h > 0 {
                assert forall|j: int|
                    0 <= j < cs.len() && (#[trigger] cs[j]).node_id != NodeId::Id(gone) implies (
                held(c, cs[j].node_id, low, k, v) ==> held(d, cs[j].node_id, low, k, v)) && (kept(
                    c,
                    page_size,
                    cs[j].node_id,
                    low,
                ) ==> kept(d, page_size, cs[j].node_id, low)) by {
                    lemma_dropped_holds(c, d, page_size, parent, gone, at, cs[j].node_id, low, k, v);
                }
                assert forall|j: int| 0 <= j < cs.len() && (#[trigger] cs[j]).node_id
                    == NodeId::Id(gone) implies id == NodeId::Id(parent) && j == at by {
                    if let NodeId::Id(x) = id {
                        assert(is_entry(st, x, j));
                        lemma_only_ref(c.tx, x, j, parent, at);
                    }
                }
                assert(!held(c, NodeId::Id(gone), low, k, v));
                if held(c, id, h, k, v) {
                    let j = choose|j: int|
                        0 <= j < cs.len() && held(c, (#[trigger] cs[j]).node_id, low, k, v);
                    let i = if id == NodeId::Id(parent) && j > at {
                        j - 1
                    } else {
                        j
                    };
                    assert(ds[i] == cs[j]);
                    lemma_held_branch(d, id, h, i, k, v);
                }
                if kept(c, page_size, id, h) {
                    assert forall|i: int| 0 <= i < ds.len() implies kept(
                        d,
                        page_size,
                        (#[trigger] ds[i]).node_id,
                        low,
                    ) by {
                        let j = if id == NodeId::Id(parent) && i >= at {
                            i + 1
                        } else {
                            i
                        };
                        assert(ds[i] == cs[j]);
                        if id == NodeId::Id(parent) {
                            assert(is_entry(st, parent, j));
                            if cs[j].node_id == NodeId::Id(gone) {
                                lemma_only_ref(c.tx, parent, j, parent, at);
                            }
                        }
                        assert(kept(c, page_size, cs[j].node_id, low));
                    }
                }
            }
        }
    }
}

/// A node that leaves the tree leaves the staged nodes in order.
pub proof fn lemma_dropped_sane(c: CommitModel, d: CommitModel, parent: u64, gone: u64, at: int)
    requires
        dropped(c, d, parent, gone, at),
        sane(c.tx),
    ensures
        sane(d.tx),
{
    let st = c.tx.staging;
    let dt = d.tx.staging;
    let es = st.nodes[parent]->Branch_0;
    assert(is_entry(st, parent, at));
    assert(dt.nodes[parent] == NodeModel::Branch(es.remove(at)));
    let from = |a: u64, i: int|
        if a == parent && i >= at {
            i + 1
        } else {
            i
        };
    assert forall|a: u64, i: int| is_entry(dt, a, i) implies is_entry(st, a, from(a, i)) && ref_at(
        st,
        a,
        from(a, i),
    ) == #[trigger] ref_at(dt, a, i) && !(a == parent && from(a, i) == at) by {
        if a != parent {
            assert(dt.nodes[a] == st.nodes[a]);
        }
    }
    assert forall|a: u64, i: int, b: u64, j: int|
        is_entry(dt, a, i) && is_entry(dt, b, j) && #[trigger] ref_at(dt, a, i) == #[trigger] ref_at(
            dt,
            b,
            j,
        ) && ref_at(dt, a, i) is Id implies a == b && i == j by {
        lemma_only_ref(c.tx, a, from(a, i), b, from(b, j));
    }
    assert forall|a: u64, i: int| is_entry(dt, a, i) && #[trigger] ref_at(dt, a, i) is Id implies dt.nodes.contains_key(
        ref_at(dt, a, i)->Id_0,
    ) by {
        assert(st.nodes.contains_key(ref_at(st, a, from(a, i))->Id_0));
        if ref_at(st, a, from(a, i)) == NodeId::Id(gone) {
            lemma_only_ref(c.tx, a, from(a, i), parent, at);
        }
    }
    assert forall|id: u64| dt.nodes.contains_key(id) implies id < dt.next_node_id by {
        assert(st.nodes.contains_key(id));
    }
    assert forall|a: u64, i: int| is_entry(dt, a, i) && #[trigger] ref_at(dt, a, i) is Id implies ref_at(
        dt,
        a,
        i,
    ) != d.tx.root by {
        assert(ref_at(st, a, from(a, i)) != c.tx.root);
    }
}

/// A tree holds with more levels allowed what it holds with fewer, and
/// is in good keeping with more where it is with fewer.
pub proof fn lemma_more_levels(c: CommitModel, page_size: u32, id: NodeId, h: nat, k: Seq<u8>, v: Seq<u8>)
    ensures
        held(c, id, h, k, v) ==> held(c, id, h + 1, k, v),
        kept(c, page_size, id, h) ==> kept(c, page_size, id, h + 1),
    decreases h,
{
    if let Ok(loaded) = load(c, id) {
        if let NodeModel::Branch(cs) = loaded.node {
            if h > 0 {
                let low = (h - 1) as nat;
                assert forall|j: int| 0 <= j < cs.len() implies (held(
                    c,
                    (#[trigger] cs[j]).node_id,
                    low,
                    k,
                    v,
                ) ==> held(c, cs[j].node_id, low + 1, k, v)) && (kept(
                    c,
                    page_size,
                    cs[j].node_id,
                    low,
                ) ==> kept(c, page_size, cs[j].node_id, low + 1)) by {
                    lemma_more_levels(c, page_size, cs[j].node_id, low, k, v);
                }
                if held(c, id, h, k, v) {
                    let j = choose|j: int|
                        0 <= j < cs.len() && held(c, (#[trigger] cs[j]).node_id, low, k, v);
                    lemma_held_branch(c, id, h + 1, j, k, v);
                }
                if kept(c, page_size, id, h) {
                    assert forall|j: int| 0 <= j < cs.len() implies kept(
                        c,
                        page_size,
                        (#[trigger] cs[j]).node_id,
                        h,
                    ) by {
                        assert(kept(c, page_size, cs[j].node_id, low));
                    }
                }
            }
        }
    }
}

/// Whether `d` is `c` after the child in the file that entry `at` of the
/// staged branch `parent` refers to was staged under the next number.
pub open spec fn lifted(c: CommitModel, d: CommitModel, parent: u64, at: int) -> bool {
    let nodes = c.tx.staging.nodes;
    let new = c.tx.staging.next_node_id;
    &&& d.image == c.image
    &&& d.writer == c.writer
    &&& d.tx.root == c.tx.root
    &&& new < u64::MAX
    &&& d.tx.staging.next_node_id == new + 1
    &&& nodes.contains_key(parent)
    &&& nodes[parent] is Branch
    &&& 0 <= at < nodes[parent].len()
    &&& nodes[parent]->Branch_0[at].node_id is Address
    &&& node_at(c.image, nodes[parent]->Branch_0[at].node_id->Address_0 as int) is Ok
    &&& d.tx.staging.nodes == nodes.insert(
        new,
        node_at(c.image, nodes[parent]->Branch_0[at].node_id->Address_0 as int)->Ok_0.1,
    ).insert(
        parent,
        NodeModel::Branch(
            nodes[parent]->Branch_0.update(
                at,
                BranchEntry {
                    key: nodes[parent]->Branch_0[at].key,
                    node_id: NodeId::Id(new),
                },
            ),
        ),
    )
}

/// What a tree held before a child was staged it holds afterwards, and a
/// tree that was in good keeping is so afterwards.
pub proof fn lemma_lifted_holds(
    c: CommitModel,
    d: CommitModel,
    page_size: u32,
    parent: u64,
    at: int,
    id: NodeId,
    h: nat,
    k: Seq<u8>,
    v: Seq<u8>,
)
    requires
        lifted(c, d, parent, at),
        c.tx.staging.fresh(),
    ensures
        held(c, id, h, k, v) ==> held(d, id, h, k, v),
        kept(c, page_size, id, h) ==> kept(d, page_size, id, h),
    decreases h, 1nat,
{
    let st = c.tx.staging;
    let new = st.next_node_id;
    let es = st.nodes[parent]->Branch_0;
    let low = (h - 1) as nat;
    let entry = BranchEntry { key: es[at].key, node_id: NodeId::Id(new) };
    match id {
        NodeId::Address(a) => {
            assert(load(d, id) == load(c, id));
        },
        NodeId::Id(x) => {
            if st.nodes.contains_key(x) {
                assert(x != new);
                if x == parent {
                    assert(d.tx.staging.nodes[parent] == NodeModel::Branch(es.update(at, entry)));
                } else {
                    assert(d.tx.staging.nodes.contains_key(x));
                    assert(d.tx.staging.nodes[x] == st.nodes[x]);
                }
            }
        },
    }
    if let Ok(loaded) = load(c, id) {
        if let NodeModel::Branch(cs) = loaded.node {
            let ds = load(d, id)->Ok_0.node->Branch_0;
            if h > 0 {
                assert forall|j: int| 0 <= j < cs.len() implies (held(
                    c,
                    (#[trigger] cs[j]).node_id,
                    low,
                    k,
                    v,
                ) ==> held(d, ds[j].node_id, low, k, v)) && (kept(
                    c,
                    page_size,
                    cs[j].node_id,
                    low,
                ) ==> kept(d, page_size, ds[j].node_id, low)) by {
                    if id == NodeId::Id(parent) && j == at {
                        lemma_lifted_child(c, d, page_size, parent, at, low, k, v);
                    } else {
                        assert(ds[j] == cs[j]);
                        lemma_lifted_holds(c, d, page_size, parent, at, cs[j].node_id, low, k, v);
                    }
                }
                if held(c, id, h, k, v) {
                    let j = choose|j: int|
                        0 <= j < cs.len() && held(c, (#[trigger] cs[j]).node_id, low, k, v);
                    lemma_held_branch(d, id, h, j, k, v);
                }
                if kept(c, page_size, id, h) {
                    assert forall|j: int| 0 <= j < ds.len() implies kept(
                        d,
                        page_size,
                        (#[trigger] ds[j]).node_id,
                        low,
                    ) by {
                        assert(kept(c, page_size, cs[j].node_id, low));
                    }
                }
            }
        }
    }
}

/// The staged copy of a child holds what the child in the file held, and
/// is in good keeping where that was.
pub proof fn lemma_lifted_child(
    c: CommitModel,
    d: CommitModel,
    page_size: u32,
    parent: u64,
    at: int,
    h: nat,
    k: Seq<u8>,
    v: Seq<u8>,
)
    requires
        lifted(c, d, parent, at),
        c.tx.staging.fresh(),
    ensures
        ({
            let old_child = c.tx.staging.nodes[parent]->Branch_0[at].node_id;
            let new_child = NodeId::Id(c.tx.staging.next_node_id);
            &&& held(c, old_child, h, k, v) ==> held(d, new_child, h, k, v)
            &&& kept(c, page_size, old_child, h) ==> kept(d, page_size, new_child, h)
        }),
    decreases h, 0nat,
{
    let st = c.tx.staging;
    let new = st.next_node_id;
    let es = st.nodes[parent]->Branch_0;
    let a = es[at].node_id->Address_0;
    let x = NodeId::Address(a);
    let y = NodeId::Id(new);
    let child = node_at(c.image, a as int)->Ok_0.1;
    let low = (h - 1) as nat;
    assert(d.tx.staging.nodes.contains_key(new));
    assert(d.tx.staging.nodes[new] == child);
    assert(load(c, x)->Ok_0.node == child);
    lemma_file_children(c, a);
    match child {
        NodeModel::Leaf(ls) => {
            if held(c, x, h, k, v) {
                let j = choose|j: int|
                    0 <= j < ls.len() && (#[trigger] ls[j]).key == k && ls[j].value == v;
                lemma_held_leaf(d, y, h, j);
            }
        },
        NodeModel::Branch(cs) => {
            if h > 0 {
                assert forall|j: int| 0 <= j < cs.len() implies (held(
                    c,
                    (#[trigger] cs[j]).node_id,
                    low,
                    k,
                    v,
                ) ==> held(d, cs[j].node_id, low, k, v)) && (kept(
                    c,
                    page_size,
                    cs[j].node_id,
                    low,
                ) ==> kept(d, page_size, cs[j].node_id, low)) by {
                    lemma_lifted_holds(c, d, page_size, parent, at, cs[j].node_id, low, k, v);
                }
                if held(c, x, h, k, v) {
                    let j = choose|j: int|
                        0 <= j < cs.len() && held(c, (#[trigger] cs[j]).node_id, low, k, v);
                    lemma_held_branch(d, y, h, j, k, v);
                }
                if kept(c, page_size, x, h) {
                    assert forall|j: int| 0 <= j < cs.len() implies kept(
                        d,
                        page_size,
                        (#[trigger] cs[j]).node_id,
                        low,
                    ) by {
                        assert(kept(c, page_size, cs[j].node_id, low));
                    }
                }
            }
        },
    }
}

/// Staging a child leaves the staged nodes in order.
pub proof fn lemma_lifted_sane(c: CommitModel, d: CommitModel, parent: u64, at: int)
    requires
        lifted(c, d, parent, at),
        sane(c.tx),
    ensures
        sane(d.tx),
{
    let st = c.tx.staging;
    let dt = d.tx.staging;
    let new = st.next_node_id;
    let es = st.nodes[parent]->Branch_0;
    let a = es[at].node_id->Address_0;
    let entry = BranchEntry { key: es[at].key, node_id: NodeId::Id(new) };
    assert(dt.nodes[parent] == NodeModel::Branch(es.update(at, entry)));
    assert(dt.nodes[new] == node_at(c.image, a as int)->Ok_0.1);
    lemma_file_children(c, a);
    assert(load(c, NodeId::Address(a))->Ok_0.node == dt.nodes[new]);
    assert forall|b: u64, i: int| is_entry(dt, b, i) && #[trigger] ref_at(dt, b, i) is Id implies (
    b == parent && i == at && ref_at(dt, b, i) == NodeId::Id(new)) || (is_entry(st, b, i) && ref_at(
        st,
        b,
        i,
    ) == ref_at(dt, b, i) && ref_at(dt, b, i)->Id_0 < new) by {
        if b == new {
            assert(ref_at(dt, b, i) is Address);
        } else if b == parent {
            if i != at {
                assert(is_entry(st, b, i));
                assert(st.nodes.contains_key(ref_at(st, b, i)->Id_0));
            }
        } else {
            assert(dt.nodes[b] == st.nodes[b]);
            assert(is_entry(st, b, i));
            assert(st.nodes.contains_key(ref_at(st, b, i)->Id_0));
        }
    }
    assert forall|b: u64, i: int, e: u64, j: int|
        is_entry(dt, b, i) && is_entry(dt, e, j) && #[trigger] ref_at(dt, b, i) == #[trigger] ref_at(
            dt,
            e,
            j,
        ) && ref_at(dt, b, i) is Id implies b == e && i == j by {
        if ref_at(dt, b, i) != NodeId::Id(new) {
            lemma_only_ref(c.tx, b, i, e, j);
        }
    }
    assert forall|b: u64, i: int| is_entry(dt, b, i) && #[trigger] ref_at(dt, b, i) is Id implies dt.nodes.contains_key(
        ref_at(dt, b, i)->Id_0,
    ) by {
        if ref_at(dt, b, i) != NodeId::Id(new) {
            assert(st.nodes.contains_key(ref_at(st, b, i)->Id_0));
        }
    }
    assert forall|b: u64, i: int| is_entry(dt, b, i) && #[trigger] ref_at(dt, b, i) is Id implies ref_at(
        dt,
        b,
        i,
    ) != d.tx.root by {
        if ref_at(dt, b, i) != NodeId::Id(new) {
            assert(ref_at(st, b, i) != c.tx.root);
        }
    }
}

/// Whether what the tree of the transaction held at `c` it holds at `d`,
/// with `grow` more levels allowed, and it is in good keeping at `d`
/// where it was at `c`; where the staged nodes were in order at `c` they
/// are at `d`. The file and what the writer holds are the same.
pub open spec fn passed_on(c: CommitModel, d: CommitModel, page_size: u32, grow: nat) -> bool {
    &&& d.image == c.image
    &&& d.writer == c.writer
    &&& sane(c.tx) ==> {
        &&& sane(d.tx)
        &&& c.tx.root is Id ==> d.tx.root is Id
        &&& forall|h: nat, k: Seq<u8>, v: Seq<u8>| #[trigger]
            held(c, c.tx.root, h, k, v) ==> held(d, d.tx.root, h + grow, k, v)
        &&& forall|h: nat| #[trigger]
            kept(c, page_size, c.tx.root, h) ==> kept(d, page_size, d.tx.root, h + grow)
    }
}

/// What is passed on from `c` to `d` and from `d` to `e` is passed on
/// from `c` to `e`.
pub proof fn lemma_passed_on_trans(
    c: CommitModel,
    d: CommitModel,
    e: CommitModel,
    page_size: u32,
    g1: nat,
    g2: nat,
)
    requires
        passed_on(c, d, page_size, g1),
        passed_on(d, e, page_size, g2),
    ensures
        passed_on(c, e, page_size, g1 + g2),
{
    if sane(c.tx) {
        assert forall|h: nat, k: Seq<u8>, v: Seq<u8>| #[trigger]
            held(c, c.tx.root, h, k, v) implies held(e, e.tx.root, h + (g1 + g2), k, v) by {
            assert(held(d, d.tx.root, h + g1, k, v));
            assert(held(e, e.tx.root, (h + g1) + g2, k, v));
        }
        assert forall|h: nat| #[trigger] kept(c, page_size, c.tx.root, h) implies kept(
            e,
            page_size,
            e.tx.root,
            h + (g1 + g2),
        ) by {
            assert(kept(d, page_size, d.tx.root, h + g1));
            assert(kept(e, page_size, e.tx.root, (h + g1) + g2));
        }
    }
}

/// Staging the child at an entry of a staged branch changes nothing of
/// what the trees hold, and leaves the staged nodes in order.
pub proof fn lemma_stage_child(c: CommitModel, page_size: u32, parent: u64, at: int)
    requires
        sane(c.tx),
        stage_child(c.tx, c.image, parent, at) is Ok,
    ensures
        ({
            let (st, child) = stage_child(c.tx, c.image, parent, at)->Ok_0;
            let d = CommitModel { tx: st, ..c };
            &&& sane(st)
            &&& st.root == c.tx.root
            &&& st.staging.nodes.contains_key(child)
            &&& st.staging.nodes.contains_key(parent)
            &&& st.staging.nodes[parent] is Branch
            &&& st.staging.nodes[parent].len() == c.tx.staging.nodes[parent].len()
            &&& st.staging.nodes[parent]->Branch_0[at].node_id == NodeId::Id(child)
            &&& forall|j: int|
                0 <= j < st.staging.nodes[parent].len() && j != at
                    ==> st.staging.nodes[parent]->Branch_0[j]
                    == c.tx.staging.nodes[parent]->Branch_0[j]
            &&& forall|x: u64|
                c.tx.staging.nodes.contains_key(x) && x != parent
                    ==> #[trigger] st.staging.nodes.contains_key(x) && st.staging.nodes[x]
                    == c.tx.staging.nodes[x]
            &&& forall|id: NodeId, h: nat, k: Seq<u8>, v: Seq<u8>| #[trigger]
                held(c, id, h, k, v) ==> held(d, id, h, k, v)
            &&& forall|id: NodeId, h: nat| #[trigger]
                kept(c, page_size, id, h) ==> kept(d, page_size, id, h)
        }),
{
    let (st, child) = stage_child(c.tx, c.image, parent, at)->Ok_0;
    let d = CommitModel { tx: st, ..c };
    let es = c.tx.staging.nodes[parent]->Branch_0;
    assert(is_entry(c.tx.staging, parent, at));
    match es[at].node_id {
        NodeId::Id(x) => {
            assert(d == c);
            assert(c.tx.staging.nodes.contains_key(ref_at(c.tx.staging, parent, at)->Id_0));
        },
        NodeId::Address(a) => {
            assert(lifted(c, d, parent, at));
            lemma_lifted_sane(c, d, parent, at);
            assert forall|id: NodeId, h: nat, k: Seq<u8>, v: Seq<u8>| #[trigger]
                held(c, id, h, k, v) implies held(d, id, h, k, v) by {
                lemma_lifted_holds(c, d, page_size, parent, at, id, h, k, v);
            }
            assert forall|id: NodeId, h: nat| #[trigger] kept(c, page_size, id, h) implies kept(
                d,
                page_size,
                id,
                h,
            ) by {
                lemma_lifted_holds(c, d, page_size, parent, at, id, h, Seq::empty(), Seq::empty());
            }
        },
    }
}

/// Merging a node that is not the root passes on what the tree held.
pub proof fn lemma_merge_inner(
    c: CommitModel,
    page_size: u32,
    node_id: u64,
    node_index: int,
    parent_id: u64,
)
    requires
        c.tx.staging.nodes.contains_key(node_id),
        merge_inner(c.tx, c.image, node_id, node_index, parent_id) is Ok,
    ensures
        passed_on(
            c,
            CommitModel {
                tx: merge_inner(c.tx, c.image, node_id, node_index, parent_id)->Ok_0.0,
                ..c
            },
            page_size,
            0,
        ),
{
    let st = c.tx;
    let (st2, _) = merge_inner(st, c.image, node_id, node_index, parent_id)->Ok_0;
    let d = CommitModel { tx: st2, ..c };
    if sane(st) {
        let node = st.staging.nodes[node_id];
        let parent_entries = st.staging.nodes[parent_id]->Branch_0;
        if node.len() == 0 {
            assert(dropped(c, d, parent_id, node_id, node_index));
            lemma_dropped_sane(c, d, parent_id, node_id, node_index);
            assert forall|h: nat, k: Seq<u8>, v: Seq<u8>| #[trigger]
                held(c, c.tx.root, h, k, v) implies held(d, d.tx.root, h + 0, k, v) by {
                lemma_dropped_holds(c, d, page_size, parent_id, node_id, node_index, c.tx.root, h, k, v);
            }
            assert forall|h: nat| #[trigger] kept(c, page_size, c.tx.root, h) implies kept(
                d,
                page_size,
                d.tx.root,
                h + 0,
            ) by {
                lemma_dropped_holds(
                    c,
                    d,
                    page_size,
                    parent_id,
                    node_id,
                    node_index,
                    c.tx.root,
                    h,
                    Seq::empty(),
                    Seq::empty(),
                );
            }
        } else if parent_entries.len() < 2 {
            assert(d == c);
        } else {
            let sibling_index = if node_index == 0 {
                1
            } else {
                node_index - 1
            };
            lemma_stage_child(c, page_size, parent_id, sibling_index);
            let (staged, sibling_id) = stage_child(st, c.image, parent_id, sibling_index)->Ok_0;
            let c1 = CommitModel { tx: staged, ..c };
            let (keep, gone, at) = if node_index == 0 {
                (node_id, sibling_id, 0int)
            } else {
                (sibling_id, node_id, node_index - 1)
            };
            let es1 = staged.staging.nodes[parent_id]->Branch_0;
            assert(es1[node_index] == parent_entries[node_index]);
            assert(joined(c1, d, parent_id, keep, gone, at));
            lemma_joined_sane(c1, d, parent_id, keep, gone, at);
            assert forall|h: nat, k: Seq<u8>, v: Seq<u8>| #[trigger]
                held(c, c.tx.root, h, k, v) implies held(d, d.tx.root, h + 0, k, v) by {
                assert(held(c1, c.tx.root, h, k, v));
                lemma_joined_holds(c1, d, parent_id, keep, gone, at, c.tx.root, h, k, v);
            }
            assert forall|h: nat| #[trigger] kept(c, page_size, c.tx.root, h) implies kept(
                d,
                page_size,
                d.tx.root,
                h + 0,
            ) by {
                assert(kept(c1, page_size, c.tx.root, h));
                lemma_joined_keeps(c1, d, page_size, parent_id, keep, gone, at, c.tx.root, h);
            }
        }
    }
}

/// What a tree held before the root gave way to its only child it holds
/// afterwards, where its root is not the root that gave way.
pub proof fn lemma_collapsed_holds(
    c: CommitModel,
    d: CommitModel,
    page_size: u32,
    node: u64,
    id: NodeId,
    h: nat,
    k: Seq<u8>,
    v: Seq<u8>,
)
    requires
        d.image == c.image,
        d.writer == c.writer,
        c.tx.root == NodeId::Id(node),
        d.tx.staging.nodes == c.tx.staging.nodes.remove(node),
        root_free(c.tx),
        id != NodeId::Id(node),
    ensures
        held(c, id, h, k, v) ==> held(d, id, h, k, v),
        kept(c, page_size, id, h) ==> kept(d, page_size, id, h),
    decreases h,
{
    let st = c.tx.staging;
    let low = (h - 1) as nat;
    match id {
        NodeId::Address(a) => {
            lemma_file_children(c, a);
            assert(load(d, id) == load(c, id));
        },
        NodeId::Id(x) => {
            if st.nodes.contains_key(x) {
                assert(d.tx.staging.nodes.contains_key(x));
                assert(d.tx.staging.nodes[x] == st.nodes[x]);
            }
        },
    }
    if let Ok(loaded) = load(c, id) {
        if let NodeModel::Branch(cs) = loaded.node {
            if h > 0 {
                assert forall|j: int| 0 <= j < cs.len() implies (held(
                    c,
                    (#[trigger] cs[j]).node_id,
                    low,
                    k,
                    v,
                ) ==> held(d, cs[j].node_id, low, k, v)) && (kept(
                    c,
                    page_size,
                    cs[j].node_id,
                    low,
                ) ==> kept(d, page_size, cs[j].node_id, low)) by {
                    if let NodeId::Id(x) = id {
                        assert(is_entry(st, x, j));
                        assert(ref_at(st, x, j) is Id ==> ref_at(st, x, j) != c.tx.root);
                    }
                    lemma_collapsed_holds(c, d, page_size, node, cs[j].node_id, low, k, v);
                }
                if held(c, id, h, k, v) {
                    let j = choose|j: int|
                        0 <= j < cs.len() && held(c, (#[trigger] cs[j]).node_id, low, k, v);
                    lemma_held_branch(d, id, h, j, k, v);
                }
                if kept(c, page_size, id, h) {
                    assert forall|j: int| 0 <= j < cs.len() implies kept(
                        d,
                        page_size,
                        (#[trigger] cs[j]).node_id,
                        low,
                    ) by {
                        assert(kept(c, page_size, cs[j].node_id, low));
                    }
                }
            }
        }
    }
}

/// Merging the root passes on what the tree held.
pub proof fn lemma_merge_root(c: CommitModel, page_size: u32, node_id: u64)
    requires
        c.tx.staging.nodes.contains_key(node_id),
        merge_root(c.tx, c.image, node_id) is Ok,
    ensures
        passed_on(
            c,
            CommitModel { tx: merge_root(c.tx, c.image, node_id)->Ok_0.0, ..c },
            page_size,
            0,
        ),
{
    let st = c.tx;
    let (st2, _) = merge_root(st, c.image, node_id)->Ok_0;
    let d = CommitModel { tx: st2, ..c };
    let root = NodeId::Id(node_id);
    if sane(st) {
        let node = st.staging.nodes[node_id];
        if node.len() == 0 {
            let new = st.staging.next_node_id;
            let dt = st2.staging;
            assert(dt.nodes[new] is Leaf);
            assert forall|a: u64, i: int| is_entry(dt, a, i) implies is_entry(st.staging, a, i)
                && ref_at(st.staging, a, i) == #[trigger] ref_at(dt, a, i) by {
                assert(a != new);
                assert(dt.nodes[a] == st.staging.nodes[a]);
            }
            assert forall|a: u64, i: int, b: u64, j: int|
                is_entry(dt, a, i) && is_entry(dt, b, j) && #[trigger] ref_at(dt, a, i)
                    == #[trigger] ref_at(dt, b, j) && ref_at(dt, a, i) is Id implies a == b && i
                == j by {
                lemma_only_ref(st, a, i, b, j);
            }
            assert forall|a: u64, i: int| is_entry(dt, a, i) && #[trigger] ref_at(dt, a, i) is Id implies dt.nodes.contains_key(
            ref_at(dt, a, i)->Id_0) && ref_at(dt, a, i) != st2.root by {
                assert(st.staging.nodes.contains_key(ref_at(st.staging, a, i)->Id_0));
            }
            assert forall|h: nat, k: Seq<u8>, v: Seq<u8>| #[trigger]
                held(c, c.tx.root, h, k, v) implies held(d, d.tx.root, h + 0, k, v) by {}
            assert forall|h: nat| #[trigger] kept(c, page_size, c.tx.root, h) implies kept(
                d,
                page_size,
                d.tx.root,
                h + 0,
            ) by {}
        } else if node is Branch && node.len() == 1 {
            lemma_stage_child(c, page_size, node_id, 0);
            let (staged, child) = stage_child(st, c.image, node_id, 0)->Ok_0;
            let c1 = CommitModel { tx: staged, ..c };
            let s1 = staged.staging;
            let dt = st2.staging;
            assert(is_entry(s1, node_id, 0));
            assert(ref_at(s1, node_id, 0) == NodeId::Id(child));
            assert(child != node_id);
            assert forall|a: u64, i: int| is_entry(dt, a, i) implies is_entry(s1, a, i) && ref_at(
                s1,
                a,
                i,
            ) == #[trigger] ref_at(dt, a, i) && a != node_id by {
                assert(dt.nodes[a] == s1.nodes[a]);
            }
            assert forall|a: u64, i: int, b: u64, j: int|
                is_entry(dt, a, i) && is_entry(dt, b, j) && #[trigger] ref_at(dt, a, i)
                    == #[trigger] ref_at(dt, b, j) && ref_at(dt, a, i) is Id implies a == b && i
                == j by {
                lemma_only_ref(staged, a, i, b, j);
            }
            assert forall|a: u64, i: int| is_entry(dt, a, i) && #[trigger] ref_at(dt, a, i) is Id implies dt.nodes.contains_key(
            ref_at(dt, a, i)->Id_0) && ref_at(dt, a, i) != st2.root by {
                assert(s1.nodes.contains_key(ref_at(s1, a, i)->Id_0));
                assert(ref_at(s1, a, i) != staged.root);
                if ref_at(s1, a, i) == NodeId::Id(child) {
                    lemma_only_ref(staged, a, i, node_id, 0);
                }
            }
            assert forall|id: u64| dt.nodes.contains_key(id) implies id < dt.next_node_id by {
                assert(s1.nodes.contains_key(id));
            }
            let y = NodeId::Id(child);
            assert forall|h: nat, k: Seq<u8>, v: Seq<u8>| #[trigger]
                held(c, c.tx.root, h, k, v) implies held(d, d.tx.root, h + 0, k, v) by {
                assert(held(c1, root, h, k, v));
                let es = s1.nodes[node_id]->Branch_0;
                let j = choose|j: int|
                    0 <= j < es.len() && held(c1, (#[trigger] es[j]).node_id, (h - 1) as nat, k, v);
                lemma_collapsed_holds(c1, d, page_size, node_id, y, (h - 1) as nat, k, v);
                lemma_more_levels(d, page_size, y, (h - 1) as nat, k, v);
            }
            assert forall|h: nat| #[trigger] kept(c, page_size, c.tx.root, h) implies kept(
                d,
                page_size,
                d.tx.root,
                h + 0,
            ) by {
                assert(kept(c1, page_size, root, h));
                let es = s1.nodes[node_id]->Branch_0;
                assert(kept(c1, page_size, es[0].node_id, (h - 1) as nat));
                lemma_collapsed_holds(
                    c1,
                    d,
                    page_size,
                    node_id,
                    y,
                    (h - 1) as nat,
                    Seq::empty(),
                    Seq::empty(),
                );
                lemma_more_levels(d, page_size, y, (h - 1) as nat, Seq::empty(), Seq::empty());
            }
        } else {
            assert(d == c);
        }
    }
}

/// Merging below the staged children of a node passes on what the tree
/// held.
pub proof fn lemma_merge_children(
    c: CommitModel,
    page_size: u32,
    node_id: u64,
    from: int,
    depth: nat,
    measure: nat,
)
    requires
        merge_children(c.tx, c.image, page_size, node_id, from, depth, measure) is Ok,
    ensures
        passed_on(
            c,
            CommitModel {
                tx: merge_children(c.tx, c.image, page_size, node_id, from, depth, measure)->Ok_0,
                ..c
            },
            page_size,
            0,
        ),
    decreases depth, 0nat, measure,
{
    match next_dirty(c.tx.staging.nodes[node_id], from) {
        None => {},
        Some((child, index)) => {
            lemma_traverse_merge(c, page_size, child, index, (depth - 1) as nat);
            let (after, merged) = traverse_merge(
                c.tx,
                c.image,
                page_size,
                child,
                index,
                (depth - 1) as nat,
            )->Ok_0;
            let next_from = if merged {
                index
            } else {
                index + 1
            };
            let left = after.staging.nodes[node_id].len() - next_from;
            let c1 = CommitModel { tx: after, ..c };
            lemma_merge_children(c1, page_size, node_id, next_from, depth, left as nat);
            let done = merge_children(
                after,
                c.image,
                page_size,
                node_id,
                next_from,
                depth,
                left as nat,
            )->Ok_0;
            lemma_passed_on_trans(c, c1, CommitModel { tx: done, ..c }, page_size, 0, 0);
        },
    }
}

/// Merging in the staged tree under a node passes on what the tree held.
pub proof fn lemma_traverse_merge(
    c: CommitModel,
    page_size: u32,
    node_id: u64,
    node_index: int,
    depth: nat,
)
    requires
        traverse_merge(c.tx, c.image, page_size, node_id, node_index, depth) is Ok,
    ensures
        passed_on(
            c,
            CommitModel {
                tx: traverse_merge(c.tx, c.image, page_size, node_id, node_index, depth)->Ok_0.0,
                ..c
            },
            page_size,
            0,
        ),
    decreases depth, 1nat, 0nat,
{
    lemma_merge_children(
        c,
        page_size,
        node_id,
        0,
        depth,
        c.tx.staging.nodes[node_id].len(),
    );
    let after = merge_children(
        c.tx,
        c.image,
        page_size,
        node_id,
        0,
        depth,
        c.tx.staging.nodes[node_id].len(),
    )->Ok_0;
    let c1 = CommitModel { tx: after, ..c };
    if merge_candidate(after.staging.nodes[node_id], page_size) {
        if !after.staging.parent.contains_key(node_id) {
            lemma_merge_root(c1, page_size, node_id);
        } else {
            lemma_merge_inner(c1, page_size, node_id, node_index, after.staging.parent[node_id]);
        }
        let done = merge_node(after, c.image, node_id, node_index)->Ok_0.0;
        lemma_passed_on_trans(c, c1, CommitModel { tx: done, ..c }, page_size, 0, 0);
    }
}

/// Merging in the staged tree keeps what the tree holds: every value
/// that the tree held under a key it holds under the key afterwards; the
/// tree is in good keeping where it was; and the staged nodes are in
/// order where they were.
pub proof fn lemma_merge_all(c: CommitModel, page_size: u32)
    requires
        merge_all(c.tx, c.image, page_size) is Ok,
    ensures
        passed_on(
            c,
            CommitModel { tx: merge_all(c.tx, c.image, page_size)->Ok_0, ..c },
            page_size,
            0,
        ),
{
    match c.tx.root {
        NodeId::Address(_) => {},
        NodeId::Id(id) => {
            lemma_traverse_merge(c, page_size, id, 0, 64);
        },
    }
}

} // verus!
