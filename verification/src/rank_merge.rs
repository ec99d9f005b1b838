use crate::key::{key_le, key_lt, lemma_key_lt_le_transitive, lemma_key_order_equal};
use crate::merge::{
    merge_all, merge_candidate, merge_children, merge_inner, merge_root, stage_child,
    traverse_merge,
};
use crate::merge_law::{
    dropped, joined, lemma_file_children, lemma_merge_children, lemma_only_ref, lemma_stage_child,
    lemma_traverse_merge, lifted, root_free, sane,
};
use crate::node::{BranchEntry, LeafEntry, next_dirty, NodeId, NodeModel};
use crate::node_laws::keys_sorted;
use crate::rank::{exact_entry, lemma_ranked_weaken, ranked, under_lo};
use crate::tree::{
    above, below, branch_keys, child_hi, leaf_keys, lemma_above_trans, lemma_below_trans,
};
use crate::tree_update::{is_entry, ref_at, unique_refs};
use crate::write_law::load;
use crate::write_model::CommitModel;
use vstd::prelude::*;

verus! {

/// Keys that lie from `lo` up to `mid` and grow, followed by keys that
/// lie from `mid` up to `hi` and grow, grow and lie from `lo` up to `hi`.
pub proof fn lemma_keys_joined(
    a: Seq<Seq<u8>>,
    b: Seq<Seq<u8>>,
    lo: Option<Seq<u8>>,
    mid: Seq<u8>,
    hi: Option<Seq<u8>>,
)
    requires
        keys_sorted(a),
        keys_sorted(b),
        forall|i: int| 0 <= i < a.len() ==> above(lo, #[trigger] a[i]) && key_lt(a[i], mid),
        forall|i: int| 0 <= i < b.len() ==> key_le(mid, #[trigger] b[i]) && below(b[i], hi),
        lo matches Some(l) ==> key_le(l, mid),
        below(mid, hi),
    ensures
        keys_sorted(a + b),
        forall|i: int| 0 <= i < (a + b).len() ==> above(lo, #[trigger] (a + b)[i]) && below(
            (a + b)[i],
            hi,
        ),
{
    let m = a + b;
    assert forall|i: int, j: int| 0 <= i < j < m.len() implies key_lt(m[i], m[j]) by {
        if j < a.len() {
            assert(key_lt(a[i], a[j]));
        } else if i >= a.len() {
            assert(key_lt(b[i - a.len()], b[j - a.len()]));
        } else {
            lemma_key_lt_le_transitive(a[i], mid, b[j - a.len()]);
        }
    }
    assert forall|i: int| 0 <= i < m.len() implies above(lo, #[trigger] m[i]) && below(m[i], hi) by {
        if i < a.len() {
            lemma_below_trans(a[i], mid, hi);
        } else {
            let k = b[i - a.len()];
            if let Some(l) = lo {
                lemma_above_trans(lo, mid, k);
            }
        }
    }
}

/// The node that took the entries of the node after it is in rank where
/// both were: for keys from the bound from below of the one up to the
/// bound from above of the other.
pub proof fn lemma_joined_keep_ranked(
    c: CommitModel,
    d: CommitModel,
    parent: u64,
    keep: u64,
    gone: u64,
    at: int,
    h: nat,
    lo: Option<Seq<u8>>,
    mid: Seq<u8>,
    hi: Option<Seq<u8>>,
)
    requires
        joined(c, d, parent, keep, gone, at),
        unique_refs(c.tx.staging),
        ranked(c, NodeId::Id(keep), h, lo, Some(mid), false),
        ranked(c, NodeId::Id(gone), h, Some(mid), hi, false),
        lo matches Some(l) ==> key_le(l, mid),
        below(mid, hi),
    ensures
        ranked(d, NodeId::Id(keep), h, lo, hi, false),
    decreases h, 0nat,
{
    let st = c.tx.staging;
    let kn = st.nodes[keep];
    let g = st.nodes[gone];
    let low = (h - 1) as nat;
    assert(is_entry(st, parent, at + 1));
    assert(is_entry(st, parent, at));
    assert(d.tx.staging.nodes.contains_key(keep));
    assert(d.tx.staging.nodes[keep] == kn.merge(g));
    assert(load(c, NodeId::Id(keep))->Ok_0.node == kn);
    assert(load(c, NodeId::Id(gone))->Ok_0.node == g);
    lemma_key_order_equal(mid, mid);
    match kn {
        NodeModel::Leaf(ks) => {
            let gs = g->Leaf_0;
            let m = ks + gs;
            assert(kn.merge(g) == NodeModel::Leaf(m));
            assert(leaf_keys(m) =~= leaf_keys(ks) + leaf_keys(gs));
            assert forall|i: int| 0 <= i < ks.len() implies above(lo, #[trigger] leaf_keys(ks)[i])
                && key_lt(leaf_keys(ks)[i], mid) by {
                assert(above(lo, ks[i].key) && below(ks[i].key, Some(mid)));
            }
            assert forall|i: int| 0 <= i < gs.len() implies key_le(mid, #[trigger] leaf_keys(gs)[i])
                && below(leaf_keys(gs)[i], hi) by {
                assert(above(Some(mid), gs[i].key) && below(gs[i].key, hi));
            }
            lemma_keys_joined(leaf_keys(ks), leaf_keys(gs), lo, mid, hi);
            assert forall|j: int| 0 <= j < m.len() implies above(lo, (#[trigger] m[j]).key) && below(
                m[j].key,
                hi,
            ) by {
                assert(leaf_keys(m)[j] == m[j].key);
                assert(above(lo, (leaf_keys(ks) + leaf_keys(gs))[j]));
            }
        },
        NodeModel::Branch(ks) => {
            let gs = g->Branch_0;
            let m = ks + gs;
            assert(kn.merge(g) == NodeModel::Branch(m));
            assert(branch_keys(m) =~= branch_keys(ks) + branch_keys(gs));
            assert forall|i: int| 0 <= i < ks.len() implies above(lo, #[trigger] branch_keys(ks)[i])
                && key_lt(branch_keys(ks)[i], mid) by {
                assert(above(lo, ks[i].key) && below(ks[i].key, Some(mid)));
            }
            assert forall|i: int| 0 <= i < gs.len() implies key_le(
                mid,
                #[trigger] branch_keys(gs)[i],
            ) && below(branch_keys(gs)[i], hi) by {
                assert(above(Some(mid), gs[i].key) && below(gs[i].key, hi));
            }
            lemma_keys_joined(branch_keys(ks), branch_keys(gs), lo, mid, hi);
            assert forall|j: int| 0 <= j < m.len() implies above(lo, (#[trigger] m[j]).key) && below(
                m[j].key,
                hi,
            ) by {
                assert(branch_keys(m)[j] == m[j].key);
                assert(above(lo, (branch_keys(ks) + branch_keys(gs))[j]));
            }
            assert forall|j: int| 0 <= j < m.len() implies (((#[trigger] m[j]).node_id is Address
                ==> exact_entry(d, m[j])) && ranked(
                d,
                m[j].node_id,
                low,
                under_lo(m, j, lo),
                child_hi(m, j, hi),
                false,
            )) by {
                let (a, i) = if j < ks.len() {
                    (keep, j)
                } else {
                    (gone, j - ks.len())
                };
                assert(is_entry(st, a, i));
                assert(m[j].node_id == ref_at(st, a, i));
                if m[j].node_id == NodeId::Id(gone) {
                    lemma_only_ref(c.tx, a, i, parent, at + 1);
                }
                if m[j].node_id == NodeId::Id(keep) {
                    lemma_only_ref(c.tx, a, i, parent, at);
                }
                let child = m[j].node_id;
                lemma_key_order_equal(m[j].key, m[j].key);
                if j < ks.len() {
                    assert(m[j] == ks[j]);
                    assert(ranked(
                        c,
                        child,
                        low,
                        under_lo(ks, j, lo),
                        child_hi(ks, j, Some(mid)),
                        false,
                    ));
                    if child is Address {
                        assert(exact_entry(c, ks[j]));
                        assert(load(d, child) == load(c, child));
                    }
                    if j + 1 < ks.len() {
                        assert(m[j + 1] == ks[j + 1]);
                        lemma_key_order_equal(ks[j + 1].key, ks[j + 1].key);
                    } else if gs.len() > 0 {
                        assert(m[j + 1] == gs[0]);
                        assert(above(Some(mid), gs[0].key));
                    }
                    lemma_ranked_weaken(
                        c,
                        child,
                        low,
                        under_lo(ks, j, lo),
                        child_hi(ks, j, Some(mid)),
                        false,
                        under_lo(m, j, lo),
                        child_hi(m, j, hi),
                        false,
                    );
                } else {
                    let i = j - ks.len();
                    assert(m[j] == gs[i]);
                    assert(ranked(
                        c,
                        child,
                        low,
                        under_lo(gs, i, Some(mid)),
                        child_hi(gs, i, hi),
                        false,
                    ));
                    if child is Address {
                        assert(exact_entry(c, gs[i]));
                        assert(load(d, child) == load(c, child));
                    }
                    if j + 1 < m.len() {
                        assert(m[j + 1] == gs[i + 1]);
                        lemma_key_order_equal(gs[i + 1].key, gs[i + 1].key);
                    }
                    if let Some(x) = hi {
                        lemma_key_order_equal(x, x);
                    }
                    lemma_ranked_weaken(
                        c,
                        child,
                        low,
                        under_lo(gs, i, Some(mid)),
                        child_hi(gs, i, hi),
                        false,
                        under_lo(m, j, lo),
                        child_hi(m, j, hi),
                        false,
                    );
                }
                lemma_joined_ranked(
                    c,
                    d,
                    parent,
                    keep,
                    gone,
                    at,
                    child,
                    low,
                    under_lo(m, j, lo),
                    child_hi(m, j, hi),
                );
            }
        },
    }
}

/// A tree that was in rank before two nodes were joined is so
/// afterwards, where its root is neither of the two.
#[verifier::rlimit(100)]
pub proof fn lemma_joined_ranked(
    c: CommitModel,
    d: CommitModel,
    parent: u64,
    keep: u64,
    gone: u64,
    at: int,
    id: NodeId,
    h: nat,
    lo: Option<Seq<u8>>,
    hi: Option<Seq<u8>>,
)
    requires
        joined(c, d, parent, keep, gone, at),
        unique_refs(c.tx.staging),
        id != NodeId::Id(gone),
        id != NodeId::Id(keep),
        ranked(c, id, h, lo, hi, false),
    ensures
        ranked(d, id, h, lo, hi, false),
    decreases h, 1nat,
{
    let st = c.tx.staging;
    let es = st.nodes[parent]->Branch_0;
    let n = load(c, id)->Ok_0.node;
    let low = (h - 1) as nat;
    assert(is_entry(st, parent, at + 1));
    assert(is_entry(st, parent, at));
    match id {
        NodeId::Address(a) => {
            lemma_file_children(c, a);
            assert(load(d, id) == load(c, id));
        },
        NodeId::Id(x) => {
            if x != parent {
                assert(d.tx.staging.nodes.contains_key(x));
                assert(d.tx.staging.nodes[x] == st.nodes[x]);
            }
        },
    }
    if id == NodeId::Id(parent) {
        let after = es.remove(at + 1);
        assert(d.tx.staging.nodes.contains_key(parent));
        assert(d.tx.staging.nodes[parent] == NodeModel::Branch(after));
        assert(load(d, id)->Ok_0.node == NodeModel::Branch(after));
        assert forall|a: int, b: int| 0 <= a < b < after.len() implies key_lt(
            branch_keys(after)[a],
            branch_keys(after)[b],
        ) by {
            let a0 = if a < at + 1 {
                a
            } else {
                a + 1
            };
            let b0 = if b < at + 1 {
                b
            } else {
                b + 1
            };
            assert(key_lt(branch_keys(es)[a0], branch_keys(es)[b0]));
        }
        assert forall|j: int| 0 <= j < after.len() implies above(lo, (#[trigger] after[j]).key)
            && below(after[j].key, hi) && (after[j].node_id is Address ==> exact_entry(
            d,
            after[j],
        )) && ranked(
            d,
            after[j].node_id,
            low,
            under_lo(after, j, lo),
            child_hi(after, j, hi),
            false,
        ) by {
            let i = if j < at + 1 {
                j
            } else {
                j + 1
            };
            assert(after[j] == es[i]);
            assert(above(lo, es[i].key) && below(es[i].key, hi));
            assert(is_entry(st, parent, i));
            assert(ranked(c, es[i].node_id, low, under_lo(es, i, lo), child_hi(es, i, hi), false));
            if es[i].node_id is Address {
                assert(exact_entry(c, es[i]));
                assert(load(d, es[i].node_id) == load(c, es[i].node_id));
            }
            if j + 1 < after.len() {
                let i1 = if j + 1 < at + 1 {
                    j + 1
                } else {
                    j + 2
                };
                assert(after[j + 1] == es[i1]);
            }
            if i == at {
                let mid = es[at + 1].key;
                assert(ranked(
                    c,
                    es[at + 1].node_id,
                    low,
                    under_lo(es, at + 1, lo),
                    child_hi(es, at + 1, hi),
                    false,
                ));
                assert(above(lo, mid) && below(mid, hi));
                assert(below(mid, child_hi(es, at + 1, hi))) by {
                    if at + 2 < es.len() {
                        assert(key_lt(branch_keys(es)[at + 1], branch_keys(es)[at + 2]));
                    }
                }
                assert(under_lo(es, at, lo) matches Some(l) ==> key_le(l, mid)) by {
                    assert(key_lt(branch_keys(es)[at], branch_keys(es)[at + 1]));
                }
                lemma_joined_keep_ranked(
                    c,
                    d,
                    parent,
                    keep,
                    gone,
                    at,
                    low,
                    under_lo(es, at, lo),
                    mid,
                    child_hi(es, at + 1, hi),
                );
            } else {
                if es[i].node_id == NodeId::Id(gone) {
                    lemma_only_ref(c.tx, parent, i, parent, at + 1);
                }
                if es[i].node_id == NodeId::Id(keep) {
                    lemma_only_ref(c.tx, parent, i, parent, at);
                }
                lemma_joined_ranked(
                    c,
                    d,
                    parent,
                    keep,
                    gone,
                    at,
                    es[i].node_id,
                    low,
                    under_lo(after, j, lo),
                    child_hi(after, j, hi),
                );
            }
        }
    } else {
        if let NodeModel::Branch(cs) = n {
            assert forall|j: int| 0 <= j < cs.len() implies (((#[trigger] cs[j]).node_id is Address
                ==> exact_entry(d, cs[j])) && ranked(
                d,
                cs[j].node_id,
                low,
                under_lo(cs, j, lo),
                child_hi(cs, j, hi),
                false,
            )) by {
                if let NodeId::Id(x) = id {
                    assert(is_entry(st, x, j));
                    if cs[j].node_id == NodeId::Id(gone) {
                        lemma_only_ref(c.tx, x, j, parent, at + 1);
                    }
                    if cs[j].node_id == NodeId::Id(keep) {
                        lemma_only_ref(c.tx, x, j, parent, at);
                    }
                }
                if cs[j].node_id is Address {
                    assert(exact_entry(c, cs[j]));
                    assert(load(d, cs[j].node_id) == load(c, cs[j].node_id));
                }
                lemma_joined_ranked(
                    c,
                    d,
                    parent,
                    keep,
                    gone,
                    at,
                    cs[j].node_id,
                    low,
                    under_lo(cs, j, lo),
                    child_hi(cs, j, hi),
                );
            }
        }
    }
}

/// A tree that was in rank before a node without entries left it is so
/// afterwards, where its root is not that node.
pub proof fn lemma_dropped_ranked(
    c: CommitModel,
    d: CommitModel,
    parent: u64,
    gone: u64,
    at: int,
    id: NodeId,
    h: nat,
    lo: Option<Seq<u8>>,
    hi: Option<Seq<u8>>,
)
    requires
        dropped(c, d, parent, gone, at),
        unique_refs(c.tx.staging),
        id != NodeId::Id(gone),
        ranked(c, id, h, lo, hi, false),
    ensures
        ranked(d, id, h, lo, hi, false),
    decreases h,
{
    let st = c.tx.staging;
    let es = st.nodes[parent]->Branch_0;
    let n = load(c, id)->Ok_0.node;
    let low = (h - 1) as nat;
    assert(is_entry(st, parent, at));
    match id {
        NodeId::Address(a) => {
            lemma_file_children(c, a);
            assert(load(d, id) == load(c, id));
        },
        NodeId::Id(x) => {
            if x != parent {
                assert(d.tx.staging.nodes.contains_key(x));
                assert(d.tx.staging.nodes[x] == st.nodes[x]);
            }
        },
    }
    if id == NodeId::Id(parent) {
        let after = es.remove(at);
        assert(d.tx.staging.nodes.contains_key(parent));
        assert(d.tx.staging.nodes[parent] == NodeModel::Branch(after));
        assert(load(d, id)->Ok_0.node == NodeModel::Branch(after));
        assert forall|a: int, b: int| 0 <= a < b < after.len() implies key_lt(
            branch_keys(after)[a],
            branch_keys(after)[b],
        ) by {
            let a0 = if a < at {
                a
            } else {
                a + 1
            };
            let b0 = if b < at {
                b
            } else {
                b + 1
            };
            assert(key_lt(branch_keys(es)[a0], branch_keys(es)[b0]));
        }
        assert forall|j: int| 0 <= j < after.len() implies above(lo, (#[trigger] after[j]).key)
            && below(after[j].key, hi) && (after[j].node_id is Address ==> exact_entry(
            d,
            after[j],
        )) && ranked(
            d,
            after[j].node_id,
            low,
            under_lo(after, j, lo),
            child_hi(after, j, hi),
            false,
        ) by {
            let i = if j < at {
                j
            } else {
                j + 1
            };
            assert(after[j] == es[i]);
            assert(above(lo, es[i].key) && below(es[i].key, hi));
            assert(is_entry(st, parent, i));
            assert(ranked(c, es[i].node_id, low, under_lo(es, i, lo), child_hi(es, i, hi), false));
            if es[i].node_id is Address {
                assert(exact_entry(c, es[i]));
                assert(load(d, es[i].node_id) == load(c, es[i].node_id));
            }
            if es[i].node_id == NodeId::Id(gone) {
                lemma_only_ref(c.tx, parent, i, parent, at);
            }
            lemma_key_order_equal(es[i].key, es[i].key);
            if let Some(x) = hi {
                lemma_key_order_equal(x, x);
            }
            if j + 1 < after.len() {
                let i1 = if j + 1 < at {
                    j + 1
                } else {
                    j + 2
                };
                assert(after[j + 1] == es[i1]);
                lemma_key_order_equal(es[i1].key, es[i1].key);
                if i + 1 < i1 {
                    assert(key_lt(branch_keys(es)[i + 1], branch_keys(es)[i1]));
                }
            } else if i + 1 < es.len() {
                assert(below(es[i + 1].key, hi));
            }
            lemma_ranked_weaken(
                c,
                es[i].node_id,
                low,
                under_lo(es, i, lo),
                child_hi(es, i, hi),
                false,
                under_lo(after, j, lo),
                child_hi(after, j, hi),
                false,
            );
            lemma_dropped_ranked(
                c,
                d,
                parent,
                gone,
                at,
                es[i].node_id,
                low,
                under_lo(after, j, lo),
                child_hi(after, j, hi),
            );
        }
    } else {
        if let NodeModel::Branch(cs) = n {
            assert forall|j: int| 0 <= j < cs.len() implies (((#[trigger] cs[j]).node_id is Address
                ==> exact_entry(d, cs[j])) && ranked(
                d,
                cs[j].node_id,
                low,
                under_lo(cs, j, lo),
                child_hi(cs, j, hi),
                false,
            )) by {
                if let NodeId::Id(x) = id {
                    assert(is_entry(st, x, j));
                    if cs[j].node_id == NodeId::Id(gone) {
                        lemma_only_ref(c.tx, x, j, parent, at);
                    }
                }
                if cs[j].node_id is Address {
                    assert(exact_entry(c, cs[j]));
                    assert(load(d, cs[j].node_id) == load(c, cs[j].node_id));
                }
                lemma_dropped_ranked(
                    c,
                    d,
                    parent,
                    gone,
                    at,
                    cs[j].node_id,
                    low,
                    under_lo(cs, j, lo),
                    child_hi(cs, j, hi),
                );
            }
        }
    }
}

/// A tree that was in rank before a child was staged is so afterwards.
pub proof fn lemma_lifted_ranked(
    c: CommitModel,
    d: CommitModel,
    parent: u64,
    at: int,
    id: NodeId,
    h: nat,
    lo: Option<Seq<u8>>,
    hi: Option<Seq<u8>>,
)
    requires
        lifted(c, d, parent, at),
        c.tx.staging.fresh(),
        ranked(c, id, h, lo, hi, false),
    ensures
        ranked(d, id, h, lo, hi, false),
    decreases h, 1nat,
{
    let st = c.tx.staging;
    let new = st.next_node_id;
    let es = st.nodes[parent]->Branch_0;
    let low = (h - 1) as nat;
    let entry = BranchEntry { key: es[at].key, node_id: NodeId::Id(new) };
    let n = load(c, id)->Ok_0.node;
    match id {
        NodeId::Address(a) => {
            assert(load(d, id) == load(c, id));
        },
        NodeId::Id(x) => {
            assert(st.nodes.contains_key(x));
            assert(x != new);
            if x == parent {
                assert(d.tx.staging.nodes[parent] == NodeModel::Branch(es.update(at, entry)));
            } else {
                assert(d.tx.staging.nodes.contains_key(x));
                assert(d.tx.staging.nodes[x] == st.nodes[x]);
            }
        },
    }
    if let NodeModel::Branch(cs) = n {
        let ds = load(d, id)->Ok_0.node->Branch_0;
        assert(branch_keys(ds) =~= branch_keys(cs));
        assert forall|j: int| 0 <= j < ds.len() implies above(lo, (#[trigger] ds[j]).key) && below(
            ds[j].key,
            hi,
        ) && (ds[j].node_id is Address ==> exact_entry(d, ds[j])) && ranked(
            d,
            ds[j].node_id,
            low,
            under_lo(ds, j, lo),
            child_hi(ds, j, hi),
            false,
        ) by {
            assert(above(lo, cs[j].key) && below(cs[j].key, hi));
            assert(ds[j].key == cs[j].key);
            if j + 1 < ds.len() {
                assert(ds[j + 1].key == cs[j + 1].key);
            }
            assert(ranked(c, cs[j].node_id, low, under_lo(cs, j, lo), child_hi(cs, j, hi), false));
            if id == NodeId::Id(parent) && j == at {
                lemma_lifted_child_ranked(
                    c,
                    d,
                    parent,
                    at,
                    low,
                    under_lo(cs, j, lo),
                    child_hi(cs, j, hi),
                );
            } else {
                assert(ds[j] == cs[j]);
                if cs[j].node_id is Address {
                    assert(exact_entry(c, cs[j]));
                    assert(load(d, cs[j].node_id) == load(c, cs[j].node_id));
                }
                lemma_lifted_ranked(
                    c,
                    d,
                    parent,
                    at,
                    cs[j].node_id,
                    low,
                    under_lo(cs, j, lo),
                    child_hi(cs, j, hi),
                );
            }
        }
    }
}

/// The staged copy of a child is in rank where the child in the file
/// was.
pub proof fn lemma_lifted_child_ranked(
    c: CommitModel,
    d: CommitModel,
    parent: u64,
    at: int,
    h: nat,
    lo: Option<Seq<u8>>,
    hi: Option<Seq<u8>>,
)
    requires
        lifted(c, d, parent, at),
        c.tx.staging.fresh(),
        ranked(c, c.tx.staging.nodes[parent]->Branch_0[at].node_id, h, lo, hi, false),
    ensures
        ranked(d, NodeId::Id(c.tx.staging.next_node_id), h, lo, hi, false),
    decreases h, 0nat,
{
    let st = c.tx.staging;
    let new = st.next_node_id;
    let es = st.nodes[parent]->Branch_0;
    let a = es[at].node_id->Address_0;
    let x = NodeId::Address(a);
    let y = NodeId::Id(new);
    let child = crate::store::node_at(c.image, a as int)->Ok_0.1;
    let low = (h - 1) as nat;
    assert(d.tx.staging.nodes.contains_key(new));
    assert(d.tx.staging.nodes[new] == child);
    assert(load(c, x)->Ok_0.node == child);
    assert(load(d, y)->Ok_0.node == child);
    lemma_file_children(c, a);
    if let NodeModel::Branch(cs) = child {
        assert forall|j: int| 0 <= j < cs.len() implies (((#[trigger] cs[j]).node_id is Address
            ==> exact_entry(d, cs[j])) && ranked(
            d,
            cs[j].node_id,
            low,
            under_lo(cs, j, lo),
            child_hi(cs, j, hi),
            false,
        )) by {
            assert(exact_entry(c, cs[j]));
            assert(load(d, cs[j].node_id) == load(c, cs[j].node_id));
            lemma_lifted_ranked(
                c,
                d,
                parent,
                at,
                cs[j].node_id,
                low,
                under_lo(cs, j, lo),
                child_hi(cs, j, hi),
            );
        }
    }
}

/// A tree that was in rank before the root gave way to its only child is
/// so afterwards, where its root is not the root that gave way.
pub proof fn lemma_collapsed_ranked(
    c: CommitModel,
    d: CommitModel,
    node: u64,
    id: NodeId,
    h: nat,
    lo: Option<Seq<u8>>,
    hi: Option<Seq<u8>>,
)
    requires
        d.image == c.image,
        d.writer == c.writer,
        c.tx.root == NodeId::Id(node),
        d.tx.staging.nodes == c.tx.staging.nodes.remove(node),
        root_free(c.tx),
        id != NodeId::Id(node),
        ranked(c, id, h, lo, hi, false),
    ensures
        ranked(d, id, h, lo, hi, false),
    decreases h,
{
    let st = c.tx.staging;
    let low = (h - 1) as nat;
    match id {
        NodeId::Address(a) => {
            lemma_file_children(c, a);
            assert(load(d, id) == load(c, id));
        },
        NodeId::Id(x) => {
            assert(d.tx.staging.nodes.contains_key(x));
            assert(d.tx.staging.nodes[x] == st.nodes[x]);
        },
    }
    if let NodeModel::Branch(cs) = load(c, id)->Ok_0.node {
        assert forall|j: int| 0 <= j < cs.len() implies (((#[trigger] cs[j]).node_id is Address
            ==> exact_entry(d, cs[j])) && ranked(
            d,
            cs[j].node_id,
            low,
            under_lo(cs, j, lo),
            child_hi(cs, j, hi),
            false,
        )) by {
            if let NodeId::Id(x) = id {
                assert(is_entry(st, x, j));
                assert(ref_at(st, x, j) is Id ==> ref_at(st, x, j) != c.tx.root);
            }
            if cs[j].node_id is Address {
                assert(exact_entry(c, cs[j]));
                assert(load(d, cs[j].node_id) == load(c, cs[j].node_id));
            }
            lemma_collapsed_ranked(
                c,
                d,
                node,
                cs[j].node_id,
                low,
                under_lo(cs, j, lo),
                child_hi(cs, j, hi),
            );
        }
    }
}

/// Whether the tree of the transaction is in rank at `c`, with some
/// number of levels.
pub open spec fn well_ranked(c: CommitModel) -> bool {
    exists|h: nat| ranked(c, c.tx.root, h, None, None, false)
}

/// Whether the tree of the transaction is in rank at `d` where it was at
/// `c` and the staged nodes were in order.
pub open spec fn rank_on(c: CommitModel, d: CommitModel) -> bool {
    sane(c.tx) && well_ranked(c) ==> well_ranked(d)
}

/// Merging a node that is not the root keeps the tree in rank.
pub proof fn lemma_merge_inner_ranks(c: CommitModel, node_id: u64, node_index: int, parent_id: u64)
    requires
        c.tx.staging.nodes.contains_key(node_id),
        merge_inner(c.tx, c.image, node_id, node_index, parent_id) is Ok,
    ensures
        rank_on(
            c,
            CommitModel {
                tx: merge_inner(c.tx, c.image, node_id, node_index, parent_id)->Ok_0.0,
                ..c
            },
        ),
{
    let st = c.tx;
    let (st2, _) = merge_inner(st, c.image, node_id, node_index, parent_id)->Ok_0;
    let d = CommitModel { tx: st2, ..c };
    if sane(st) && well_ranked(c) {
        let h = choose|h: nat| ranked(c, c.tx.root, h, None, None, false);
        let node = st.staging.nodes[node_id];
        let parent_entries = st.staging.nodes[parent_id]->Branch_0;
        if node.len() == 0 {
            assert(dropped(c, d, parent_id, node_id, node_index));
            lemma_dropped_ranked(c, d, parent_id, node_id, node_index, c.tx.root, h, None, None);
        } else if parent_entries.len() < 2 {
            assert(d == c);
        } else {
            let sibling_index = if node_index == 0 {
                1
            } else {
                node_index - 1
            };
            lemma_stage_child(c, 1, parent_id, sibling_index);
            lemma_stage_child_ranks(c, parent_id, sibling_index, c.tx.root, h, None, None);
            let (staged, sibling_id) = stage_child(st, c.image, parent_id, sibling_index)->Ok_0;
            let c1 = CommitModel { tx: staged, ..c };
            let (keep, gone, at) = if node_index == 0 {
                (node_id, sibling_id, 0int)
            } else {
                (sibling_id, node_id, node_index - 1)
            };
            let es1 = staged.staging.nodes[parent_id]->Branch_0;
            assert(es1[node_index] == parent_entries[node_index]);
            assert(joined(c1, d, parent_id, keep, gone, at));
            lemma_joined_ranked(c1, d, parent_id, keep, gone, at, c.tx.root, h, None, None);
        }
        assert(ranked(d, d.tx.root, h, None, None, false));
    }
}

/// Staging the child at an entry of a staged branch keeps every tree in
/// rank.
pub proof fn lemma_stage_child_ranks(
    c: CommitModel,
    parent: u64,
    at: int,
    id: NodeId,
    h: nat,
    lo: Option<Seq<u8>>,
    hi: Option<Seq<u8>>,
)
    requires
        sane(c.tx),
        stage_child(c.tx, c.image, parent, at) is Ok,
        ranked(c, id, h, lo, hi, false),
    ensures
        ranked(
            CommitModel { tx: stage_child(c.tx, c.image, parent, at)->Ok_0.0, ..c },
            id,
            h,
            lo,
            hi,
            false,
        ),
{
    let (st, child) = stage_child(c.tx, c.image, parent, at)->Ok_0;
    let d = CommitModel { tx: st, ..c };
    let es = c.tx.staging.nodes[parent]->Branch_0;
    match es[at].node_id {
        NodeId::Id(x) => {
            assert(d == c);
        },
        NodeId::Address(a) => {
            assert(lifted(c, d, parent, at));
            lemma_lifted_ranked(c, d, parent, at, id, h, lo, hi);
        },
    }
}

/// Merging the root keeps the tree in rank.
pub proof fn lemma_merge_root_ranks(c: CommitModel, node_id: u64)
    requires
        c.tx.staging.nodes.contains_key(node_id),
        merge_root(c.tx, c.image, node_id) is Ok,
    ensures
        rank_on(c, CommitModel { tx: merge_root(c.tx, c.image, node_id)->Ok_0.0, ..c }),
{
    let st = c.tx;
    let (st2, _) = merge_root(st, c.image, node_id)->Ok_0;
    let d = CommitModel { tx: st2, ..c };
    let root = NodeId::Id(node_id);
    if sane(st) && well_ranked(c) {
        let h = choose|h: nat| ranked(c, c.tx.root, h, None, None, false);
        let node = st.staging.nodes[node_id];
        if node.len() == 0 {
            let new = st.staging.next_node_id;
            assert(st2.staging.nodes[new] == NodeModel::Leaf(Seq::<LeafEntry>::empty()));
            assert(ranked(d, d.tx.root, 0, None, None, false));
        } else if node is Branch && node.len() == 1 {
            lemma_stage_child(c, 1, node_id, 0);
            lemma_stage_child_ranks(c, node_id, 0, root, h, None, None);
            let (staged, child) = stage_child(st, c.image, node_id, 0)->Ok_0;
            let c1 = CommitModel { tx: staged, ..c };
            let s1 = staged.staging;
            assert(is_entry(s1, node_id, 0));
            assert(ref_at(s1, node_id, 0) == NodeId::Id(child));
            assert(child != node_id);
            let es = s1.nodes[node_id]->Branch_0;
            assert(load(c1, root)->Ok_0.node == NodeModel::Branch(es));
            let y = NodeId::Id(child);
            assert(ranked(c1, es[0].node_id, (h - 1) as nat, None, None, false));
            lemma_collapsed_ranked(c1, d, node_id, y, (h - 1) as nat, None, None);
            assert(ranked(d, d.tx.root, (h - 1) as nat, None, None, false));
        } else {
            assert(d == c);
            assert(ranked(d, d.tx.root, h, None, None, false));
        }
    }
}

/// Merging below the staged children of a node keeps the tree in rank.
pub proof fn lemma_merge_children_ranks(
    c: CommitModel,
    page_size: u32,
    node_id: u64,
    from: int,
    depth: nat,
    measure: nat,
)
    requires
        merge_children(c.tx, c.image, page_size, node_id, from, depth, measure) is Ok,
    ensures
        rank_on(
            c,
            CommitModel {
                tx: merge_children(c.tx, c.image, page_size, node_id, from, depth, measure)->Ok_0,
                ..c
            },
        ),
    decreases depth, 0nat, measure,
{
    match next_dirty(c.tx.staging.nodes[node_id], from) {
        None => {},
        Some((child, index)) => {
            lemma_traverse_merge_ranks(c, page_size, child, index, (depth - 1) as nat);
            lemma_traverse_merge(c, page_size, child, index, (depth - 1) as nat);
            let (after, merged) = traverse_merge(
                c.tx,
                c.image,
                page_size,
                child,
                index,
                (depth - 1) as nat,
            )->Ok_0;
            let next_from = if merged {
                index
            } else {
                index + 1
            };
            let left = after.staging.nodes[node_id].len() - next_from;
            let c1 = CommitModel { tx: after, ..c };
            lemma_merge_children_ranks(c1, page_size, node_id, next_from, depth, left as nat);
        },
    }
}

/// Merging in the staged tree under a node keeps the tree in rank.
pub proof fn lemma_traverse_merge_ranks(
    c: CommitModel,
    page_size: u32,
    node_id: u64,
    node_index: int,
    depth: nat,
)
    requires
        traverse_merge(c.tx, c.image, page_size, node_id, node_index, depth) is Ok,
    ensures
        rank_on(
            c,
            CommitModel {
                tx: traverse_merge(c.tx, c.image, page_size, node_id, node_index, depth)->Ok_0.0,
                ..c
            },
        ),
    decreases depth, 1nat, 0nat,
{
    lemma_merge_children_ranks(
        c,
        page_size,
        node_id,
        0,
        depth,
        c.tx.staging.nodes[node_id].len(),
    );
    lemma_merge_children(c, page_size, node_id, 0, depth, c.tx.staging.nodes[node_id].len());
    let after = merge_children(
        c.tx,
        c.image,
        page_size,
        node_id,
        0,
        depth,
        c.tx.staging.nodes[node_id].len(),
    )->Ok_0;
    let c1 = CommitModel { tx: after, ..c };
    if merge_candidate(after.staging.nodes[node_id], page_size) {
        if !after.staging.parent.contains_key(node_id) {
            lemma_merge_root_ranks(c1, node_id);
        } else {
            lemma_merge_inner_ranks(c1, node_id, node_index, after.staging.parent[node_id]);
        }
    }
}

/// Merging in the staged tree keeps the tree in rank.
pub proof fn lemma_merge_all_ranks(c: CommitModel, page_size: u32)
    requires
        merge_all(c.tx, c.image, page_size) is Ok,
    ensures
        rank_on(c, CommitModel { tx: merge_all(c.tx, c.image, page_size)->Ok_0, ..c }),
{
    match c.tx.root {
        NodeId::Address(_) => {},
        NodeId::Id(id) => {
            lemma_traverse_merge_ranks(c, page_size, id, 0, 64);
        },
    }
}

} // verus!
