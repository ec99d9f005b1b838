use crate::cursor::Frame;
use crate::error::Error;
use crate::merge_law::{root_free, sane};
use crate::node::{LeafEntry, NodeId, NodeModel};
use crate::path::linked;
use crate::reader::{Loaded, NodeReader};
use crate::spine::{lemma_sibling, respined};
use crate::staging::Staged;
use crate::tree::ordered_tree;
use crate::tree_update::{
    avoids, closed_refs, is_entry, lemma_off_path, lemma_path_bounds, lemma_same_node, ref_at,
    same_but, touched, unique_refs,
};
use crate::tx::{found_value, locate_leaf, TxModel};
use crate::tx_law::{lemma_changed_respined, lemma_update_path, sound_tx};
use crate::update::{Change, cloned_levels, pointed_at, staged_change, update_result};
use crate::update_law::{
    copy_ref, lemma_cloned_levels, lemma_copy_refs, lemma_levels, lemma_staged_change_cases,
    new_ids, plan_for, update_ready,
};
use crate::write_law::{kept, load};
use crate::write_model::CommitModel;
use vstd::prelude::*;

verus! {

/// Whether `r` reads what a commit at `c` reads.
pub open spec fn reads(r: &Staged, c: CommitModel) -> bool {
    r.staging@ == c.tx.staging && r.store@ == c.image
}

/// A tree that holds none of the staged nodes that differ is in good
/// keeping where it was.
pub proof fn lemma_kept_avoiding(
    r: &Staged,
    r2: &Staged,
    c: CommitModel,
    c2: CommitModel,
    page_size: u32,
    ids: Set<u64>,
    id: NodeId,
    h: nat,
)
    requires
        reads(r, c),
        reads(r2, c2),
        c2.image == c.image,
        c2.writer == c.writer,
        same_but(r, r2, ids),
        avoids(r, id, h, ids),
        kept(c, page_size, id, h),
    ensures
        kept(c2, page_size, id, h),
    decreases h,
{
    assert(r.loaded(id) == load(c, id));
    assert(r2.loaded(id) == load(c2, id));
    lemma_same_node(r, r2, ids, id);
    if let NodeModel::Branch(es) = load(c, id)->Ok_0.node {
        assert forall|j: int| 0 <= j < es.len() implies kept(
            c2,
            page_size,
            (#[trigger] es[j]).node_id,
            (h - 1) as nat,
        ) by {
            assert(kept(c, page_size, es[j].node_id, (h - 1) as nat));
            lemma_kept_avoiding(r, r2, c, c2, page_size, ids, es[j].node_id, (h - 1) as nat);
        }
    }
}

/// The tree under every level of a path is in good keeping where the
/// tree under its first level is.
pub proof fn lemma_path_kept(r: &Staged, c: CommitModel, page_size: u32, path: Seq<Frame>, height: nat, d: int)
    requires
        reads(r, c),
        linked(r, path),
        ordered_tree(r, path[0].node_id, height, None, None),
        kept(c, page_size, path[0].node_id, height),
        0 <= d < path.len(),
    ensures
        d <= height,
        kept(c, page_size, path[d].node_id, (height - d) as nat),
    decreases d,
{
    lemma_path_bounds(r, path, height, d);
    if d > 0 {
        let up = d - 1;
        lemma_path_kept(r, c, page_size, path, height, up);
        assert(r.loaded(path[up].node_id) == Ok::<Loaded, Error>(path[up].node));
        assert(r.loaded(path[up].node_id) == load(c, path[up].node_id));
        let es = path[up].node.node->Branch_0;
        let j = path[up].index as int;
        assert(es[j].node_id == path[d].node_id);
        assert(((height - up) as nat - 1) as nat == (height - d) as nat);
        assert(kept(c, page_size, es[j].node_id, ((height - up) as nat - 1) as nat));
    }
}

/// The new node at every level of a path is in good keeping where the
/// tree was.
pub proof fn lemma_spine_kept(
    r: &Staged,
    r2: &Staged,
    c: CommitModel,
    c2: CommitModel,
    page_size: u32,
    path: Seq<Frame>,
    height: nat,
    ids2: Seq<u64>,
    entries2: Seq<LeafEntry>,
    d: int,
)
    requires
        reads(r, c),
        reads(r2, c2),
        c2.image == c.image,
        c2.writer == c.writer,
        linked(r, path),
        path.last().node.node is Leaf,
        ordered_tree(r, path[0].node_id, height, None, None),
        unique_refs(r.staging@),
        r.staging@.fresh(),
        respined(r, r2, path, ids2, entries2),
        kept(c, page_size, path[0].node_id, height),
        0 <= d < path.len(),
    ensures
        kept(c2, page_size, NodeId::Id(ids2[d]), (height - d) as nat),
    decreases path.len() - d,
{
    let n = path.len() as int;
    let id2 = NodeId::Id(ids2[d]);
    assert(r2.loaded(id2) == load(c2, id2));
    if d == n - 1 {
        assert(ids2.last() == ids2[d]);
    } else {
        let es = path[d].node.node->Branch_0;
        let at = path[d].index as int;
        let node2 = pointed_at(path[d].node.node, at, ids2[d + 1]);
        let es2 = node2->Branch_0;
        assert(r2.loaded(id2) == Ok::<Loaded, Error>(Loaded { header: None, node: node2 }));
        assert(r.loaded(path[d].node_id) == Ok::<Loaded, Error>(path[d].node));
        assert(r.loaded(path[d].node_id) == load(c, path[d].node_id));
        lemma_path_kept(r, c, page_size, path, height, d);
        lemma_path_bounds(r, path, height, d + 1);
        let h = (height - d) as nat;
        let low = (height - d - 1) as nat;
        assert((h - 1) as nat == low);
        assert((height - (d + 1)) as nat == low);
        lemma_spine_kept(r, r2, c, c2, page_size, path, height, ids2, entries2, d + 1);
        assert(es[at].node_id == path[d + 1].node_id);
        let ids = touched(path, r.staging@.next_node_id);
        assert forall|j: int| 0 <= j < es2.len() implies kept(
            c2,
            page_size,
            (#[trigger] es2[j]).node_id,
            low,
        ) by {
            if j != at {
                assert(es2[j] == es[j]);
                assert(kept(c, page_size, es[j].node_id, low));
                lemma_sibling(r, r2, path, height, d, j);
                if es[j].node_id is Id && es[j].node_id == path[d + 1].node_id {
                    let x = path[d].node_id->Id_0;
                    lemma_levels(r, path, d + 1);
                    lemma_levels(r, path, d);
                    assert(is_entry(r.staging@, x, j));
                    assert(is_entry(r.staging@, x, at));
                    assert(ref_at(r.staging@, x, j) == ref_at(r.staging@, x, at));
                }
                let lo = crate::tree::child_lo(es, j, crate::tree_update::path_lo(path, d));
                let hi = crate::tree::child_hi(es, j, crate::tree_update::path_hi(path, d));
                lemma_off_path(r, path, height, es[j].node_id, d + 1, lo, hi);
                lemma_kept_avoiding(r, r2, c, c2, page_size, ids, es[j].node_id, low);
            }
        }
    }
}

/// The number of the new node at the first level of a path: the number
/// of the node there where it was staged and stays, else the last number
/// that the copies were given.
pub proof fn lemma_first_number(path: Seq<Frame>, first: u64)
    requires
        path.len() > 0,
    ensures
        new_ids(path, first).len() == path.len(),
        cloned_levels(plan_for(path)) < path.len() ==> new_ids(path, first)[0]
            == path[0].node_id->Id_0,
        cloned_levels(plan_for(path)) >= path.len() ==> new_ids(path, first)[0] == (first
            + path.len() - 1) as u64,
{
    lemma_cloned_levels(plan_for(path));
}

/// The new node at the first level of a path is read after the change.
pub proof fn lemma_respined_root(
    r: &Staged,
    r2: &Staged,
    path: Seq<Frame>,
    ids2: Seq<u64>,
    entries2: Seq<LeafEntry>,
)
    requires
        path.len() > 0,
        respined(r, r2, path, ids2, entries2),
    ensures
        r2.loaded(NodeId::Id(ids2[0])) is Ok,
{
    if path.len() == 1 {
        assert(ids2.last() == ids2[0]);
    } else {
        assert(r2.loaded(NodeId::Id(ids2[0])) is Ok);
    }
}

/// The root of the transaction after a change was staged is the new
/// node at the first level of the path, which is staged.
pub proof fn lemma_changed_root(
    r: &Staged,
    r2: &Staged,
    st: TxModel,
    st2: TxModel,
    path: Seq<Frame>,
    height: nat,
    change: Change,
)
    requires
        sound_tx(r, st, height),
        r2.staging@ == st2.staging,
        r2.store@ == r.store@,
        update_ready(r, st, path, height),
        staged_change(st, plan_for(path), change) == Ok::<TxModel, Error>(st2),
    ensures
        st2.root == NodeId::Id(new_ids(path, st.staging.next_node_id)[0]),
        st2.staging.nodes.contains_key(new_ids(path, st.staging.next_node_id)[0]),
{
    let ids2 = new_ids(path, st.staging.next_node_id);
    let entries2 = change.apply(path.last().node.node->Leaf_0, path.last().index as int);
    lemma_changed_respined(r, r2, st, st2, path, height, change);
    lemma_respined_root(r, r2, path, ids2, entries2);
    crate::tree_update::lemma_staged_node(r2, ids2[0]);
}

/// The root of the transaction after a change was staged: it is staged,
/// and it is the root before or has a number that had not been given out.
pub proof fn lemma_update_root(
    r: &Staged,
    r2: &Staged,
    st: TxModel,
    st2: TxModel,
    path: Seq<Frame>,
    height: nat,
    change: Change,
)
    requires
        sound_tx(r, st, height),
        r2.staging@ == st2.staging,
        r2.store@ == r.store@,
        update_ready(r, st, path, height),
        staged_change(st, plan_for(path), change) == Ok::<TxModel, Error>(st2),
    ensures
        st2.root matches NodeId::Id(x) && st2.staging.nodes.contains_key(x) && (st2.root == st.root
            || x == st.staging.next_node_id + cloned_levels(plan_for(path)) - 1),
        cloned_levels(plan_for(path)) < path.len() ==> st2.root == st.root,
{
    let plan = plan_for(path);
    lemma_changed_root(r, r2, st, st2, path, height, change);
    lemma_staged_change_cases(st, plan, change, st2);
    lemma_cloned_levels(plan);
    lemma_first_number(path, st.staging.next_node_id);
    assert(path[0].node_id == st.root);
}

/// An entry of a staged branch after a change was staged in place was
/// there before.
pub proof fn lemma_in_place_ref(st: TxModel, st2: TxModel, id: u64, node: NodeModel, a: u64, i: int)
    requires
        st2 == crate::merge::with_node(st, id, node),
        node is Leaf,
        is_entry(st2.staging, a, i),
    ensures
        is_entry(st.staging, a, i),
        ref_at(st.staging, a, i) == ref_at(st2.staging, a, i),
{
    assert(a != id);
    assert(st2.staging.nodes[a] == st.staging.nodes[a]);
}

/// No entry refers to the root of the transaction after a change was
/// staged.
pub proof fn lemma_update_root_ref(
    r: &Staged,
    r2: &Staged,
    st: TxModel,
    st2: TxModel,
    path: Seq<Frame>,
    height: nat,
    change: Change,
    a: u64,
    i: int,
)
    requires
        sound_tx(r, st, height),
        root_free(st),
        st.root matches NodeId::Id(x) ==> st.staging.nodes.contains_key(x),
        r2.staging@ == st2.staging,
        r2.store@ == r.store@,
        update_ready(r, st, path, height),
        staged_change(st, plan_for(path), change) == Ok::<TxModel, Error>(st2),
        is_entry(st2.staging, a, i),
        ref_at(st2.staging, a, i) is Id,
    ensures
        ref_at(st2.staging, a, i) != st2.root,
{
    let n = path.len() as int;
    let plan = plan_for(path);
    let cloned = cloned_levels(plan);
    let first = st.staging.next_node_id;
    lemma_staged_change_cases(st, plan, change, st2);
    lemma_cloned_levels(plan);
    lemma_update_root(r, r2, st, st2, path, height, change);
    if cloned == 0 {
        let id = plan[n - 1].node_id->Id_0;
        let node = NodeModel::Leaf(
            change.apply(st.staging.nodes[id]->Leaf_0, plan[n - 1].index as int),
        );
        lemma_in_place_ref(st, st2, id, node, a, i);
        assert(ref_at(st.staging, a, i) != st.root);
    } else {
        if cloned < n {
            assert(plan[n - 1 - cloned] == crate::update::plan_of_frame(path[n - 1 - cloned]));
        }
        lemma_copy_refs(r, st, path, height, change, a, i);
        let x = ref_at(st2.staging, a, i)->Id_0;
        assert(copy_ref(st, path, a, i, x));
        if x < first && a < first && is_entry(st.staging, a, i) && ref_at(st.staging, a, i)
            == NodeId::Id(x) {
            assert(ref_at(st.staging, a, i) != st.root);
        }
        if st2.root == st.root {
            assert(st.root->Id_0 < first);
        }
    }
}

/// A change that is staged in a sound tree, with a root that no entry
/// refers to, leaves the staged nodes in order, with a staged root.
pub proof fn lemma_changed_sane(
    r: &Staged,
    r2: &Staged,
    st: TxModel,
    st2: TxModel,
    path: Seq<Frame>,
    height: nat,
    change: Change,
)
    requires
        sound_tx(r, st, height),
        root_free(st),
        st.root matches NodeId::Id(x) ==> st.staging.nodes.contains_key(x),
        r2.staging@ == st2.staging,
        r2.store@ == r.store@,
        update_ready(r, st, path, height),
        staged_change(st, plan_for(path), change) == Ok::<TxModel, Error>(st2),
    ensures
        sane(st2),
        st2.root is Id,
{
    assert(st2.staging.fresh() && unique_refs(st2.staging) && closed_refs(st2.staging)) by {
        lemma_changed_respined(r, r2, st, st2, path, height, change);
    }
    lemma_update_root(r, r2, st, st2, path, height, change);
    assert forall|a: u64, i: int|
        is_entry(st2.staging, a, i) && #[trigger] ref_at(st2.staging, a, i) is Id implies ref_at(
            st2.staging,
            a,
            i,
        ) != st2.root by {
        lemma_update_root_ref(r, r2, st, st2, path, height, change, a, i);
    }
}

/// A change that is staged in a sound tree that is in good keeping leaves
/// the tree in good keeping.
pub proof fn lemma_changed_keeps(
    r: &Staged,
    r2: &Staged,
    c: CommitModel,
    st2: TxModel,
    page_size: u32,
    path: Seq<Frame>,
    height: nat,
    change: Change,
)
    requires
        reads(r, c),
        sound_tx(r, c.tx, height),
        kept(c, page_size, c.tx.root, height),
        r2.staging@ == st2.staging,
        r2.store@ == r.store@,
        update_ready(r, c.tx, path, height),
        staged_change(c.tx, plan_for(path), change) == Ok::<TxModel, Error>(st2),
    ensures
        kept(CommitModel { tx: st2, ..c }, page_size, st2.root, height),
{
    let st = c.tx;
    let c2 = CommitModel { tx: st2, ..c };
    let ids2 = new_ids(path, st.staging.next_node_id);
    let entries2 = change.apply(path.last().node.node->Leaf_0, path.last().index as int);
    assert(respined(r, r2, path, ids2, entries2) && st2.root == NodeId::Id(ids2[0])) by {
        lemma_changed_respined(r, r2, st, st2, path, height, change);
    }
    lemma_spine_kept(r, r2, c, c2, page_size, path, height, ids2, entries2, 0);
}

/// An update of a sound tree that is in good keeping, with a root that
/// no entry refers to, leaves the tree in good keeping and the staged
/// nodes in order; after a change that was staged the root is staged.
pub proof fn lemma_update_keeps(
    r: &Staged,
    r2: &Staged,
    c: CommitModel,
    st2: TxModel,
    page_size: u32,
    height: nat,
    change: Change,
)
    requires
        reads(r, c),
        sound_tx(r, c.tx, height),
        root_free(c.tx),
        c.tx.root matches NodeId::Id(x) ==> c.tx.staging.nodes.contains_key(x),
        kept(c, page_size, c.tx.root, height),
        r2.staging@ == st2.staging,
        r2.store@ == r.store@,
        update_result(r, c.tx, change) == Ok::<TxModel, Error>(st2),
    ensures
        sane(st2),
        kept(CommitModel { tx: st2, ..c }, page_size, st2.root, height),
        change is Put ==> st2.root is Id,
{
    let key = change.key();
    lemma_update_path(r, c.tx, height, key);
    let path = locate_leaf(r, c.tx.root, key)->Ok_0;
    if change is Delete && found_value(path, key) is None {
    } else {
        lemma_changed_sane(r, r2, c.tx, st2, path, height, change);
        lemma_changed_keeps(r, r2, c, st2, page_size, path, height, change);
    }
}

} // verus!
