use crate::cursor::{branch_slot, Frame};
use crate::error::Error;
use crate::node::{LeafEntry, NodeId, NodeModel, search_keys};
use crate::node_laws::keys_sorted;
use crate::path::linked;
use crate::rank::{branch_first, exact_entry, ranked, under_lo};
use crate::reader::{Loaded, NodeReader};
use crate::spine::{lemma_leaf_change, lemma_sibling, respined};
use crate::staging::Staged;
use crate::tree::{above, below, branch_keys, child_hi, leaf_keys, ordered_tree};
use crate::tree_update::{
    avoids, is_entry, lemma_key_in_bounds, lemma_off_path, lemma_path_bounds, lemma_same_node,
    lemma_slot_keys, path_hi, ref_at, routed, same_but, touched, unique_refs,
};
use crate::tx::{found_value, locate_leaf, TxModel};
use crate::tx_law::{lemma_changed_respined, lemma_leaf_ready, lemma_update_path, sound_tx};
use crate::update::{Change, pointed_at, staged_change, update_result};
use crate::update_keeps::reads;
use crate::update_law::{lemma_levels, new_ids, plan_for, update_ready};
use crate::write_law::load;
use crate::write_model::CommitModel;
use vstd::prelude::*;

verus! {

/// The bound from below for the keys under level `d` of `path`, in a
/// tree in rank.
pub open spec fn rank_lo(path: Seq<Frame>, d: int) -> Option<Seq<u8>>
    decreases d,
{
    if d <= 0 {
        None
    } else {
        under_lo(path[d - 1].node.node->Branch_0, path[d - 1].index as int, rank_lo(path, d - 1))
    }
}

/// A tree that holds none of the staged nodes that differ is in rank
/// where it was.
pub proof fn lemma_ranked_avoiding(
    r: &Staged,
    r2: &Staged,
    c: CommitModel,
    c2: CommitModel,
    ids: Set<u64>,
    id: NodeId,
    h: nat,
    lo: Option<Seq<u8>>,
    hi: Option<Seq<u8>>,
)
    requires
        reads(r, c),
        reads(r2, c2),
        c2.image == c.image,
        same_but(r, r2, ids),
        avoids(r, id, h, ids),
        ranked(c, id, h, lo, hi, true),
    ensures
        ranked(c2, id, h, lo, hi, true),
        load(c2, id) == load(c, id),
    decreases h,
{
    assert(r.loaded(id) == load(c, id));
    assert(r2.loaded(id) == load(c2, id));
    lemma_same_node(r, r2, ids, id);
    if let NodeModel::Branch(es) = load(c, id)->Ok_0.node {
        assert forall|j: int| 0 <= j < es.len() implies (((#[trigger] es[j]).node_id is Address
            ==> exact_entry(c2, es[j])) && branch_first(c2, es[j]) && ranked(
            c2,
            es[j].node_id,
            (h - 1) as nat,
            under_lo(es, j, lo),
            child_hi(es, j, hi),
            true,
        )) by {
            assert(exact_entry(c, es[j]) || !(es[j].node_id is Address));
            assert(branch_first(c, es[j]));
            lemma_ranked_avoiding(
                r,
                r2,
                c,
                c2,
                ids,
                es[j].node_id,
                (h - 1) as nat,
                under_lo(es, j, lo),
                child_hi(es, j, hi),
            );
        }
    }
}

/// Every level of a path in a tree in rank is in rank for the bounds
/// that the levels above it set; and the first key of a branch at a level
/// is its bound from below, where it has one.
pub proof fn lemma_path_ranked(r: &Staged, c: CommitModel, path: Seq<Frame>, height: nat, d: int)
    requires
        reads(r, c),
        linked(r, path),
        ordered_tree(r, path[0].node_id, height, None, None),
        ranked(c, path[0].node_id, height, None, None, true),
        0 <= d < path.len(),
    ensures
        d <= height,
        ranked(c, path[d].node_id, (height - d) as nat, rank_lo(path, d), path_hi(path, d), true),
        rank_lo(path, d) matches Some(l) ==> (path[d].node.node matches NodeModel::Branch(cs)
            ==> cs.len() > 0 ==> cs[0].key == l),
    decreases d,
{
    lemma_path_bounds(r, path, height, d);
    assert(r.loaded(path[d].node_id) == Ok::<Loaded, Error>(path[d].node));
    assert(r.loaded(path[d].node_id) == load(c, path[d].node_id));
    if d > 0 {
        let up = d - 1;
        lemma_path_ranked(r, c, path, height, up);
        assert(r.loaded(path[up].node_id) == Ok::<Loaded, Error>(path[up].node));
        assert(r.loaded(path[up].node_id) == load(c, path[up].node_id));
        let es = path[up].node.node->Branch_0;
        let j = path[up].index as int;
        assert(es[j].node_id == path[d].node_id);
        assert(((height - up) as nat - 1) as nat == (height - d) as nat);
        assert(ranked(
            c,
            es[j].node_id,
            ((height - up) as nat - 1) as nat,
            under_lo(es, j, rank_lo(path, up)),
            child_hi(es, j, path_hi(path, up)),
            true,
        ));
        assert(branch_first(c, es[j]));
    }
}

/// The key that a path is routed by is not before the bound from below
/// of any level of the path.
pub proof fn lemma_key_above(r: &Staged, c: CommitModel, path: Seq<Frame>, height: nat, key: Seq<u8>, d: int)
    requires
        reads(r, c),
        linked(r, path),
        ordered_tree(r, path[0].node_id, height, None, None),
        ranked(c, path[0].node_id, height, None, None, true),
        routed(path, key),
        0 <= d < path.len(),
    ensures
        above(rank_lo(path, d), key),
    decreases d,
{
    if d > 0 {
        let up = d - 1;
        lemma_key_above(r, c, path, height, key, up);
        lemma_path_ranked(r, c, path, height, up);
        lemma_path_bounds(r, path, height, up);
        assert(r.loaded(path[up].node_id) == Ok::<Loaded, Error>(path[up].node));
        let es = path[up].node.node->Branch_0;
        let keys = branch_keys(es);
        lemma_slot_keys(keys, key);
        let slot = path[up].index as int;
        assert(slot == branch_slot(keys, key));
        assert(keys[slot] == es[slot].key);
    }
}

/// The new node at every level of a path is in rank, for the bounds of
/// the level, where the tree was in rank and the new leaf holds keys that
/// grow and are the key that the path is routed by or keys of the leaf
/// before.
#[verifier::rlimit(100)]
pub proof fn lemma_spine_ranked(
    r: &Staged,
    r2: &Staged,
    c: CommitModel,
    c2: CommitModel,
    path: Seq<Frame>,
    height: nat,
    ids2: Seq<u64>,
    entries2: Seq<LeafEntry>,
    key: Seq<u8>,
    d: int,
)
    requires
        reads(r, c),
        reads(r2, c2),
        c2.image == c.image,
        linked(r, path),
        path.last().node.node is Leaf,
        ordered_tree(r, path[0].node_id, height, None, None),
        ranked(c, path[0].node_id, height, None, None, true),
        unique_refs(r.staging@),
        r.staging@.fresh(),
        respined(r, r2, path, ids2, entries2),
        routed(path, key),
        keys_sorted(leaf_keys(entries2)),
        forall|j: int|
            0 <= j < entries2.len() ==> (#[trigger] entries2[j]).key == key || exists|i: int|
                0 <= i < path.last().len() && (#[trigger] path.last().node.node->Leaf_0[i]).key
                    == entries2[j].key,
        0 <= d < path.len(),
    ensures
        ranked(
            c2,
            NodeId::Id(ids2[d]),
            (height - d) as nat,
            rank_lo(path, d),
            path_hi(path, d),
            true,
        ),
    decreases path.len() - d,
{
    let n = path.len() as int;
    lemma_path_ranked(r, c, path, height, d);
    lemma_key_above(r, c, path, height, key, d);
    lemma_key_in_bounds(r, path, height, key, d);
    assert(r.loaded(path[d].node_id) == Ok::<Loaded, Error>(path[d].node));
    assert(r.loaded(path[d].node_id) == load(c, path[d].node_id));
    let id2 = NodeId::Id(ids2[d]);
    assert(r2.loaded(id2) == load(c2, id2));
    let lo = rank_lo(path, d);
    let hi = path_hi(path, d);
    if d == n - 1 {
        assert(path.last() == path[d]);
        assert(ids2.last() == ids2[d]);
        let es = path[d].node.node->Leaf_0;
        assert forall|j: int| 0 <= j < entries2.len() implies above(
            lo,
            (#[trigger] entries2[j]).key,
        ) && below(entries2[j].key, hi) by {
            if entries2[j].key != key {
                let i = choose|i: int|
                    0 <= i < path.last().len() && (#[trigger] es[i]).key == entries2[j].key;
                assert(above(lo, es[i].key) && below(es[i].key, hi));
            }
        }
    } else {
        let es = path[d].node.node->Branch_0;
        let at = path[d].index as int;
        let node2 = pointed_at(path[d].node.node, at, ids2[d + 1]);
        let es2 = node2->Branch_0;
        assert(r2.loaded(id2) == Ok::<Loaded, Error>(Loaded { header: None, node: node2 }));
        assert(branch_keys(es2) =~= branch_keys(es));
        let h = (height - d) as nat;
        let low = (height - d - 1) as nat;
        assert((h - 1) as nat == low);
        assert((height - (d + 1)) as nat == low);
        lemma_path_bounds(r, path, height, d + 1);
        assert(es[at].node_id == path[d + 1].node_id);
        assert(es2[at].node_id == NodeId::Id(ids2[d + 1]));
        let ids = touched(path, r.staging@.next_node_id);
        assert forall|j: int| 0 <= j < es2.len() implies above(lo, (#[trigger] es2[j]).key)
            && below(es2[j].key, hi) && (es2[j].node_id is Address ==> exact_entry(c2, es2[j]))
            && branch_first(c2, es2[j]) && ranked(
            c2,
            es2[j].node_id,
            low,
            under_lo(es2, j, lo),
            child_hi(es2, j, hi),
            true,
        ) by {
            assert(es2[j].key == es[j].key);
            assert(above(lo, es[j].key) && below(es[j].key, hi));
            assert(under_lo(es2, j, lo) == under_lo(es, j, lo));
            assert(child_hi(es2, j, hi) == child_hi(es, j, hi)) by {
                if j + 1 < es.len() {
                    assert(es2[j + 1].key == es[j + 1].key);
                }
            }
            assert(ranked(c, es[j].node_id, low, under_lo(es, j, lo), child_hi(es, j, hi), true));
            assert(branch_first(c, es[j]));
            if j == at {
                lemma_spine_ranked(r, r2, c, c2, path, height, ids2, entries2, key, d + 1);
                lemma_spine_first(r, r2, c, c2, path, ids2, entries2, d + 1);
                assert(r.loaded(path[d + 1].node_id) == Ok::<Loaded, Error>(path[d + 1].node));
                assert(r.loaded(path[d + 1].node_id) == load(c, path[d + 1].node_id));
            } else {
                assert(es2[j] == es[j]);
                lemma_sibling(r, r2, path, height, d, j);
                if es[j].node_id is Id && es[j].node_id == path[d + 1].node_id {
                    let x = path[d].node_id->Id_0;
                    lemma_levels(r, path, d + 1);
                    lemma_levels(r, path, d);
                    assert(is_entry(r.staging@, x, j));
                    assert(is_entry(r.staging@, x, at));
                    assert(ref_at(r.staging@, x, j) == ref_at(r.staging@, x, at));
                }
                let olo = crate::tree::child_lo(es, j, crate::tree_update::path_lo(path, d));
                lemma_off_path(r, path, height, es[j].node_id, d + 1, olo, child_hi(es, j, hi));
                lemma_ranked_avoiding(
                    r,
                    r2,
                    c,
                    c2,
                    ids,
                    es[j].node_id,
                    low,
                    under_lo(es, j, lo),
                    child_hi(es, j, hi),
                );
                if es[j].node_id is Address {
                    assert(exact_entry(c, es[j]));
                }
            }
        }
    }
}

/// The new node at a level of a path is a branch with the keys of the
/// node of the level, where that is a branch.
pub proof fn lemma_spine_first(
    r: &Staged,
    r2: &Staged,
    c: CommitModel,
    c2: CommitModel,
    path: Seq<Frame>,
    ids2: Seq<u64>,
    entries2: Seq<LeafEntry>,
    d: int,
)
    requires
        reads(r, c),
        reads(r2, c2),
        linked(r, path),
        path.last().node.node is Leaf,
        respined(r, r2, path, ids2, entries2),
        0 <= d < path.len(),
    ensures
        load(c2, NodeId::Id(ids2[d])) matches Ok(m) && (m.node matches NodeModel::Branch(cs)
            ==> path[d].node.node matches NodeModel::Branch(es) && cs.len() == es.len() && (
        cs.len() > 0 ==> cs[0].key == es[0].key)),
{
    let id2 = NodeId::Id(ids2[d]);
    assert(r2.loaded(id2) == load(c2, id2));
    assert(r.loaded(path[d].node_id) == Ok::<Loaded, Error>(path[d].node));
    if d == path.len() - 1 {
        assert(ids2.last() == ids2[d]);
    } else {
        let node2 = pointed_at(path[d].node.node, path[d].index as int, ids2[d + 1]);
        assert(r2.loaded(id2) == Ok::<Loaded, Error>(Loaded { header: None, node: node2 }));
    }
}

/// The tree with a new spine and a changed leaf is in rank where the
/// tree before was.
pub proof fn lemma_respined_ranks(
    r: &Staged,
    r2: &Staged,
    c: CommitModel,
    c2: CommitModel,
    path: Seq<Frame>,
    height: nat,
    ids2: Seq<u64>,
    change: Change,
)
    requires
        reads(r, c),
        reads(r2, c2),
        c2.image == c.image,
        linked(r, path),
        path.last().node.node is Leaf,
        ordered_tree(r, path[0].node_id, height, None, None),
        ranked(c, path[0].node_id, height, None, None, true),
        unique_refs(r.staging@),
        r.staging@.fresh(),
        respined(
            r,
            r2,
            path,
            ids2,
            change.apply(path.last().node.node->Leaf_0, path.last().index as int),
        ),
        routed(path, change.key()),
        keys_sorted(leaf_keys(path.last().node.node->Leaf_0)),
        crate::spine::fits_leaf(path.last().node.node->Leaf_0, path.last().index as int, change),
    ensures
        ranked(c2, NodeId::Id(ids2[0]), height, None, None, true),
{
    let es = path.last().node.node->Leaf_0;
    let index = path.last().index as int;
    lemma_leaf_change(es, index, change, change.key(), change.key());
    lemma_spine_ranked(r, r2, c, c2, path, height, ids2, change.apply(es, index), change.key(), 0);
}

/// What a change that is staged at the end of the path of an update
/// starts from and leaves: the tree with a new spine and the changed
/// leaf, with the first new node as its root.
pub proof fn lemma_changed_facts(
    r: &Staged,
    r2: &Staged,
    st: TxModel,
    st2: TxModel,
    path: Seq<Frame>,
    height: nat,
    change: Change,
)
    requires
        sound_tx(r, st, height),
        r2.staging@ == st2.staging,
        r2.store@ == r.store@,
        update_ready(r, st, path, height),
        path.last().index == search_keys(
            path.last().node.node.keys(),
            change.key(),
            0,
            path.last().len() as int,
        ).1,
        change is Delete ==> found_value(path, change.key()) is Some,
        staged_change(st, plan_for(path), change) == Ok::<TxModel, Error>(st2),
    ensures
        linked(r, path),
        path.last().node.node is Leaf,
        path[0].node_id == st.root,
        ordered_tree(r, path[0].node_id, height, None, None),
        unique_refs(r.staging@),
        r.staging@.fresh(),
        respined(
            r,
            r2,
            path,
            new_ids(path, st.staging.next_node_id),
            change.apply(path.last().node.node->Leaf_0, path.last().index as int),
        ),
        st2.root == NodeId::Id(new_ids(path, st.staging.next_node_id)[0]),
        keys_sorted(leaf_keys(path.last().node.node->Leaf_0)),
        crate::spine::fits_leaf(path.last().node.node->Leaf_0, path.last().index as int, change),
{
    lemma_leaf_ready(r, path, height, change);
    lemma_changed_respined(r, r2, st, st2, path, height, change);
}

/// An update of a sound tree in rank leaves the tree in rank.
#[verifier::rlimit(60)]
pub proof fn lemma_update_ranks(
    r: &Staged,
    r2: &Staged,
    c: CommitModel,
    st2: TxModel,
    height: nat,
    change: Change,
)
    requires
        reads(r, c),
        sound_tx(r, c.tx, height),
        ranked(c, c.tx.root, height, None, None, true),
        r2.staging@ == st2.staging,
        r2.store@ == r.store@,
        update_result(r, c.tx, change) == Ok::<TxModel, Error>(st2),
    ensures
        ranked(CommitModel { tx: st2, ..c }, st2.root, height, None, None, true),
{
    let key = change.key();
    lemma_update_path(r, c.tx, height, key);
    let path = locate_leaf(r, c.tx.root, key)->Ok_0;
    if change is Delete && found_value(path, key) is None {
    } else {
        let c2 = CommitModel { tx: st2, ..c };
        let ids2 = new_ids(path, c.tx.staging.next_node_id);
        lemma_changed_facts(r, r2, c.tx, st2, path, height, change);
        lemma_respined_ranks(r, r2, c, c2, path, height, ids2, change);
    }
}

} // verus!
