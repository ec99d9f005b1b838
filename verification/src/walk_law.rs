use crate::cursor::{
    advance, branch_slot, depth_left, descend, descend_from, enter, Frame, lemma_descend_ends,
    MAX_SKIPS, open_at, room, seek_from, seek_in, step_at, with_top_index,
};
use crate::error::Error;
use crate::node::{BranchEntry, LeafEntry, NodeId, NodeModel, search_keys};
use crate::path::{
    complete, lemma_branch_slot_bounds, lemma_descend_complete, lemma_push_linked,
    lemma_step_linked, lemma_top_index_linked, linked,
};
use crate::rank_update::lemma_changed_facts;
use crate::reader::{Loaded, NodeReader};
use crate::ready_law::{lemma_descend_ok, lemma_room, lemma_update_ok_opened};
use crate::spine::{lemma_sibling, respined};
use crate::staging::Staged;
use crate::tree::{child_hi, child_lo, ordered_tree};
use crate::tree_update::{
    avoids, is_entry, lemma_off_path, lemma_path_bounds, lemma_same_node, path_hi, path_lo, ref_at,
    same_but, touched, unique_refs,
};
use crate::tx::{found_value, locate, locate_leaf, lookup, TxModel};
use crate::tx_law::{lemma_update_correct, lemma_update_path, sound_tx};
use crate::update::{Change, cloned_levels, pointed_at, update_result};
use crate::update_law::{
    lemma_cloned_levels, lemma_copies_nodes, lemma_levels, lemma_staged_change_cases, new_ids,
    plan_for,
};
use vstd::prelude::*;

verus! {

/// The number of leaves of the trees of height `height` under the
/// entries of `es` from entry `from` on.
pub open spec fn leaves_after<R: NodeReader>(r: &R, es: Seq<BranchEntry>, from: int, height: nat) -> nat
    decreases height, es.len() - from + 1,
{
    if from < 0 || from >= es.len() {
        0
    } else {
        leaves(r, es[from].node_id, height) + leaves_after(r, es, from + 1, height)
    }
}

/// The number of leaves of the tree of height `height` under `id`.
pub open spec fn leaves<R: NodeReader>(r: &R, id: NodeId, height: nat) -> nat
    decreases height, 0nat,
{
    match r.loaded(id) {
        Err(_) => 0,
        Ok(n) => match n.node {
            NodeModel::Leaf(_) => 1,
            NodeModel::Branch(es) => if height == 0 {
                0
            } else {
                leaves_after(r, es, 0, (height - 1) as nat)
            },
        },
    }
}

/// Whether the tree has no more leaves than a cursor steps over in a
/// row.
pub open spec fn few_leaves<R: NodeReader>(r: &R, root: NodeId, height: nat) -> bool {
    leaves(r, root, height) <= MAX_SKIPS
}

/// The number of leaves after the leaf of `path`, in the tree under
/// level `d` of the path, which has the height `height`.
pub open spec fn right_of<R: NodeReader>(r: &R, path: Seq<Frame>, d: int, height: nat) -> nat
    decreases path.len() - d,
{
    if d < 0 || d >= path.len() - 1 {
        0
    } else {
        leaves_after(r, path[d].node.node->Branch_0, path[d].index as int + 1, (height - 1) as nat)
            + right_of(r, path, d + 1, (height - 1) as nat)
    }
}

/// The entries from an earlier one on hold no fewer leaves than those
/// from a later one on.
pub proof fn lemma_leaves_after_more<R: NodeReader>(
    r: &R,
    es: Seq<BranchEntry>,
    from: int,
    to: int,
    height: nat,
)
    requires
        0 <= from <= to,
    ensures
        leaves_after(r, es, from, height) >= leaves_after(r, es, to, height),
    decreases to - from,
{
    if from < to && from < es.len() {
        lemma_leaves_after_more(r, es, from + 1, to, height);
    }
}

/// A search tree has a leaf.
pub proof fn lemma_has_leaf<R: NodeReader>(
    r: &R,
    id: NodeId,
    height: nat,
    lo: Option<Seq<u8>>,
    hi: Option<Seq<u8>>,
)
    requires
        ordered_tree(r, id, height, lo, hi),
    ensures
        leaves(r, id, height) >= 1,
    decreases height,
{
    if let NodeModel::Branch(es) = r.loaded(id)->Ok_0.node {
        assert(ordered_tree(r, es[0].node_id, (height - 1) as nat, child_lo(es, 0, lo), child_hi(es, 0, hi)));
        lemma_has_leaf(r, es[0].node_id, (height - 1) as nat, child_lo(es, 0, lo), child_hi(es, 0, hi));
    }
}

/// Fewer leaves come after the leaf of a path than the tree under any
/// of its levels has.
pub proof fn lemma_right_bound<R: NodeReader>(r: &R, path: Seq<Frame>, height: nat, d: int)
    requires
        linked(r, path),
        ordered_tree(r, path[0].node_id, height, None, None),
        0 <= d < path.len(),
    ensures
        right_of(r, path, d, (height - d) as nat) + 1 <= leaves(
            r,
            path[d].node_id,
            (height - d) as nat,
        ),
    decreases path.len() - d,
{
    let h = (height - d) as nat;
    lemma_path_bounds(r, path, height, d);
    assert(r.loaded(path[d].node_id) == Ok::<Loaded, Error>(path[d].node));
    lemma_has_leaf(r, path[d].node_id, h, path_lo(path, d), path_hi(path, d));
    if d < path.len() - 1 {
        let es = path[d].node.node->Branch_0;
        let at = path[d].index as int;
        lemma_right_bound(r, path, height, d + 1);
        lemma_path_bounds(r, path, height, d + 1);
        assert(es[at].node_id == path[d + 1].node_id);
        assert((h - 1) as nat == (height - (d + 1)) as nat);
        lemma_leaves_after_more(r, es, 0, at, (h - 1) as nat);
    }
}

/// The leaves after the leaf that a path goes down to through first
/// children, in the tree under the last level of the path before: all
/// the leaves under the entry at its index but one, and the leaves under
/// the entries after it.
pub proof fn lemma_first_walk<R: NodeReader>(
    r: &R,
    stack: Seq<Frame>,
    fuel: nat,
    h: nat,
    lo: Option<Seq<u8>>,
    hi: Option<Seq<u8>>,
)
    requires
        linked(r, stack),
        ordered_tree(r, stack.last().node_id, h, lo, hi),
        stack.last().node.node is Branch ==> stack.last().index < stack.last().len(),
        descend_from(r, stack, false, fuel) is Ok,
    ensures
        ({
            let below = descend_from(r, stack, false, fuel)->Ok_0;
            let top = stack.last();
            right_of(r, below, stack.len() - 1, h) + 1 == match top.node.node {
                NodeModel::Leaf(_) => 1nat,
                NodeModel::Branch(es) => leaves_after(
                    r,
                    es,
                    top.index as int + 1,
                    (h - 1) as nat,
                ) + leaves(r, es[top.index as int].node_id, (h - 1) as nat),
            }
        }),
    decreases fuel,
{
    let top = stack.last();
    let t = stack.len() - 1;
    let below = descend_from(r, stack, false, fuel)->Ok_0;
    assert(r.loaded(top.node_id) == Ok::<Loaded, Error>(top.node));
    lemma_descend_ends(r, stack, false, fuel);
    if let NodeModel::Branch(es) = top.node.node {
        let j = top.index as int;
        let child = es[j].node_id;
        let low = (h - 1) as nat;
        assert(ordered_tree(r, child, low, child_lo(es, j, lo), child_hi(es, j, hi)));
        let node = r.loaded(child)->Ok_0;
        let next = stack.push(enter(node, child, false));
        lemma_push_linked(r, stack, false);
        lemma_first_walk(r, next, (fuel - 1) as nat, low, child_lo(es, j, lo), child_hi(es, j, hi));
        lemma_descend_ends(r, next, false, (fuel - 1) as nat);
        assert(below.take(next.len() as int)[t] == below[t]);
        assert(below[t] == stack[t]);
        assert(next.last().index == 0);
        // The leaves under the child are one more than those after the
        // leaf that the path goes down to.
        assert(right_of(r, below, t + 1, low) + 1 == leaves(r, child, low)) by {
            if let NodeModel::Branch(cs) = node.node {
                assert(leaves(r, child, low) == leaves_after(r, cs, 0, (low - 1) as nat));
            }
        }
    } else {
        assert(below == stack);
    }
}

/// Paths that are the same above level `i` have the same leaves after
/// them but for those under level `i`.
pub proof fn lemma_right_above<R: NodeReader>(
    r: &R,
    p: Seq<Frame>,
    q: Seq<Frame>,
    i: int,
    d: int,
    height: nat,
)
    requires
        0 <= d <= i,
        i < p.len(),
        i < q.len(),
        i <= height,
        forall|e: int| 0 <= e < i ==> p[e] == q[e],
    ensures
        right_of(r, p, d, (height - d) as nat) - right_of(r, p, i, (height - i) as nat) == right_of(
            r,
            q,
            d,
            (height - d) as nat,
        ) - right_of(r, q, i, (height - i) as nat),
    decreases i - d,
{
    if d < i {
        lemma_right_above(r, p, q, i, d + 1, height);
        assert(p[d] == q[d]);
        assert(((height - d) as nat - 1) as nat == (height - (d + 1)) as nat);
        if d >= p.len() - 1 || d >= q.len() - 1 {
            assert(d + 1 == i);
        }
    }
}

/// No leaf comes after the leaf of a path in the tree under a level
/// below which no level has a further entry.
pub proof fn lemma_right_none<R: NodeReader>(r: &R, path: Seq<Frame>, d: int, height: nat)
    requires
        0 <= d,
        forall|e: int|
            d <= e < path.len() - 1 ==> (#[trigger] path[e]).node.node is Branch && !(path[e].index
                + 1 < path[e].len()),
    ensures
        right_of(r, path, d, height) == 0,
    decreases path.len() - d,
{
    if d < path.len() - 1 {
        lemma_right_none(r, path, d + 1, (height - 1) as nat);
        assert(path[d].node.node is Branch && !(path[d].index + 1 < path[d].len()));
        assert(path[d].len() == path[d].node.node->Branch_0.len());
    }
}

/// No level below the level at which a cursor moves on has a further
/// entry.
pub proof fn lemma_room_deepest(stack: Seq<Frame>, i: int, e: int)
    requires
        -1 <= i < stack.len(),
        room(stack, i, false) < e <= i,
    ensures
        !(stack[e].index + 1 < stack[e].len()),
    decreases i + 1,
{
    if i >= 0 && !(stack[i].index + 1 < stack[i].len()) && e < i {
        lemma_room_deepest(stack, i - 1, e);
    }
}

/// Moving to the next entry succeeds on a path of a search tree of 63
/// levels at most, where fewer leaves come after the leaf of the path
/// than leaves may be stepped over.
pub proof fn lemma_advance_counted<R: NodeReader>(r: &R, stack: Seq<Frame>, height: nat, budget: nat)
    requires
        complete(r, stack),
        ordered_tree(r, stack[0].node_id, height, None, None),
        height <= 63,
        right_of(r, stack, 0, height) < budget,
    ensures
        advance(r, stack, budget) is Ok,
    decreases budget,
{
    let n = stack.len() as int;
    lemma_room(stack, n - 1);
    let i = room(stack, n - 1, false);
    if i >= 0 {
        let next = step_at(stack, i, false);
        lemma_step_linked(r, stack, i, false);
        lemma_path_bounds(r, stack, height, i);
        assert(next.last().node_id == stack[i].node_id);
        assert(next.last().node == stack[i].node);
        assert(next.len() == i + 1);
        let h = (height - i) as nat;
        let lo = path_lo(stack, i);
        let hi = path_hi(stack, i);
        lemma_descend_ok(r, next, false, depth_left(next.len()), h, lo, hi);
        let below = descend(r, next, false)->Ok_0;
        if below.last().len() == 0 {
            lemma_descend_complete(r, next, false, depth_left(next.len()));
            lemma_descend_ends(r, next, false, depth_left(next.len()));
            assert forall|e: int| 0 <= e < i implies below[e] == stack[e] by {
                assert(below.take(next.len() as int)[e] == below[e]);
                assert(next[e] == stack[e]);
            }
            assert(below[0].node_id == stack[0].node_id) by {
                assert(below.take(next.len() as int)[0] == below[0]);
                assert(next[0].node_id == stack[0].node_id);
            }
            if i == n - 1 {
                // The leaf has a further entry: it holds an entry.
                assert(stack[i] == stack.last());
                assert(below == next);
            } else {
                let es = stack[i].node.node->Branch_0;
                let at = stack[i].index as int;
                lemma_first_walk(r, next, depth_left(next.len()), h, lo, hi);
                assert forall|e: int| i + 1 <= e < stack.len() - 1 implies (
                #[trigger] stack[e]).node.node is Branch && !(stack[e].index + 1
                    < stack[e].len()) by {
                    lemma_room_deepest(stack, n - 1, e);
                }
                lemma_right_none(r, stack, i + 1, (h - 1) as nat);
                assert(right_of(r, stack, i, h) == leaves_after(r, es, at + 1, (h - 1) as nat));
                assert(right_of(r, below, i, h) + 1 == right_of(r, stack, i, h));
                lemma_right_above(r, below, stack, i, 0, height);
                lemma_advance_counted(r, below, height, (budget - 1) as nat);
            }
        }
    }
}

/// Moving to the next entry succeeds on a path of a search tree of 63
/// levels at most with no more leaves than may be stepped over.
pub proof fn lemma_advance_within<R: NodeReader>(r: &R, stack: Seq<Frame>, height: nat)
    requires
        complete(r, stack),
        ordered_tree(r, stack[0].node_id, height, None, None),
        few_leaves(r, stack[0].node_id, height),
        height <= 63,
    ensures
        advance(r, stack, MAX_SKIPS as nat) is Ok,
{
    lemma_right_bound(r, stack, height, 0);
    lemma_advance_counted(r, stack, height, MAX_SKIPS as nat);
}

/// Looking for a key from a path in a search tree of 63 levels at most,
/// with no more leaves than may be stepped over, succeeds.
pub proof fn lemma_seek_from_within<R: NodeReader>(
    r: &R,
    stack: Seq<Frame>,
    key: Seq<u8>,
    fuel: nat,
    height: nat,
)
    requires
        linked(r, stack),
        ordered_tree(r, stack[0].node_id, height, None, None),
        few_leaves(r, stack[0].node_id, height),
        height <= 63,
        fuel + stack.len() >= height + 1,
    ensures
        seek_from(r, stack, key, fuel) is Ok,
    decreases fuel,
{
    let d = stack.len() - 1;
    let top = stack.last();
    lemma_path_bounds(r, stack, height, d);
    assert(r.loaded(top.node_id) == Ok::<Loaded, Error>(top.node));
    match top.node.node {
        NodeModel::Branch(es) => {
            let keys = top.node.node.keys();
            lemma_branch_slot_bounds(keys, key);
            let slot = branch_slot(keys, key);
            let child = es[slot].node_id;
            let lo = path_lo(stack, d);
            let hi = path_hi(stack, d);
            assert(ordered_tree(
                r,
                child,
                ((height - d) as nat - 1) as nat,
                child_lo(es, slot, lo),
                child_hi(es, slot, hi),
            ));
            let moved = with_top_index(stack, slot as nat);
            lemma_top_index_linked(r, stack, slot as nat);
            lemma_push_linked(r, moved, false);
            let next = moved.push(enter(r.loaded(child)->Ok_0, child, false));
            assert(next[0].node_id == stack[0].node_id) by {
                if d > 0 {
                    assert(moved[0] == stack[0]);
                }
            }
            lemma_seek_from_within(r, next, key, (fuel - 1) as nat, height);
        },
        NodeModel::Leaf(es) => {
            if es.len() == 0 {
                lemma_advance_within(r, stack, height);
            } else {
                let index = search_keys(top.node.node.keys(), key, 0, es.len() as int).1;
                if index >= es.len() {
                    let moved = with_top_index(stack, (es.len() - 1) as nat);
                    lemma_top_index_linked(r, stack, (es.len() - 1) as nat);
                    assert(moved[0].node_id == stack[0].node_id) by {
                        if d > 0 {
                            assert(moved[0] == stack[0]);
                        }
                    }
                    lemma_advance_within(r, moved, height);
                }
            }
        },
    }
}

/// A cursor can be opened on a search tree of 63 levels at most with no
/// more leaves than may be stepped over.
pub proof fn lemma_open_within<R: NodeReader>(r: &R, root: NodeId, height: nat)
    requires
        ordered_tree(r, root, height, None, None),
        few_leaves(r, root, height),
        height <= 63,
    ensures
        open_at(r, root) is Ok,
        complete(r, open_at(r, root)->Ok_0),
        open_at(r, root)->Ok_0[0].node_id == root,
{
    let node = r.loaded(root)->Ok_0;
    let start = seq![enter(node, root, false)];
    crate::path::lemma_root_linked(r, root, false);
    assert(start.last() == start[0]);
    lemma_descend_ok(r, start, false, depth_left(start.len()), height, None, None);
    lemma_descend_complete(r, start, false, depth_left(start.len()));
    crate::path::lemma_descend_root(r, start, false, depth_left(start.len()));
    let below = descend(r, start, false)->Ok_0;
    if below.last().len() == 0 {
        lemma_advance_within(r, below, height);
    }
    crate::path::lemma_open_complete(r, root);
}

/// Looking a key up succeeds in a search tree of 63 levels at most with
/// no more leaves than may be stepped over.
pub proof fn lemma_lookup_within<R: NodeReader>(r: &R, root: NodeId, height: nat, key: Seq<u8>)
    requires
        ordered_tree(r, root, height, None, None),
        few_leaves(r, root, height),
        height <= 63,
    ensures
        locate(r, root, key) is Ok,
        lookup(r, root, key) is Ok,
{
    lemma_open_within(r, root, height);
    let start = open_at(r, root)->Ok_0;
    let first = start.take(1);
    assert(first[0] == start[0]);
    assert(linked(r, first));
    lemma_seek_from_within(r, first, key, 63, height);
}

/// A cursor on such a tree can look for any key.
pub proof fn lemma_seek_within<R: NodeReader>(r: &R, stack: Seq<Frame>, height: nat, key: Seq<u8>)
    requires
        linked(r, stack),
        ordered_tree(r, stack[0].node_id, height, None, None),
        few_leaves(r, stack[0].node_id, height),
        height <= 63,
    ensures
        seek_in(r, stack, key) is Ok,
{
    let first = stack.take(1);
    assert(first[0] == stack[0]);
    assert(linked(r, first));
    lemma_seek_from_within(r, first, key, 63, height);
}

/// Putting a value under a key, and taking a key out, succeeds in a sound
/// tree of 63 levels at most with no more leaves than may be stepped
/// over, for a key and a value that are short enough to be stored, where
/// numbers for 64 more staged nodes are left.
pub proof fn lemma_update_within(r: &Staged, st: TxModel, height: nat, change: Change)
    requires
        sound_tx(r, st, height),
        few_leaves(r, st.root, height),
        height <= 63,
        change.fits(),
        st.staging.next_node_id + 64 < u64::MAX,
    ensures
        update_result(r, st, change) is Ok,
{
    lemma_open_within(r, st.root, height);
    lemma_update_ok_opened(r, st, height, change);
}

/// A search tree that holds none of the staged nodes that differ has as
/// many leaves as before.
pub proof fn lemma_leaves_avoiding<R: NodeReader, R2: NodeReader>(
    r: &R,
    r2: &R2,
    ids: Set<u64>,
    id: NodeId,
    h: nat,
    lo: Option<Seq<u8>>,
    hi: Option<Seq<u8>>,
)
    requires
        same_but(r, r2, ids),
        avoids(r, id, h, ids),
        ordered_tree(r, id, h, lo, hi),
    ensures
        leaves(r2, id, h) == leaves(r, id, h),
    decreases h, 0nat, 0nat,
{
    lemma_same_node(r, r2, ids, id);
    if let NodeModel::Branch(es) = r.loaded(id)->Ok_0.node {
        lemma_leaves_after_avoiding(r, r2, ids, es, 0, (h - 1) as nat, lo, hi);
    }
}

/// The search trees under the entries of a branch that hold none of the
/// staged nodes that differ have as many leaves as before.
pub proof fn lemma_leaves_after_avoiding<R: NodeReader, R2: NodeReader>(
    r: &R,
    r2: &R2,
    ids: Set<u64>,
    es: Seq<BranchEntry>,
    from: int,
    h: nat,
    lo: Option<Seq<u8>>,
    hi: Option<Seq<u8>>,
)
    requires
        same_but(r, r2, ids),
        0 <= from,
        forall|j: int|
            from <= j < es.len() ==> avoids(r, (#[trigger] es[j]).node_id, h, ids) && ordered_tree(
                r,
                es[j].node_id,
                h,
                child_lo(es, j, lo),
                child_hi(es, j, hi),
            ),
    ensures
        leaves_after(r2, es, from, h) == leaves_after(r, es, from, h),
    decreases h, 1nat, es.len() - from,
{
    if from < es.len() {
        lemma_leaves_after_avoiding(r, r2, ids, es, from + 1, h, lo, hi);
        lemma_leaves_avoiding(
            r,
            r2,
            ids,
            es[from].node_id,
            h,
            child_lo(es, from, lo),
            child_hi(es, from, hi),
        );
    }
}

/// The trees under the entries of two branches have as many leaves
/// together where they have as many one by one.
pub proof fn lemma_leaves_after_same<R: NodeReader, R2: NodeReader>(
    r: &R,
    r2: &R2,
    es: Seq<BranchEntry>,
    es2: Seq<BranchEntry>,
    from: int,
    h: nat,
)
    requires
        0 <= from,
        es2.len() == es.len(),
        forall|j: int|
            from <= j < es.len() ==> leaves(r2, (#[trigger] es2[j]).node_id, h) == leaves(
                r,
                es[j].node_id,
                h,
            ),
    ensures
        leaves_after(r2, es2, from, h) == leaves_after(r, es, from, h),
    decreases es.len() - from,
{
    if from < es.len() {
        lemma_leaves_after_same(r, r2, es, es2, from + 1, h);
        assert(leaves(r2, es2[from].node_id, h) == leaves(r, es[from].node_id, h));
    }
}

/// The new node at every level of a path has as many leaves under it as
/// the node of the level had.
pub proof fn lemma_spine_leaves(
    r: &Staged,
    r2: &Staged,
    path: Seq<Frame>,
    height: nat,
    ids2: Seq<u64>,
    entries2: Seq<LeafEntry>,
    d: int,
)
    requires
        linked(r, path),
        path.last().node.node is Leaf,
        ordered_tree(r, path[0].node_id, height, None, None),
        unique_refs(r.staging@),
        r.staging@.fresh(),
        respined(r, r2, path, ids2, entries2),
        0 <= d < path.len(),
    ensures
        leaves(r2, NodeId::Id(ids2[d]), (height - d) as nat) == leaves(
            r,
            path[d].node_id,
            (height - d) as nat,
        ),
    decreases path.len() - d,
{
    let n = path.len() as int;
    lemma_path_bounds(r, path, height, d);
    assert(r.loaded(path[d].node_id) == Ok::<Loaded, Error>(path[d].node));
    if d == n - 1 {
        assert(path.last() == path[d]);
        assert(ids2.last() == ids2[d]);
    } else {
        let es = path[d].node.node->Branch_0;
        let at = path[d].index as int;
        let node2 = pointed_at(path[d].node.node, at, ids2[d + 1]);
        let es2 = node2->Branch_0;
        assert(r2.loaded(NodeId::Id(ids2[d])) == Ok::<Loaded, Error>(
            Loaded { header: None, node: node2 },
        ));
        let h = (height - d) as nat;
        let low = (height - d - 1) as nat;
        assert((h - 1) as nat == low);
        assert((height - (d + 1)) as nat == low);
        lemma_path_bounds(r, path, height, d + 1);
        lemma_spine_leaves(r, r2, path, height, ids2, entries2, d + 1);
        assert(es[at].node_id == path[d + 1].node_id);
        assert(es2[at].node_id == NodeId::Id(ids2[d + 1]));
        let ids = touched(path, r.staging@.next_node_id);
        assert forall|j: int| 0 <= j < es.len() implies leaves(r2, (#[trigger] es2[j]).node_id, low)
            == leaves(r, es[j].node_id, low) by {
            if j != at {
                assert(es2[j] == es[j]);
                lemma_sibling(r, r2, path, height, d, j);
                if es[j].node_id is Id && es[j].node_id == path[d + 1].node_id {
                    let x = path[d].node_id->Id_0;
                    lemma_levels(r, path, d + 1);
                    lemma_levels(r, path, d);
                    assert(is_entry(r.staging@, x, j));
                    assert(is_entry(r.staging@, x, at));
                    assert(ref_at(r.staging@, x, j) == ref_at(r.staging@, x, at));
                }
                let lo = child_lo(es, j, path_lo(path, d));
                let hi = child_hi(es, j, path_hi(path, d));
                lemma_off_path(r, path, height, es[j].node_id, d + 1, lo, hi);
                lemma_leaves_avoiding(r, r2, ids, es[j].node_id, low, lo, hi);
            }
        }
        lemma_leaves_after_same(r, r2, es, es2, 0, low);
    }
}

/// An update of a sound tree of 63 levels at most leaves a tree with as
/// many leaves, and gives out 64 numbers for staged nodes at most.
pub proof fn lemma_update_walk(
    r: &Staged,
    r2: &Staged,
    st: TxModel,
    st2: TxModel,
    height: nat,
    change: Change,
)
    requires
        sound_tx(r, st, height),
        height <= 63,
        r2.staging@ == st2.staging,
        r2.store@ == r.store@,
        update_result(r, st, change) == Ok::<TxModel, Error>(st2),
    ensures
        sound_tx(r2, st2, height),
        leaves(r2, st2.root, height) == leaves(r, st.root, height),
        st2.staging.next_node_id <= st.staging.next_node_id + 64,
{
    let key = change.key();
    lemma_update_correct(r, r2, st, st2, height, change);
    lemma_update_path(r, st, height, key);
    let path = locate_leaf(r, st.root, key)->Ok_0;
    if change is Delete && found_value(path, key) is None {
        assert(st2 == st);
        let none = Set::<u64>::empty();
        crate::update_law::lemma_same_but_intro(r, r2, none);
        crate::tx_law::lemma_avoids_none(r, st.root, height);
        lemma_leaves_avoiding(r, r2, none, st.root, height, None, None);
    } else {
        let ids2 = new_ids(path, st.staging.next_node_id);
        let entries2 = change.apply(path.last().node.node->Leaf_0, path.last().index as int);
        lemma_changed_facts(r, r2, st, st2, path, height, change);
        lemma_spine_leaves(r, r2, path, height, ids2, entries2, 0);
        lemma_path_bounds(r, path, height, path.len() - 1);
        lemma_update_numbers(r, st, st2, path, height, change);
    }
}

/// A change that is staged gives out one number for each level of the
/// path at most.
pub proof fn lemma_update_numbers(
    r: &Staged,
    st: TxModel,
    st2: TxModel,
    path: Seq<Frame>,
    height: nat,
    change: Change,
)
    requires
        sound_tx(r, st, height),
        crate::update_law::update_ready(r, st, path, height),
        crate::update::staged_change(st, plan_for(path), change) == Ok::<TxModel, Error>(st2),
    ensures
        st2.staging.next_node_id <= st.staging.next_node_id + path.len(),
{
    let plan = plan_for(path);
    lemma_staged_change_cases(st, plan, change, st2);
    lemma_cloned_levels(plan);
    if cloned_levels(plan) > 0 {
        lemma_copies_nodes(st, plan, change);
    }
}

/// After an update of a sound tree within the limits the tree is within
/// them again: it is sound and has no more leaves than may be stepped
/// over. So a put or a removal that follows succeeds as well.
pub proof fn lemma_update_stays_within(
    r: &Staged,
    r2: &Staged,
    st: TxModel,
    st2: TxModel,
    height: nat,
    change: Change,
)
    requires
        sound_tx(r, st, height),
        few_leaves(r, st.root, height),
        height <= 63,
        r2.staging@ == st2.staging,
        r2.store@ == r.store@,
        update_result(r, st, change) == Ok::<TxModel, Error>(st2),
    ensures
        sound_tx(r2, st2, height),
        few_leaves(r2, st2.root, height),
        st2.staging.next_node_id <= st.staging.next_node_id + 64,
{
    lemma_update_walk(r, r2, st, st2, height, change);
}

/// Putting a value under a key and then another under the same key
/// succeeds both times in a sound tree within the limits, and so does
/// putting the other alone.
pub proof fn lemma_put_twice_succeeds(
    r: &Staged,
    r1: &Staged,
    st: TxModel,
    height: nat,
    key: Seq<u8>,
    first: Seq<u8>,
    second: Seq<u8>,
)
    requires
        sound_tx(r, st, height),
        few_leaves(r, st.root, height),
        height <= 63,
        key.len() <= u16::MAX,
        first.len() <= u32::MAX,
        second.len() <= u32::MAX,
        st.staging.next_node_id + 128 < u64::MAX,
        update_result(r, st, Change::Put(key, first)) matches Ok(st1) ==> r1.staging@
            == st1.staging,
        r1.store@ == r.store@,
    ensures
        update_result(r, st, Change::Put(key, first)) is Ok,
        update_result(r, st, Change::Put(key, second)) is Ok,
        update_result(
            r1,
            update_result(r, st, Change::Put(key, first))->Ok_0,
            Change::Put(key, second),
        ) is Ok,
{
    lemma_update_within(r, st, height, Change::Put(key, first));
    lemma_update_within(r, st, height, Change::Put(key, second));
    let st1 = update_result(r, st, Change::Put(key, first))->Ok_0;
    lemma_update_stays_within(r, r1, st, st1, height, Change::Put(key, first));
    lemma_update_within(r1, st1, height, Change::Put(key, second));
}

/// Taking a key out twice succeeds both times in a sound tree within the
/// limits, and the second time leaves the transaction as it is.
pub proof fn lemma_remove_twice_succeeds(
    r: &Staged,
    r1: &Staged,
    st: TxModel,
    height: nat,
    key: Seq<u8>,
)
    requires
        sound_tx(r, st, height),
        few_leaves(r, st.root, height),
        height <= 63,
        st.staging.next_node_id + 128 < u64::MAX,
        update_result(r, st, Change::Delete(key)) matches Ok(st1) ==> r1.staging@ == st1.staging,
        r1.store@ == r.store@,
    ensures
        update_result(r, st, Change::Delete(key)) is Ok,
        update_result(r1, update_result(r, st, Change::Delete(key))->Ok_0, Change::Delete(key))
            == Ok::<TxModel, Error>(update_result(r, st, Change::Delete(key))->Ok_0),
{
    lemma_update_within(r, st, height, Change::Delete(key));
    let st1 = update_result(r, st, Change::Delete(key))->Ok_0;
    lemma_update_stays_within(r, r1, st, st1, height, Change::Delete(key));
    lemma_update_within(r1, st1, height, Change::Delete(key));
    let st2 = update_result(r1, st1, Change::Delete(key))->Ok_0;
    crate::tx_law::lemma_remove_twice(r, r1, st, st1, st2, height, key);
}

/// Taking out a key that a sound tree within the limits does not have
/// succeeds and changes nothing.
pub proof fn lemma_remove_absent_succeeds(r: &Staged, st: TxModel, height: nat, key: Seq<u8>)
    requires
        sound_tx(r, st, height),
        few_leaves(r, st.root, height),
        height <= 63,
        st.staging.next_node_id + 64 < u64::MAX,
        !crate::tree::in_tree(r, st.root, height, key),
    ensures
        update_result(r, st, Change::Delete(key)) == Ok::<TxModel, Error>(st),
{
    lemma_update_within(r, st, height, Change::Delete(key));
    crate::tx_law::lemma_remove_absent(r, st, height, key);
}

/// After a value was put under a key in a sound tree within the limits,
/// looking the key up gives the value; after a key was taken out, looking
/// it up gives nothing.
pub proof fn lemma_get_after_update_succeeds(
    r: &Staged,
    r2: &Staged,
    st: TxModel,
    st2: TxModel,
    height: nat,
    change: Change,
)
    requires
        sound_tx(r, st, height),
        few_leaves(r, st.root, height),
        height <= 63,
        r2.staging@ == st2.staging,
        r2.store@ == r.store@,
        update_result(r, st, change) == Ok::<TxModel, Error>(st2),
    ensures
        lookup(r2, st2.root, change.key()) == Ok::<Option<Seq<u8>>, Error>(
            crate::spine::put_value(change),
        ),
{
    lemma_update_stays_within(r, r2, st, st2, height, change);
    lemma_lookup_within(r2, st2.root, height, change.key());
    crate::tx_law::lemma_get_after_update(r, r2, st, st2, height, change);
}

/// A tree that is one leaf has no more leaves than may be stepped over.
pub proof fn lemma_leaf_is_few<R: NodeReader>(r: &R, root: NodeId, height: nat)
    requires
        r.loaded(root) matches Ok(n) && n.node is Leaf,
    ensures
        few_leaves(r, root, height),
{
}

} // verus!
