use crate::cursor::{
    advance, branch_slot, depth_left, descend, descend_from, enter, find_from, Frame, MAX_SKIPS,
    open_at, room, seek_from, seek_in, step_at, with_top_index,
};
use crate::error::Error;
use crate::node::{NodeId, NodeModel, search_keys};
use crate::path::{
    complete, lemma_branch_slot_bounds, lemma_descend_complete, lemma_descend_root,
    lemma_push_linked, lemma_search_bounds, lemma_step_linked, lemma_top_index_linked, linked,
};
use crate::reader::{Loaded, NodeReader};
use crate::staging::Staged;
use crate::tree::{child_hi, child_lo, ordered_tree};
use crate::tree_update::lemma_path_bounds;
use crate::tx::{found_value, locate, locate_leaf, lookup, TxModel};
use crate::tx_law::{lemma_update_path, sound_tx};
use crate::update::{
    Change, cloned_levels, leaf_fits, plan_of_frame, sound, staged_change, update_result,
};
use crate::update_law::{lemma_cloned_levels, lemma_levels, plan_for, update_ready};
use vstd::prelude::*;

verus! {

/// Whether every leaf of the tree of height `height` under `id` holds an
/// entry.
pub open spec fn full<R: NodeReader>(r: &R, id: NodeId, height: nat) -> bool
    decreases height,
{
    match r.loaded(id) {
        Err(_) => false,
        Ok(n) => match n.node {
            NodeModel::Leaf(es) => es.len() > 0,
            NodeModel::Branch(es) => height > 0 && forall|j: int|
                0 <= j < es.len() ==> full(r, (#[trigger] es[j]).node_id, (height - 1) as nat),
        },
    }
}

/// Whether no leaf of the tree of height `height` under `root` is without
/// entries, but for a root that is a leaf.
pub open spec fn leafy<R: NodeReader>(r: &R, root: NodeId, height: nat) -> bool {
    height == 0 || full(r, root, height)
}

/// Every leaf under every level of a path holds an entry where every leaf
/// of the tree does.
pub proof fn lemma_path_full<R: NodeReader>(r: &R, path: Seq<Frame>, height: nat, d: int)
    requires
        linked(r, path),
        ordered_tree(r, path[0].node_id, height, None, None),
        full(r, path[0].node_id, height),
        0 <= d < path.len(),
    ensures
        full(r, path[d].node_id, (height - d) as nat),
    decreases d,
{
    lemma_path_bounds(r, path, height, d);
    if d > 0 {
        let up = d - 1;
        lemma_path_full(r, path, height, up);
        assert(r.loaded(path[up].node_id) == Ok::<Loaded, Error>(path[up].node));
        let es = path[up].node.node->Branch_0;
        let j = path[up].index as int;
        assert(es[j].node_id == path[d].node_id);
        assert(((height - up) as nat - 1) as nat == (height - d) as nat);
        assert(full(r, es[j].node_id, ((height - up) as nat - 1) as nat));
    }
}

/// Going down from a path in a search tree ends at a leaf, where the
/// levels that may be added are as many as the tree below has; the leaf
/// holds an entry where every leaf below does.
pub proof fn lemma_descend_ok<R: NodeReader>(
    r: &R,
    stack: Seq<Frame>,
    last: bool,
    fuel: nat,
    h: nat,
    lo: Option<Seq<u8>>,
    hi: Option<Seq<u8>>,
)
    requires
        linked(r, stack),
        ordered_tree(r, stack.last().node_id, h, lo, hi),
        stack.last().node.node is Branch ==> stack.last().index < stack.last().len(),
        fuel >= h,
    ensures
        descend_from(r, stack, last, fuel) is Ok,
        full(r, stack.last().node_id, h) ==> descend_from(r, stack, last, fuel)->Ok_0.last().len()
            > 0,
    decreases h,
{
    let top = stack.last();
    assert(r.loaded(top.node_id) == Ok::<Loaded, Error>(top.node));
    if let NodeModel::Branch(es) = top.node.node {
        let j = top.index as int;
        let child = es[j].node_id;
        assert(ordered_tree(r, child, (h - 1) as nat, child_lo(es, j, lo), child_hi(es, j, hi)));
        let node = r.loaded(child)->Ok_0;
        let next = stack.push(enter(node, child, last));
        lemma_push_linked(r, stack, last);
        lemma_descend_ok(
            r,
            next,
            last,
            (fuel - 1) as nat,
            (h - 1) as nat,
            child_lo(es, j, lo),
            child_hi(es, j, hi),
        );
    }
}

/// The level at which a cursor moves on has a further entry.
pub proof fn lemma_room(stack: Seq<Frame>, i: int)
    requires
        -1 <= i < stack.len(),
    ensures
        room(stack, i, false) >= 0 ==> 0 <= room(stack, i, false) <= i && stack[room(
            stack,
            i,
            false,
        )].index + 1 < stack[room(stack, i, false)].len(),
        room(stack, i, false) >= -1,
    decreases i + 1,
{
    if i >= 0 && !(stack[i].index + 1 < stack[i].len()) {
        lemma_room(stack, i - 1);
    }
}

/// Moving to the next entry succeeds on a path of a search tree of 63
/// levels at most in which every leaf holds an entry, and on the path of
/// a tree that is one leaf.
pub proof fn lemma_advance_ok<R: NodeReader>(r: &R, stack: Seq<Frame>, height: nat, budget: nat)
    requires
        complete(r, stack),
        ordered_tree(r, stack[0].node_id, height, None, None),
        full(r, stack[0].node_id, height) || stack.len() == 1,
        height <= 63,
        budget > 0,
    ensures
        advance(r, stack, budget) is Ok,
{
    let n = stack.len() as int;
    lemma_room(stack, n - 1);
    let i = room(stack, n - 1, false);
    if i >= 0 {
        let next = step_at(stack, i, false);
        lemma_step_linked(r, stack, i, false);
        lemma_path_bounds(r, stack, height, i);
        assert(next.last().node_id == stack[i].node_id);
        assert(next.last().node == stack[i].node);
        assert(next.len() == i + 1);
        let h = (height - i) as nat;
        lemma_descend_ok(
            r,
            next,
            false,
            depth_left(next.len()),
            h,
            crate::tree_update::path_lo(stack, i),
            crate::tree_update::path_hi(stack, i),
        );
        if i == n - 1 {
            assert(stack[i] == stack.last());
        } else {
            lemma_path_full(r, stack, height, i);
        }
    }
}

/// Looking for a key from a path in a search tree of 63 levels at most,
/// in which no leaf but a root is without entries, succeeds.
pub proof fn lemma_seek_from_ok<R: NodeReader>(
    r: &R,
    stack: Seq<Frame>,
    key: Seq<u8>,
    fuel: nat,
    height: nat,
)
    requires
        linked(r, stack),
        ordered_tree(r, stack[0].node_id, height, None, None),
        leafy(r, stack[0].node_id, height),
        height <= 63,
        fuel + stack.len() >= height + 1,
    ensures
        seek_from(r, stack, key, fuel) is Ok,
    decreases fuel,
{
    let d = stack.len() - 1;
    let top = stack.last();
    lemma_path_bounds(r, stack, height, d);
    assert(r.loaded(top.node_id) == Ok::<Loaded, Error>(top.node));
    match top.node.node {
        NodeModel::Branch(es) => {
            let keys = top.node.node.keys();
            lemma_branch_slot_bounds(keys, key);
            let slot = branch_slot(keys, key);
            let child = es[slot].node_id;
            let lo = crate::tree_update::path_lo(stack, d);
            let hi = crate::tree_update::path_hi(stack, d);
            assert(ordered_tree(
                r,
                child,
                ((height - d) as nat - 1) as nat,
                child_lo(es, slot, lo),
                child_hi(es, slot, hi),
            ));
            let moved = with_top_index(stack, slot as nat);
            lemma_top_index_linked(r, stack, slot as nat);
            lemma_push_linked(r, moved, false);
            let next = moved.push(enter(r.loaded(child)->Ok_0, child, false));
            assert(next[0].node_id == stack[0].node_id) by {
                if d > 0 {
                    assert(moved[0] == stack[0]);
                }
            }
            lemma_seek_from_ok(r, next, key, (fuel - 1) as nat, height);
        },
        NodeModel::Leaf(es) => {
            if height > 0 {
                lemma_path_full(r, stack, height, d);
            }
            if es.len() == 0 {
                lemma_advance_ok(r, stack, height, MAX_SKIPS as nat);
            } else {
                let index = search_keys(top.node.node.keys(), key, 0, es.len() as int).1;
                if index >= es.len() {
                    let moved = with_top_index(stack, (es.len() - 1) as nat);
                    lemma_top_index_linked(r, stack, (es.len() - 1) as nat);
                    assert(moved[0].node_id == stack[0].node_id) by {
                        if d > 0 {
                            assert(moved[0] == stack[0]);
                        }
                    }
                    lemma_advance_ok(r, moved, height, MAX_SKIPS as nat);
                }
            }
        },
    }
}

/// Going to the leaf in which a key belongs from a path in a search tree
/// of 63 levels at most succeeds.
pub proof fn lemma_find_from_ok<R: NodeReader>(
    r: &R,
    stack: Seq<Frame>,
    key: Seq<u8>,
    fuel: nat,
    height: nat,
)
    requires
        linked(r, stack),
        ordered_tree(r, stack[0].node_id, height, None, None),
        fuel + stack.len() >= height + 1,
    ensures
        find_from(r, stack, key, fuel) is Ok,
    decreases fuel,
{
    let d = stack.len() - 1;
    let top = stack.last();
    lemma_path_bounds(r, stack, height, d);
    assert(r.loaded(top.node_id) == Ok::<Loaded, Error>(top.node));
    if let NodeModel::Branch(es) = top.node.node {
        let keys = top.node.node.keys();
        lemma_branch_slot_bounds(keys, key);
        let slot = branch_slot(keys, key);
        let child = es[slot].node_id;
        let lo = crate::tree_update::path_lo(stack, d);
        let hi = crate::tree_update::path_hi(stack, d);
        assert(ordered_tree(
            r,
            child,
            ((height - d) as nat - 1) as nat,
            child_lo(es, slot, lo),
            child_hi(es, slot, hi),
        ));
        let moved = with_top_index(stack, slot as nat);
        lemma_top_index_linked(r, stack, slot as nat);
        lemma_push_linked(r, moved, false);
        let next = moved.push(enter(r.loaded(child)->Ok_0, child, false));
        assert(next[0].node_id == stack[0].node_id) by {
            if d > 0 {
                assert(moved[0] == stack[0]);
            }
        }
        lemma_find_from_ok(r, next, key, (fuel - 1) as nat, height);
    }
}

/// A cursor can be opened on a search tree of 63 levels at most in which
/// no leaf but a root is without entries.
pub proof fn lemma_open_ok<R: NodeReader>(r: &R, root: NodeId, height: nat)
    requires
        ordered_tree(r, root, height, None, None),
        leafy(r, root, height),
        height <= 63,
    ensures
        open_at(r, root) is Ok,
        complete(r, open_at(r, root)->Ok_0),
        open_at(r, root)->Ok_0[0].node_id == root,
{
    let node = r.loaded(root)->Ok_0;
    let start = seq![enter(node, root, false)];
    crate::path::lemma_root_linked(r, root, false);
    assert(start.last() == start[0]);
    lemma_descend_ok(r, start, false, depth_left(start.len()), height, None, None);
    lemma_descend_complete(r, start, false, depth_left(start.len()));
    lemma_descend_root(r, start, false, depth_left(start.len()));
    let below = descend(r, start, false)->Ok_0;
    if below.last().len() == 0 {
        assert(height == 0);
        assert(below == start);
        lemma_advance_ok(r, below, height, MAX_SKIPS as nat);
    }
    crate::path::lemma_open_complete(r, root);
}

/// Looking a key up succeeds in a search tree of 63 levels at most in
/// which no leaf but a root is without entries.
pub proof fn lemma_lookup_ok<R: NodeReader>(r: &R, root: NodeId, height: nat, key: Seq<u8>)
    requires
        ordered_tree(r, root, height, None, None),
        leafy(r, root, height),
        height <= 63,
    ensures
        locate(r, root, key) is Ok,
        lookup(r, root, key) is Ok,
{
    lemma_open_ok(r, root, height);
    let start = open_at(r, root)->Ok_0;
    let first = start.take(1);
    assert(first[0] == start[0]);
    assert(linked(r, first));
    lemma_seek_from_ok(r, first, key, 63, height);
}

/// The levels at the end of the path of an update that were read from
/// the file can take the change.
pub proof fn lemma_plan_sound(r: &Staged, path: Seq<Frame>, change: Change)
    requires
        complete(r, path),
        path.last().index == search_keys(
            path.last().node.node.keys(),
            change.key(),
            0,
            path.last().len() as int,
        ).1,
        change is Delete ==> found_value(path, change.key()) is Some,
    ensures
        leaf_fits(path.last().node.node, path.last().index, change),
        sound(plan_for(path), cloned_levels(plan_for(path)), change),
{
    let plan = plan_for(path);
    let n = path.len() as int;
    let cloned = cloned_levels(plan);
    lemma_cloned_levels(plan);
    lemma_search_bounds(path.last().node.node.keys(), change.key(), 0, path.last().len() as int);
    assert(plan[n - 1] == plan_of_frame(path[n - 1]));
    assert(path.last() == path[n - 1]);
    assert forall|i: int| plan.len() - cloned <= i < plan.len() - 1 implies {
        &&& (#[trigger] plan[i]).loaded->Some_0.1 is Branch
        &&& plan[i].index < plan[i].loaded->Some_0.1.len()
    } by {
        assert(plan[i] == plan_of_frame(path[i]));
        assert(plan[i].loaded is Some);
        assert(path[i].node.node is Branch);
    }
}

/// A change can be staged at the end of the path of an update of a sound
/// tree, where numbers for the copies are left.
pub proof fn lemma_staged_change_ok(
    r: &Staged,
    st: TxModel,
    path: Seq<Frame>,
    height: nat,
    change: Change,
)
    requires
        sound_tx(r, st, height),
        update_ready(r, st, path, height),
        path.last().index == search_keys(
            path.last().node.node.keys(),
            change.key(),
            0,
            path.last().len() as int,
        ).1,
        change is Delete ==> found_value(path, change.key()) is Some,
        st.staging.next_node_id + path.len() < u64::MAX,
    ensures
        staged_change(st, plan_for(path), change) is Ok,
{
    reveal(staged_change);
    let plan = plan_for(path);
    let n = path.len() as int;
    let cloned = cloned_levels(plan);
    lemma_cloned_levels(plan);
    lemma_plan_sound(r, path, change);
    assert(plan[n - 1] == plan_of_frame(path[n - 1]));
    assert(path.last() == path[n - 1]);
    lemma_levels(r, path, n - 1);
    if cloned < n {
        let q = n - 1 - cloned;
        assert(plan[q] == plan_of_frame(path[q]));
        lemma_levels(r, path, q);
        assert(path[0].node_id is Id);
        assert(path[q].node_id is Id);
        if cloned > 0 {
            assert(path[q].node.node is Branch);
        }
    }
}

/// Putting a value under a key, and taking a key out, succeeds in a sound
/// tree of 63 levels at most on which a cursor can be opened, for a key
/// and a value that are short enough to be stored, where numbers for 64
/// more staged nodes are left.
pub proof fn lemma_update_ok_opened(r: &Staged, st: TxModel, height: nat, change: Change)
    requires
        sound_tx(r, st, height),
        open_at(r, st.root) is Ok,
        height <= 63,
        change.fits(),
        st.staging.next_node_id + 64 < u64::MAX,
    ensures
        update_result(r, st, change) is Ok,
{
    let key = change.key();
    crate::path::lemma_open_complete(r, st.root);
    let start = open_at(r, st.root)->Ok_0;
    let first = start.take(1);
    assert(first[0] == start[0]);
    assert(linked(r, first));
    lemma_find_from_ok(r, first, key, 63, height);
    lemma_update_path(r, st, height, key);
    let path = locate_leaf(r, st.root, key)->Ok_0;
    if change is Delete && found_value(path, key) is None {
    } else {
        lemma_path_bounds(r, path, height, path.len() - 1);
        lemma_staged_change_ok(r, st, path, height, change);
    }
}

/// Putting a value under a key, and taking a key out, succeeds in a sound
/// tree of 63 levels at most in which no leaf but a root is without
/// entries, for a key and a value that are short enough to be stored,
/// where numbers for 64 more staged nodes are left.
pub proof fn lemma_update_ok(r: &Staged, st: TxModel, height: nat, change: Change)
    requires
        sound_tx(r, st, height),
        leafy(r, st.root, height),
        height <= 63,
        change.fits(),
        st.staging.next_node_id + 64 < u64::MAX,
    ensures
        update_result(r, st, change) is Ok,
{
    lemma_open_ok(r, st.root, height);
    lemma_update_ok_opened(r, st, height, change);
}

/// A cursor on a search tree of 63 levels at most, in which no leaf but
/// a root is without entries, can look for any key.
pub proof fn lemma_seek_ok<R: NodeReader>(r: &R, stack: Seq<Frame>, height: nat, key: Seq<u8>)
    requires
        linked(r, stack),
        ordered_tree(r, stack[0].node_id, height, None, None),
        leafy(r, stack[0].node_id, height),
        height <= 63,
    ensures
        seek_in(r, stack, key) is Ok,
{
    let first = stack.take(1);
    assert(first[0] == stack[0]);
    assert(linked(r, first));
    lemma_seek_from_ok(r, first, key, 63, height);
}

/// A cursor on a path from the root to a leaf of such a tree can move to
/// the next entry.
pub proof fn lemma_next_ok<R: NodeReader>(r: &R, stack: Seq<Frame>, height: nat)
    requires
        complete(r, stack),
        ordered_tree(r, stack[0].node_id, height, None, None),
        leafy(r, stack[0].node_id, height),
        height <= 63,
    ensures
        advance(r, stack, MAX_SKIPS as nat) is Ok,
{
    lemma_path_bounds(r, stack, height, stack.len() - 1);
    if height == 0 {
        assert(stack.len() == 1);
    }
    lemma_advance_ok(r, stack, height, MAX_SKIPS as nat);
}

} // verus!
