use crate::cursor::{
    advance, branch_slot, depth_left, descend, descend_from, enter, Frame, lemma_descend_ends,
    lemma_room_found, MAX_SKIPS, room, seek_from, step_at, with_top_index,
};
use crate::error::Error;
use crate::key::{
    key_le, key_lt, lemma_key_lt_le_transitive, lemma_key_lt_transitive, lemma_key_order_equal,
};
use crate::node::{NodeId, NodeModel, search_keys};
use crate::node_laws::lemma_search_lower_bound;
use crate::path::{
    complete, lemma_branch_slot_bounds, lemma_descend_complete, lemma_descend_root,
    lemma_open_complete, lemma_push_linked, lemma_step_linked, lemma_top_index_linked, linked,
};
use crate::reader::NodeReader;
use crate::tree::{
    branch_keys, in_tree, leaf_keys, left_at, left_from, left_in_leaf, left_of,
    lemma_child_in_tree, lemma_climb, lemma_cover, lemma_end_in_tree, lemma_entry_in_tree,
    lemma_leaf_sorted, lemma_left_before, lemma_level_bounds, lemma_path_on_tree,
    lemma_right_after, ordered_tree, right_at, right_from, right_in_leaf, right_of,
};
use crate::tx::{found_value, locate, lookup};
use vstd::prelude::*;

verus! {

/// Whether `path` stands at an entry.
pub open spec fn has_current(path: Seq<Frame>) -> bool {
    path.len() > 0 && path.last().index < path.last().len()
}

/// The key of the entry at which `path` stands.
pub open spec fn current(path: Seq<Frame>) -> Seq<u8> {
    path.last().node.node->Leaf_0[path.last().index as int].key
}

/// Below the level that `room` finds no level has room.
pub proof fn lemma_room_deeper(stack: Seq<Frame>, top: int, back: bool)
    requires
        top < stack.len(),
    ensures
        forall|d: int|
            room(stack, top, back) < d <= top && 0 <= d ==> !((back && (#[trigger] stack[d]).index
                > 0) || (!back && stack[d].index + 1 < stack[d].len())),
    decreases top + 1,
{
    if 0 <= top {
        if !((back && stack[top].index > 0) || (!back && stack[top].index + 1 < stack[top].len())) {
            lemma_room_deeper(stack, top - 1, back);
        }
    }
}

/// The levels that going down through first children adds stand at their
/// first entry.
pub proof fn lemma_descend_first<R: NodeReader>(r: &R, stack: Seq<Frame>, fuel: nat)
    ensures
        descend_from(r, stack, false, fuel) matches Ok(below) ==> forall|d: int|
            stack.len() <= d < below.len() ==> (#[trigger] below[d]).index == 0,
    decreases fuel,
{
    if stack.len() > 0 {
        let top = stack.last();
        match top.node.node {
            NodeModel::Leaf(_) => {},
            NodeModel::Branch(es) => {
                if !(top.index >= es.len() || fuel == 0) {
                    let child = es[top.index as int].node_id;
                    match r.loaded(child) {
                        Err(_) => {},
                        Ok(node) => {
                            let next = stack.push(enter(node, child, false));
                            lemma_descend_first(r, next, (fuel - 1) as nat);
                            lemma_descend_ends(r, next, false, (fuel - 1) as nat);
                            match descend_from(r, next, false, (fuel - 1) as nat) {
                                Ok(below) => {
                                    assert(below.take(next.len() as int)[stack.len() as int]
                                        == below[stack.len() as int]);
                                },
                                Err(_) => {},
                            }
                        },
                    }
                }
            },
        }
    }
}

/// Moving the deepest level that has a further entry on by one and going
/// down from there through first children passes the entry at which the
/// path stood, and nothing else: the keys before the new place are the
/// keys before the old place and the key at the old place.
pub proof fn lemma_step_left<R: NodeReader>(
    r: &R,
    path: Seq<Frame>,
    height: nat,
    below: Seq<Frame>,
    k: Seq<u8>,
)
    requires
        complete(r, path),
        path.len() <= height + 1,
        room(path, path.len() - 1, false) >= 0,
        descend(r, step_at(path, room(path, path.len() - 1, false), false), false) == Ok::<
            Seq<Frame>,
            Error,
        >(below),
        complete(r, below),
        below.len() <= height + 1,
    ensures
        left_of(r, below, height, k) <==> (left_of(r, path, height, k) || (has_current(path) && k
            == current(path))),
{
    let n = path.len() as int;
    let i = room(path, n - 1, false);
    lemma_room_found(path, n - 1, false);
    lemma_room_deeper(path, n - 1, false);
    let stepped = step_at(path, i, false);
    lemma_descend_ends(r, stepped, false, depth_left(stepped.len()));
    lemma_descend_first(r, stepped, depth_left(stepped.len()));
    assert(stepped.len() == i + 1);
    assert forall|d: int| 0 <= d < i implies below[d] == path[d] by {
        assert(below.take(i + 1)[d] == below[d]);
        assert(stepped[d] == path[d]);
    }
    assert(below[i] == path[i].at(path[i].index + 1)) by {
        assert(below.take(i + 1)[i] == below[i]);
    }
    let m = below.len() as int;
    if i == n - 1 {
        // The leaf itself has a further entry.
        assert(stepped.last().node.node is Leaf);
        assert(below == stepped);
        assert(m == n);
        let leaf = path.last().node.node->Leaf_0;
        let at = path.last().index as int;
        assert forall|d: int| 0 <= d < n - 1 implies left_at(r, below, height, d, k) == left_at(
            r,
            path,
            height,
            d,
            k,
        ) by {}
        if left_in_leaf(below, k) {
            let j = choose|j: int|
                0 <= j < below.last().index && j < below.last().len() && (#[trigger] leaf[j]).key
                    == k;
            if j < at {
                assert(left_in_leaf(path, k));
            }
        }
        if left_in_leaf(path, k) {
            let j = choose|j: int|
                0 <= j < path.last().index && j < path.last().len() && (#[trigger] leaf[j]).key == k;
            assert(left_in_leaf(below, k));
        }
        if has_current(path) && k == current(path) {
            assert(leaf[at].key == k);
            assert(left_in_leaf(below, k));
        }
        if left_of(r, below, height, k) && !left_in_leaf(below, k) {
            let d = choose|d: int|
                0 <= d < below.len() - 1 && #[trigger] left_at(r, below, height, d, k);
            assert(left_at(r, path, height, d, k));
        }
        if left_of(r, path, height, k) && !left_in_leaf(path, k) {
            let d = choose|d: int| 0 <= d < path.len() - 1 && #[trigger] left_at(r, path, height, d, k);
            assert(left_at(r, below, height, d, k));
        }
    } else {
        // A branch at level i has a further entry.
        assert(path[i].node.node is Branch);
        assert(below[i].node.node is Branch);
        assert(i < m - 1);
        let es = path[i].node.node->Branch_0;
        let at = path[i].index as int;
        assert(es[at].node_id == path[i + 1].node_id);
        assert((height - (i + 1)) as nat == (height - i - 1) as nat);
        // Forwards.
        if left_of(r, below, height, k) {
            assert(!left_in_leaf(below, k)) by {
                assert(below[m - 1].index == 0);
            }
            let d = choose|d: int|
                0 <= d < below.len() - 1 && #[trigger] left_at(r, below, height, d, k);
            if d < i {
                assert(left_at(r, path, height, d, k));
            } else if d == i {
                let j = choose|j: int|
                    0 <= j < below[i].index && j < below[i].len() && in_tree(
                        r,
                        (#[trigger] es[j]).node_id,
                        (height - i - 1) as nat,
                        k,
                    );
                if j < at {
                    assert(left_at(r, path, height, i, k));
                } else {
                    assert(j == at);
                    lemma_cover(r, path, height, i + 1, k);
                    if left_from(r, path, height, i + 1, k) {
                        if !left_in_leaf(path, k) {
                            let e = choose|e: int|
                                i + 1 <= e < path.len() - 1 && #[trigger] left_at(
                                    r,
                                    path,
                                    height,
                                    e,
                                    k,
                                );
                            assert(0 <= e);
                        }
                    } else {
                        assert(right_from(r, path, height, i + 1, k));
                        if !right_in_leaf(path, k) {
                            let e = choose|e: int|
                                i + 1 <= e < path.len() - 1 && #[trigger] right_at(
                                    r,
                                    path,
                                    height,
                                    e,
                                    k,
                                );
                            let esd = path[e].node.node->Branch_0;
                            let j2 = choose|j2: int|
                                path[e].index < j2 < path[e].len() && in_tree(
                                    r,
                                    (#[trigger] esd[j2]).node_id,
                                    (height - e - 1) as nat,
                                    k,
                                );
                            assert(false);
                        }
                        let leaf = path.last().node.node->Leaf_0;
                        let j3 = choose|j3: int|
                            path.last().index <= j3 < path.last().len() && (
                            #[trigger] leaf[j3]).key == k;
                        assert(path.last() == path[n - 1]);
                        assert(j3 == path.last().index);
                    }
                }
            } else {
                assert(below[d].index == 0);
                assert(false);
            }
        }
        // Backwards.
        if left_of(r, path, height, k) || (has_current(path) && k == current(path)) {
            let under_child: bool = if has_current(path) && k == current(path) {
                lemma_entry_in_tree(r, path, height, path.last().index as int);
                lemma_climb(r, path, height, i + 1, n - 1, k);
                true
            } else if left_in_leaf(path, k) {
                let leaf = path.last().node.node->Leaf_0;
                let j = choose|j: int|
                    0 <= j < path.last().index && j < path.last().len() && (#[trigger] leaf[j]).key
                        == k;
                lemma_entry_in_tree(r, path, height, j);
                lemma_climb(r, path, height, i + 1, n - 1, k);
                true
            } else {
                let d = choose|d: int|
                    0 <= d < path.len() - 1 && #[trigger] left_at(r, path, height, d, k);
                if d < i {
                    assert(left_at(r, below, height, d, k));
                    false
                } else if d == i {
                    let j = choose|j: int|
                        0 <= j < path[i].index && j < path[i].len() && in_tree(
                            r,
                            (#[trigger] es[j]).node_id,
                            (height - i - 1) as nat,
                            k,
                        );
                    assert(0 <= j < below[i].index);
                    assert(left_at(r, below, height, i, k));
                    false
                } else {
                    let esd = path[d].node.node->Branch_0;
                    let j = choose|j: int|
                        0 <= j < path[d].index && j < path[d].len() && in_tree(
                            r,
                            (#[trigger] esd[j]).node_id,
                            (height - d - 1) as nat,
                            k,
                        );
                    lemma_child_in_tree(r, path, height, d, j, k);
                    lemma_climb(r, path, height, i + 1, d, k);
                    true
                }
            };
            if under_child {
                assert(in_tree(r, es[at].node_id, (height - i - 1) as nat, k));
                assert(0 <= at < below[i].index && at < below[i].len());
                assert(left_at(r, below, height, i, k));
            }
            assert(left_of(r, below, height, k));
        }
    }
}

/// Whether no level of `path` has a further entry.
pub open spec fn at_end(path: Seq<Frame>) -> bool {
    forall|d: int| 0 <= d < path.len() ==> (#[trigger] path[d]).index + 1 >= path[d].len()
}

/// Where no level of a path has a further entry and the path stands past
/// the last entry of its leaf, no key stands at its place or after it.
pub proof fn lemma_no_right<R: NodeReader>(r: &R, path: Seq<Frame>, height: nat, k: Seq<u8>)
    requires
        path.len() > 0,
        at_end(path),
        !has_current(path),
    ensures
        !right_of(r, path, height, k),
{
    if right_of(r, path, height, k) {
        if right_in_leaf(path, k) {
            assert(path.last() == path[path.len() - 1]);
        } else {
            let d = choose|d: int|
                0 <= d < path.len() - 1 && #[trigger] right_at(r, path, height, d, k);
            let es = path[d].node.node->Branch_0;
            let j = choose|j: int|
                path[d].index < j < path[d].len() && in_tree(
                    r,
                    (#[trigger] es[j]).node_id,
                    (height - d - 1) as nat,
                    k,
                );
            assert(false);
        }
    }
}

/// A cursor that stands in the last leaf and moves past its last entry
/// passes the entry at which it stood, and nothing else.
pub proof fn lemma_past_end_left<R: NodeReader>(r: &R, path: Seq<Frame>, height: nat, k: Seq<u8>)
    requires
        complete(r, path),
        room(path, path.len() - 1, false) < 0,
    ensures
        ({
            let next = with_top_index(path, path.last().len());
            &&& complete(r, next)
            &&& next[0].node_id == path[0].node_id
            &&& left_of(r, next, height, k) <==> (left_of(r, path, height, k) || (has_current(path)
                && k == current(path)))
            &&& at_end(next)
        }),
{
    let n = path.len() as int;
    lemma_room_deeper(path, n - 1, false);
    let next = with_top_index(path, path.last().len());
    lemma_top_index_linked(r, path, path.last().len());
    assert forall|d: int| 0 <= d < n - 1 implies next[d] == path[d] by {}
    assert forall|d: int| 0 <= d < next.len() implies (#[trigger] next[d]).index + 1
        >= next[d].len() by {
        if d < n - 1 {
            assert(next[d] == path[d]);
        }
    }
    let leaf = path.last().node.node->Leaf_0;
    let at = path.last().index as int;
    assert(path.last() == path[n - 1]);
    if left_of(r, next, height, k) {
        if left_in_leaf(next, k) {
            let j = choose|j: int|
                0 <= j < next.last().index && j < next.last().len() && (#[trigger] leaf[j]).key == k;
            if j < at {
                assert(left_in_leaf(path, k));
            } else {
                assert(j == at);
            }
        } else {
            let d = choose|d: int|
                0 <= d < next.len() - 1 && #[trigger] left_at(r, next, height, d, k);
            assert(next[d] == path[d]);
            assert(left_at(r, path, height, d, k));
        }
    }
    if left_of(r, path, height, k) {
        if left_in_leaf(path, k) {
            let j = choose|j: int|
                0 <= j < path.last().index && j < path.last().len() && (#[trigger] leaf[j]).key == k;
            assert(left_in_leaf(next, k));
        } else {
            let d = choose|d: int|
                0 <= d < path.len() - 1 && #[trigger] left_at(r, path, height, d, k);
            assert(next[d] == path[d]);
            assert(left_at(r, next, height, d, k));
        }
    }
    if has_current(path) && k == current(path) {
        assert(leaf[at].key == k);
        assert(left_in_leaf(next, k));
    }
}

/// Moving a cursor to the next entry passes the entry at which it stood,
/// and nothing else: the keys before the new place are the keys before
/// the old place and the key at the old place. Where the cursor is not
/// valid afterwards, it stands past the last key of the tree.
pub proof fn lemma_advance_left<R: NodeReader>(r: &R, path: Seq<Frame>, height: nat, budget: nat, k: Seq<u8>)
    requires
        complete(r, path),
        ordered_tree(r, path[0].node_id, height, None, None),
    ensures
        advance(r, path, budget) matches Ok(next) ==> {
            &&& complete(r, next)
            &&& next[0].node_id == path[0].node_id
            &&& left_of(r, next, height, k) <==> (left_of(r, path, height, k) || (has_current(path)
                && k == current(path)))
            &&& !has_current(next) ==> at_end(next)
        },
    decreases budget,
{
    let n = path.len() as int;
    let i = room(path, n - 1, false);
    lemma_path_on_tree(r, path, height, n - 1);
    if i < 0 {
        lemma_past_end_left(r, path, height, k);
    } else if budget > 0 {
        lemma_room_found(path, n - 1, false);
        lemma_step_linked(r, path, i, false);
        let stepped = step_at(path, i, false);
        lemma_descend_complete(r, stepped, false, depth_left(stepped.len()));
        lemma_descend_root(r, stepped, false, depth_left(stepped.len()));
        match descend(r, stepped, false) {
            Err(_) => {},
            Ok(below) => {
                assert(below[0].node_id == path[0].node_id);
                lemma_path_on_tree(r, below, height, below.len() - 1);
                lemma_step_left(r, path, height, below, k);
                if below.last().len() == 0 {
                    lemma_advance_left(r, below, height, (budget - 1) as nat, k);
                    assert(!has_current(below));
                } else {
                    lemma_descend_first(r, stepped, depth_left(stepped.len()));
                    lemma_descend_ends(r, stepped, false, depth_left(stepped.len()));
                    assert(has_current(below)) by {
                        if below.len() > stepped.len() {
                            assert(below[below.len() - 1].index == 0);
                        } else {
                            assert(below.take(stepped.len() as int) =~= below);
                        }
                    }
                }
            },
        }
    }
}

/// Whether the entries that `stack` goes through above its last level
/// part the keys under them: those under entries before are before
/// `key`, those under entries after are after it.
pub open spec fn parted<R: NodeReader>(r: &R, stack: Seq<Frame>, height: nat, key: Seq<u8>) -> bool {
    &&& forall|d: int, k: Seq<u8>|
        0 <= d < stack.len() - 1 && #[trigger] left_at(r, stack, height, d, k) ==> key_lt(k, key)
    &&& forall|d: int, k: Seq<u8>|
        0 <= d < stack.len() - 1 && #[trigger] right_at(r, stack, height, d, k) ==> key_lt(key, k)
}

/// A key under an entry before the entry that a search goes down through
/// at a branch of a search tree is before the key looked for.
pub proof fn lemma_branch_left<R: NodeReader>(
    r: &R,
    path: Seq<Frame>,
    height: nat,
    t: int,
    key: Seq<u8>,
    k: Seq<u8>,
)
    requires
        linked(r, path),
        ordered_tree(r, path[0].node_id, height, None, None),
        0 <= t < path.len() - 1,
        path[t].index == branch_slot(branch_keys(path[t].node.node->Branch_0), key),
        left_at(r, path, height, t, k),
    ensures
        key_lt(k, key),
{
    let es = path[t].node.node->Branch_0;
    let keys = branch_keys(es);
    let slot = path[t].index as int;
    let j = choose|j: int|
        0 <= j < path[t].index && j < path[t].len() && in_tree(
            r,
            (#[trigger] es[j]).node_id,
            (height - t - 1) as nat,
            k,
        );
    lemma_level_bounds(r, path, height, t, j, k);
    lemma_search_lower_bound(keys, key, 0, es.len() as int);
    let (found, index) = search_keys(keys, key, 0, es.len() as int);
    assert(keys[j + 1] == es[j + 1].key);
    assert(keys[slot] == es[slot].key);
    if j + 1 < slot {
        assert(key_lt(keys[j + 1], keys[slot]));
        lemma_key_lt_transitive(k, keys[j + 1], keys[slot]);
    }
    assert(key_lt(k, keys[slot]));
    if !found {
        assert(slot == index - 1);
        assert(key_lt(keys[slot], key));
        lemma_key_lt_transitive(k, keys[slot], key);
    }
}

/// A key under an entry after the entry that a search goes down through
/// at a branch of a search tree is after the key looked for.
pub proof fn lemma_branch_right<R: NodeReader>(
    r: &R,
    path: Seq<Frame>,
    height: nat,
    t: int,
    key: Seq<u8>,
    k: Seq<u8>,
)
    requires
        linked(r, path),
        ordered_tree(r, path[0].node_id, height, None, None),
        0 <= t < path.len() - 1,
        path[t].index == branch_slot(branch_keys(path[t].node.node->Branch_0), key),
        right_at(r, path, height, t, k),
    ensures
        key_lt(key, k),
{
    let es = path[t].node.node->Branch_0;
    let keys = branch_keys(es);
    let slot = path[t].index as int;
    let j = choose|j: int|
        path[t].index < j < path[t].len() && in_tree(
            r,
            (#[trigger] es[j]).node_id,
            (height - t - 1) as nat,
            k,
        );
    lemma_level_bounds(r, path, height, t, j, k);
    lemma_search_lower_bound(keys, key, 0, es.len() as int);
    let (found, index) = search_keys(keys, key, 0, es.len() as int);
    assert(keys[j] == es[j].key);
    assert(keys[slot] == es[slot].key);
    if found {
        assert(key_lt(keys[slot], keys[j]));
    } else {
        assert(index <= j);
        assert(key_lt(key, keys[j]));
    }
    lemma_key_lt_le_transitive(key, keys[j], k);
}

/// A key under an entry before one that `next` goes through is before
/// the key looked for, where `next` is `stack` gone down through the entry
/// that the search picks.
pub proof fn lemma_parted_left_one<R: NodeReader>(
    r: &R,
    stack: Seq<Frame>,
    next: Seq<Frame>,
    height: nat,
    key: Seq<u8>,
    d: int,
    k: Seq<u8>,
)
    requires
        linked(r, next),
        ordered_tree(r, next[0].node_id, height, None, None),
        parted(r, stack, height, key),
        next.len() == stack.len() + 1,
        stack.len() > 0,
        0 <= d < next.len() - 1,
        d < stack.len() - 1 ==> next[d] == stack[d],
        next[stack.len() - 1].index == branch_slot(
            branch_keys(next[stack.len() - 1].node.node->Branch_0),
            key,
        ),
        left_at(r, next, height, d, k),
    ensures
        key_lt(k, key),
{
    let t = stack.len() - 1;
    if d < t {
        assert(left_at(r, stack, height, d, k));
    } else {
        lemma_branch_left(r, next, height, t, key, k);
    }
}

/// A key under an entry after one that `next` goes through is after the
/// key looked for, where `next` is `stack` gone down through the entry
/// that the search picks.
pub proof fn lemma_parted_right_one<R: NodeReader>(
    r: &R,
    stack: Seq<Frame>,
    next: Seq<Frame>,
    height: nat,
    key: Seq<u8>,
    d: int,
    k: Seq<u8>,
)
    requires
        linked(r, next),
        ordered_tree(r, next[0].node_id, height, None, None),
        parted(r, stack, height, key),
        next.len() == stack.len() + 1,
        stack.len() > 0,
        0 <= d < next.len() - 1,
        d < stack.len() - 1 ==> next[d] == stack[d],
        next[stack.len() - 1].index == branch_slot(
            branch_keys(next[stack.len() - 1].node.node->Branch_0),
            key,
        ),
        right_at(r, next, height, d, k),
    ensures
        key_lt(key, k),
{
    let t = stack.len() - 1;
    if d < t {
        assert(right_at(r, stack, height, d, k));
    } else {
        lemma_branch_right(r, next, height, t, key, k);
    }
}

/// Going down through the entry that a search picks at a branch keeps the
/// keys parted.
pub proof fn lemma_parted_down<R: NodeReader>(
    r: &R,
    stack: Seq<Frame>,
    next: Seq<Frame>,
    height: nat,
    key: Seq<u8>,
)
    requires
        stack.len() > 0,
        linked(r, next),
        ordered_tree(r, next[0].node_id, height, None, None),
        parted(r, stack, height, key),
        next.len() == stack.len() + 1,
        forall|d: int| 0 <= d < stack.len() - 1 ==> next[d] == stack[d],
        next[stack.len() - 1].index == branch_slot(
            branch_keys(next[stack.len() - 1].node.node->Branch_0),
            key,
        ),
    ensures
        parted(r, next, height, key),
{
    assert forall|d: int, k: Seq<u8>|
        0 <= d < next.len() - 1 && #[trigger] left_at(r, next, height, d, k) implies key_lt(
        k,
        key,
    ) by {
        lemma_parted_left_one(r, stack, next, height, key, d, k);
    }
    assert forall|d: int, k: Seq<u8>|
        0 <= d < next.len() - 1 && #[trigger] right_at(r, next, height, d, k) implies key_lt(
        key,
        k,
    ) by {
        lemma_parted_right_one(r, stack, next, height, key, d, k);
    }
}

/// The place in a leaf at which a search stands before it moves on: the
/// place that the search by halving finds, or the last entry where that
/// is past it.
pub open spec fn leaf_stand(stack: Seq<Frame>, key: Seq<u8>) -> Seq<Frame> {
    let es = stack.last().node.node->Leaf_0;
    let index = search_keys(stack.last().node.node.keys(), key, 0, es.len() as int).1;
    if es.len() == 0 {
        stack
    } else if index >= es.len() {
        with_top_index(stack, (es.len() - 1) as nat)
    } else {
        with_top_index(stack, index as nat)
    }
}

/// Whether the search by halving in the leaf at the end of `stack` ends
/// past its last entry.
pub open spec fn leaf_overrun(stack: Seq<Frame>, key: Seq<u8>) -> bool {
    let es = stack.last().node.node->Leaf_0;
    es.len() > 0 && search_keys(stack.last().node.node.keys(), key, 0, es.len() as int).1
        >= es.len()
}

/// At the leaf of a search tree a search stands where the keys part:
/// every key before the place is before the key looked for, and every
/// other key of the tree is that key or after it, but for the last entry
/// of a leaf whose keys are all before the key looked for.
pub proof fn lemma_leaf_parts<R: NodeReader>(r: &R, stack: Seq<Frame>, height: nat, key: Seq<u8>, k: Seq<u8>)
    requires
        complete(r, stack),
        ordered_tree(r, stack[0].node_id, height, None, None),
        parted(r, stack, height, key),
    ensures
        ({
            let stand = leaf_stand(stack, key);
            let es = stack.last().node.node->Leaf_0;
            &&& complete(r, stand)
            &&& stand[0].node_id == stack[0].node_id
            &&& left_of(r, stand, height, k) ==> key_lt(k, key)
            &&& in_tree(r, stack[0].node_id, height, k) && !left_of(r, stand, height, k) ==> (key_le(
                key,
                k,
            ) || (leaf_overrun(stack, key) && k == current(stand)))
            &&& leaf_overrun(stack, key) ==> has_current(stand) && key_lt(current(stand), key)
            &&& es.len() > 0 && !leaf_overrun(stack, key) ==> has_current(stand)
            &&& es.len() == 0 ==> !has_current(stand)
        }),
{
    let t = stack.len() - 1;
    let top = stack.last();
    assert(top == stack[t]);
    let es = top.node.node->Leaf_0;
    let keys = top.node.node.keys();
    assert(keys =~= leaf_keys(es));
    lemma_leaf_sorted(r, stack, height);
    lemma_search_lower_bound(keys, key, 0, es.len() as int);
    let (found, index) = search_keys(keys, key, 0, es.len() as int);
    let stand = leaf_stand(stack, key);
    if es.len() > 0 {
        lemma_top_index_linked(r, stack, stand.last().index);
    }
    assert(stand.len() == stack.len());
    assert(stand.last().node == top.node);
    assert forall|d: int| 0 <= d < t implies stand[d] == stack[d] by {}
    assert(stand[0].node_id == stack[0].node_id);
    lemma_path_on_tree(r, stand, height, t);
    if left_of(r, stand, height, k) {
        if left_in_leaf(stand, k) {
            let j = choose|j: int|
                0 <= j < stand.last().index && j < stand.last().len() && (#[trigger] es[j]).key == k;
            assert(keys[j] == k);
            assert(key_lt(keys[j], key));
        } else {
            let d = choose|d: int|
                0 <= d < stand.len() - 1 && #[trigger] left_at(r, stand, height, d, k);
            assert(stand[d] == stack[d]);
            assert(left_at(r, stack, height, d, k));
        }
    }
    if in_tree(r, stack[0].node_id, height, k) && !left_of(r, stand, height, k) {
        lemma_cover(r, stand, height, 0, k);
        if right_in_leaf(stand, k) {
            let j = choose|j: int|
                stand.last().index <= j < stand.last().len() && (#[trigger] es[j]).key == k;
            assert(keys[j] == k);
            if index < es.len() {
                if found && j == index {
                    lemma_key_order_equal(key, k);
                } else if found {
                    assert(key_lt(keys[index], keys[j]));
                } else {
                    assert(key_lt(key, keys[j]));
                }
            }
        } else {
            let d = choose|d: int|
                0 <= d < stand.len() - 1 && #[trigger] right_at(r, stand, height, d, k);
            assert(stand[d] == stack[d]);
            assert(right_at(r, stack, height, d, k));
        }
    }
    if es.len() > 0 && index >= es.len() {
        assert(keys[es.len() - 1] == es[es.len() - 1].key);
        assert(key_lt(keys[es.len() - 1], key));
    }
}

/// A search in a search tree ends where the keys part: every key before
/// the place where it ends is before the key looked for, and every other
/// key of the tree is that key or after it. Where the cursor is not valid
/// afterwards, it stands past the last key of the tree.
pub proof fn lemma_seek_parts<R: NodeReader>(
    r: &R,
    stack: Seq<Frame>,
    height: nat,
    key: Seq<u8>,
    fuel: nat,
    k: Seq<u8>,
)
    requires
        linked(r, stack),
        ordered_tree(r, stack[0].node_id, height, None, None),
        parted(r, stack, height, key),
    ensures
        seek_from(r, stack, key, fuel) matches Ok(end) ==> {
            &&& complete(r, end)
            &&& end[0].node_id == stack[0].node_id
            &&& left_of(r, end, height, k) ==> key_lt(k, key)
            &&& in_tree(r, stack[0].node_id, height, k) && !left_of(r, end, height, k) ==> key_le(
                key,
                k,
            )
            &&& !has_current(end) ==> at_end(end)
        },
    decreases fuel,
{
    let t = stack.len() - 1;
    let top = stack.last();
    assert(top == stack[t]);
    match top.node.node {
        NodeModel::Branch(es) => {
            if !(es.len() == 0 || fuel == 0) {
                let keys = top.node.node.keys();
                assert(keys =~= branch_keys(es));
                let slot = branch_slot(keys, key);
                lemma_branch_slot_bounds(keys, key);
                let child = es[slot].node_id;
                match r.loaded(child) {
                    Err(_) => {},
                    Ok(node) => {
                        let turned = with_top_index(stack, slot as nat);
                        lemma_top_index_linked(r, stack, slot as nat);
                        assert(turned.last().index == slot);
                        lemma_push_linked(r, turned, false);
                        let next = turned.push(enter(node, child, false));
                        assert(next[0].node_id == stack[0].node_id);
                        assert forall|d: int| 0 <= d < t implies next[d] == stack[d] by {}
                        assert(next[t] == top.at(slot as nat));
                        lemma_parted_down(r, stack, next, height, key);
                        lemma_seek_parts(r, next, height, key, (fuel - 1) as nat, k);
                    },
                }
            }
        },
        NodeModel::Leaf(es) => {
            lemma_leaf_parts(r, stack, height, key, k);
            let stand = leaf_stand(stack, key);
            if es.len() == 0 || leaf_overrun(stack, key) {
                lemma_advance_left(r, stand, height, MAX_SKIPS as nat, k);
            }
        },
    }
}

/// A cursor that looks for a key in a search tree ends at the smallest
/// key of the tree that is not before the key looked for; it is not valid
/// afterwards exactly where every key of the tree is before the key
/// looked for.
pub proof fn lemma_seek_finds_smallest<R: NodeReader>(r: &R, root: NodeId, height: nat, key: Seq<u8>)
    requires
        ordered_tree(r, root, height, None, None),
    ensures
        locate(r, root, key) matches Ok(end) ==> {
            &&& complete(r, end)
            &&& has_current(end) ==> {
                &&& in_tree(r, root, height, current(end))
                &&& key_le(key, current(end))
                &&& forall|k: Seq<u8>|
                    in_tree(r, root, height, k) && key_le(key, k) ==> key_le(current(end), k)
            }
            &&& !has_current(end) ==> forall|k: Seq<u8>|
                in_tree(r, root, height, k) ==> key_lt(k, key)
        },
{
    lemma_open_complete(r, root);
    match crate::cursor::open_at(r, root) {
        Err(_) => {},
        Ok(start) => {
            let stack = start.take(1);
            assert(stack[0] == start[0]);
            assert(linked(r, stack));
            assert(parted(r, stack, height, key));
            match seek_from(r, stack, key, 63) {
                Err(_) => {},
                Ok(end) => {
                    lemma_seek_parts(r, stack, height, key, 63, key);
                    assert(end[0].node_id == root);
                    lemma_path_on_tree(r, end, height, end.len() - 1);
                    if has_current(end) {
                        let cur = current(end);
                        lemma_end_in_tree(r, end, height, 0);
                        lemma_seek_parts(r, stack, height, key, 63, cur);
                        if left_of(r, end, height, cur) {
                            lemma_left_before(r, end, height, cur);
                            lemma_key_order_equal(cur, cur);
                        }
                        assert forall|k: Seq<u8>|
                            in_tree(r, root, height, k) && key_le(key, k) implies key_le(cur, k) by {
                            lemma_seek_parts(r, stack, height, key, 63, k);
                            if left_of(r, end, height, k) {
                                crate::key::lemma_key_order_flip(k, key);
                            }
                            lemma_cover(r, end, height, 0, k);
                            lemma_right_after(r, end, height, k);
                        }
                    } else {
                        assert forall|k: Seq<u8>| in_tree(r, root, height, k) implies key_lt(
                            k,
                            key,
                        ) by {
                            lemma_seek_parts(r, stack, height, key, 63, k);
                            lemma_cover(r, end, height, 0, k);
                            lemma_no_right(r, end, height, k);
                        }
                    }
                },
            }
        },
    }
}

/// Whether the tree of height `height` under `id` holds `value` under
/// `key`.
pub open spec fn holds<R: NodeReader>(r: &R, id: NodeId, height: nat, key: Seq<u8>, value: Seq<u8>) -> bool
    decreases height,
{
    match r.loaded(id) {
        Err(_) => false,
        Ok(n) => match n.node {
            NodeModel::Leaf(es) => exists|j: int|
                0 <= j < es.len() && (#[trigger] es[j]).key == key && es[j].value == value,
            NodeModel::Branch(es) => height > 0 && exists|j: int|
                0 <= j < es.len() && holds(
                    r,
                    (#[trigger] es[j]).node_id,
                    (height - 1) as nat,
                    key,
                    value,
                ),
        },
    }
}

/// The tree under each level of a path holds the entry at which the path
/// stands.
pub proof fn lemma_end_holds<R: NodeReader>(r: &R, path: Seq<Frame>, height: nat, d: int)
    requires
        linked(r, path),
        path.last().node.node is Leaf,
        path.last().index < path.last().len(),
        path.len() <= height + 1,
        0 <= d < path.len(),
    ensures
        holds(
            r,
            path[d].node_id,
            (height - d) as nat,
            path.last().node.node->Leaf_0[path.last().index as int].key,
            path.last().node.node->Leaf_0[path.last().index as int].value,
        ),
    decreases path.len() - d,
{
    assert(r.loaded(path[d].node_id) == Ok::<crate::reader::Loaded, Error>(path[d].node));
    let e = path.last().node.node->Leaf_0[path.last().index as int];
    if d == path.len() - 1 {
        let es = path[d].node.node->Leaf_0;
        assert(es[path[d].index as int] == e);
    } else {
        lemma_end_holds(r, path, height, d + 1);
        let es = path[d].node.node->Branch_0;
        let j = path[d].index as int;
        assert(es[j].node_id == path[d + 1].node_id);
        let h = (height - d) as nat;
        assert((h - 1) as nat == (height - (d + 1)) as nat);
        assert(holds(r, es[j].node_id, (h - 1) as nat, e.key, e.value));
    }
}

/// Looking a key up in a search tree gives a value that the tree holds
/// under the key, and gives none exactly where the key is not a key of
/// the tree.
pub proof fn lemma_lookup_finds<R: NodeReader>(r: &R, root: NodeId, height: nat, key: Seq<u8>)
    requires
        ordered_tree(r, root, height, None, None),
    ensures
        lookup(r, root, key) matches Ok(found) ==> match found {
            Some(value) => holds(r, root, height, key, value) && in_tree(r, root, height, key),
            None => !in_tree(r, root, height, key),
        },
{
    lemma_seek_finds_smallest(r, root, height, key);
    lemma_open_complete(r, root);
    match locate(r, root, key) {
        Err(_) => {},
        Ok(end) => {
            match crate::cursor::open_at(r, root) {
                Ok(start) => {
                    let stack = start.take(1);
                    assert(stack[0] == start[0]);
                    assert(linked(r, stack));
                    assert(parted(r, stack, height, key));
                    lemma_seek_parts(r, stack, height, key, 63, key);
                },
                Err(_) => {},
            }
            assert(end[0].node_id == root);
            lemma_path_on_tree(r, end, height, end.len() - 1);
            match found_value(end, key) {
                Some(value) => {
                    lemma_end_holds(r, end, height, 0);
                    lemma_end_in_tree(r, end, height, 0);
                },
                None => {
                    if in_tree(r, root, height, key) {
                        lemma_key_order_equal(key, key);
                        if has_current(end) {
                            let cur = current(end);
                            assert(key_le(cur, key));
                            assert(key_le(key, cur));
                            crate::key::lemma_key_order_flip(cur, key);
                            lemma_key_order_equal(cur, key);
                            assert(end.last().node.node.key_at(end.last().index as int) == cur);
                        }
                    }
                },
            }
        },
    }
}

/// Moving a cursor that stands at a key of a search tree to the next
/// entry takes it to the smallest key of the tree after that key; it is
/// not valid afterwards exactly where no key of the tree is after that
/// key.
pub proof fn lemma_next_is_successor<R: NodeReader>(r: &R, path: Seq<Frame>, height: nat)
    requires
        complete(r, path),
        has_current(path),
        ordered_tree(r, path[0].node_id, height, None, None),
    ensures
        advance(r, path, MAX_SKIPS as nat) matches Ok(next) ==> {
            &&& complete(r, next)
            &&& has_current(next) ==> {
                &&& in_tree(r, path[0].node_id, height, current(next))
                &&& key_lt(current(path), current(next))
                &&& forall|k: Seq<u8>|
                    in_tree(r, path[0].node_id, height, k) && key_lt(current(path), k) ==> key_le(
                        current(next),
                        k,
                    )
            }
            &&& !has_current(next) ==> forall|k: Seq<u8>|
                in_tree(r, path[0].node_id, height, k) ==> key_le(k, current(path))
        },
{
    let root = path[0].node_id;
    let from = current(path);
    match advance(r, path, MAX_SKIPS as nat) {
        Err(_) => {},
        Ok(next) => {
            lemma_advance_left(r, path, height, MAX_SKIPS as nat, from);
            lemma_path_on_tree(r, path, height, path.len() - 1);
            lemma_path_on_tree(r, next, height, next.len() - 1);
            if has_current(next) {
                let to = current(next);
                lemma_end_in_tree(r, next, height, 0);
                lemma_advance_left(r, path, height, MAX_SKIPS as nat, to);
                lemma_key_order_equal(to, to);
                lemma_key_order_equal(from, to);
                if left_of(r, next, height, to) {
                    lemma_left_before(r, next, height, to);
                }
                lemma_cover(r, path, height, 0, to);
                lemma_right_after(r, path, height, to);
                assert forall|k: Seq<u8>|
                    in_tree(r, root, height, k) && key_lt(from, k) implies key_le(to, k) by {
                    lemma_advance_left(r, path, height, MAX_SKIPS as nat, k);
                    lemma_key_order_equal(from, k);
                    if left_of(r, path, height, k) {
                        lemma_left_before(r, path, height, k);
                        crate::key::lemma_key_order_flip(k, from);
                    }
                    lemma_cover(r, next, height, 0, k);
                    lemma_right_after(r, next, height, k);
                }
            } else {
                assert forall|k: Seq<u8>| in_tree(r, root, height, k) implies key_le(k, from) by {
                    lemma_advance_left(r, path, height, MAX_SKIPS as nat, k);
                    lemma_cover(r, next, height, 0, k);
                    lemma_no_right(r, next, height, k);
                    lemma_key_order_equal(k, from);
                    if left_of(r, path, height, k) {
                        lemma_left_before(r, path, height, k);
                    }
                }
            }
        },
    }
}

} // verus!
