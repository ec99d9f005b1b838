use crate::cursor::{
    advance, branch_slot, depth_left, descend, descend_from, enter, find_from, find_in, Frame,
    MAX_SKIPS, open_at, retreat, rewind, room, seek_from, seek_in, step_at, with_top_index,
};
use crate::error::Error;
use crate::node::{NodeId, NodeModel, search_keys};
use crate::reader::NodeReader;
use vstd::prelude::*;

verus! {

/// Whether `path` is a path in the tree that `r` reads: every level holds
/// the node that `r` gives for its reference, and every level but the last
/// is a branch whose entry at its index refers to the level below.
pub open spec fn linked<R: NodeReader>(r: &R, path: Seq<Frame>) -> bool {
    &&& path.len() > 0
    &&& forall|i: int|
        0 <= i < path.len() ==> r.loaded((#[trigger] path[i]).node_id) == Ok::<
            crate::reader::Loaded,
            Error,
        >(path[i].node)
    &&& forall|i: int|
        0 <= i < path.len() - 1 ==> {
            &&& (#[trigger] path[i]).node.node is Branch
            &&& path[i].index < path[i].len()
            &&& path[i].node.node->Branch_0[path[i].index as int].node_id == path[i + 1].node_id
        }
}

/// Whether `path` is a path in the tree that `r` reads from a root down to
/// a leaf.
pub open spec fn complete<R: NodeReader>(r: &R, path: Seq<Frame>) -> bool {
    linked(r, path) && path.last().node.node is Leaf
}

/// A search by halving ends inside the range it searches, and at an entry
/// where it met the key.
pub proof fn lemma_search_bounds(keys: Seq<Seq<u8>>, key: Seq<u8>, lo: int, hi: int)
    requires
        0 <= lo <= hi <= keys.len(),
    ensures
        lo <= search_keys(keys, key, lo, hi).1 <= hi,
        search_keys(keys, key, lo, hi).0 ==> search_keys(keys, key, lo, hi).1 < hi,
    decreases hi - lo,
{
    if lo < hi {
        let mid = lo + (hi - lo) / 2;
        match crate::key::key_order(keys[mid], key) {
            crate::key::KeyOrder::Equal => {},
            crate::key::KeyOrder::Less => {
                lemma_search_bounds(keys, key, mid + 1, hi);
            },
            crate::key::KeyOrder::Greater => {
                lemma_search_bounds(keys, key, lo, mid);
            },
        }
    }
}

/// The entry that a search goes down through is an entry of the branch.
pub proof fn lemma_branch_slot_bounds(keys: Seq<Seq<u8>>, key: Seq<u8>)
    requires
        keys.len() > 0,
    ensures
        0 <= branch_slot(keys, key) < keys.len(),
{
    lemma_search_bounds(keys, key, 0, keys.len() as int);
}

/// Cutting a path off and moving the index of its last level leaves a
/// path.
pub proof fn lemma_step_linked<R: NodeReader>(r: &R, path: Seq<Frame>, i: int, back: bool)
    requires
        linked(r, path),
        0 <= i < path.len(),
    ensures
        linked(r, step_at(path, i, back)),
{
    let next = step_at(path, i, back);
    assert forall|k: int| 0 <= k < next.len() implies r.loaded((#[trigger] next[k]).node_id)
        == Ok::<crate::reader::Loaded, Error>(next[k].node) by {
        assert(next[k].node_id == path[k].node_id);
        assert(next[k].node == path[k].node);
    }
    assert forall|k: int| 0 <= k < next.len() - 1 implies {
        &&& (#[trigger] next[k]).node.node is Branch
        &&& next[k].index < next[k].len()
        &&& next[k].node.node->Branch_0[next[k].index as int].node_id == next[k + 1].node_id
    } by {
        assert(next[k] == path[k]);
        assert(next[k + 1].node_id == path[k + 1].node_id);
    }
}

/// Setting the index of the last level of a path leaves a path.
pub proof fn lemma_top_index_linked<R: NodeReader>(r: &R, path: Seq<Frame>, index: nat)
    requires
        linked(r, path),
    ensures
        linked(r, with_top_index(path, index)),
        with_top_index(path, index).len() == path.len(),
        with_top_index(path, index).last().node == path.last().node,
{
    let next = with_top_index(path, index);
    assert forall|k: int| 0 <= k < next.len() implies r.loaded((#[trigger] next[k]).node_id)
        == Ok::<crate::reader::Loaded, Error>(next[k].node) by {
        assert(next[k].node_id == path[k].node_id);
        assert(next[k].node == path[k].node);
    }
    assert forall|k: int| 0 <= k < next.len() - 1 implies {
        &&& (#[trigger] next[k]).node.node is Branch
        &&& next[k].index < next[k].len()
        &&& next[k].node.node->Branch_0[next[k].index as int].node_id == next[k + 1].node_id
    } by {
        assert(next[k] == path[k]);
        assert(next[k + 1].node_id == path[k + 1].node_id);
    }
}

/// A path with the node under the entry at the index of its last level,
/// a branch, as one more level is a path.
pub proof fn lemma_push_linked<R: NodeReader>(r: &R, path: Seq<Frame>, last: bool)
    requires
        linked(r, path),
        path.last().node.node is Branch,
        path.last().index < path.last().len(),
        r.loaded(path.last().node.node->Branch_0[path.last().index as int].node_id) is Ok,
    ensures
        ({
            let child = path.last().node.node->Branch_0[path.last().index as int].node_id;
            linked(r, path.push(enter(r.loaded(child)->Ok_0, child, last)))
        }),
{
    let child = path.last().node.node->Branch_0[path.last().index as int].node_id;
    let next = path.push(enter(r.loaded(child)->Ok_0, child, last));
    assert forall|k: int| 0 <= k < next.len() implies r.loaded((#[trigger] next[k]).node_id)
        == Ok::<crate::reader::Loaded, Error>(next[k].node) by {
        if k < path.len() {
            assert(next[k] == path[k]);
        }
    }
    assert forall|k: int| 0 <= k < next.len() - 1 implies {
        &&& (#[trigger] next[k]).node.node is Branch
        &&& next[k].index < next[k].len()
        &&& next[k].node.node->Branch_0[next[k].index as int].node_id == next[k + 1].node_id
    } by {
        assert(next[k] == path[k]);
        if k + 1 < path.len() {
            assert(next[k + 1] == path[k + 1]);
        }
    }
}

/// Taking a path down to a leaf gives a path from the root to a leaf.
pub proof fn lemma_descend_complete<R: NodeReader>(r: &R, path: Seq<Frame>, last: bool, fuel: nat)
    requires
        linked(r, path),
    ensures
        descend_from(r, path, last, fuel) matches Ok(below) ==> complete(r, below),
    decreases fuel,
{
    let top = path.last();
    match top.node.node {
        NodeModel::Leaf(_) => {},
        NodeModel::Branch(es) => {
            if !(top.index >= es.len() || fuel == 0) {
                let child = es[top.index as int].node_id;
                match r.loaded(child) {
                    Err(_) => {},
                    Ok(node) => {
                        lemma_push_linked(r, path, last);
                        lemma_descend_complete(
                            r,
                            path.push(enter(node, child, last)),
                            last,
                            (fuel - 1) as nat,
                        );
                    },
                }
            }
        },
    }
}

/// Moving a cursor that stands on a path to the next entry leaves it on a
/// path from the root to a leaf.
pub proof fn lemma_advance_complete<R: NodeReader>(r: &R, path: Seq<Frame>, budget: nat)
    requires
        complete(r, path),
    ensures
        advance(r, path, budget) matches Ok(next) ==> complete(r, next),
    decreases budget,
{
    let i = room(path, path.len() - 1, false);
    if i < 0 {
        lemma_top_index_linked(r, path, path.last().len());
    } else if budget > 0 {
        crate::cursor::lemma_room_found(path, path.len() - 1, false);
        lemma_step_linked(r, path, i, false);
        let stepped = step_at(path, i, false);
        lemma_descend_complete(r, stepped, false, depth_left(stepped.len()));
        match descend(r, stepped, false) {
            Err(_) => {},
            Ok(below) => {
                if below.last().len() == 0 {
                    lemma_advance_complete(r, below, (budget - 1) as nat);
                }
            },
        }
    }
}

/// Moving a cursor that stands on a path to the entry before leaves it on
/// a path from the root to a leaf.
pub proof fn lemma_retreat_complete<R: NodeReader>(r: &R, path: Seq<Frame>, budget: nat)
    requires
        complete(r, path),
    ensures
        retreat(r, path, budget) matches Ok((next, _)) ==> complete(r, next),
    decreases budget,
{
    let i = room(path, path.len() - 1, true);
    if i >= 0 && budget > 0 {
        crate::cursor::lemma_room_found(path, path.len() - 1, true);
        lemma_step_linked(r, path, i, true);
        let stepped = step_at(path, i, true);
        lemma_descend_complete(r, stepped, true, depth_left(stepped.len()));
        match descend(r, stepped, true) {
            Err(_) => {},
            Ok(below) => {
                if below.last().len() == 0 {
                    lemma_retreat_complete(r, below, (budget - 1) as nat);
                }
            },
        }
    }
}

/// A search that starts on a path ends on a path from the root to a leaf.
pub proof fn lemma_seek_complete<R: NodeReader>(r: &R, path: Seq<Frame>, key: Seq<u8>, fuel: nat)
    requires
        linked(r, path),
    ensures
        seek_from(r, path, key, fuel) matches Ok(end) ==> complete(r, end),
    decreases fuel,
{
    let top = path.last();
    match top.node.node {
        NodeModel::Branch(es) => {
            if !(es.len() == 0 || fuel == 0) {
                let slot = branch_slot(top.node.node.keys(), key);
                lemma_branch_slot_bounds(top.node.node.keys(), key);
                let child = es[slot].node_id;
                match r.loaded(child) {
                    Err(_) => {},
                    Ok(node) => {
                        let turned = with_top_index(path, slot as nat);
                        lemma_top_index_linked(r, path, slot as nat);
                        assert(turned.last().index == slot);
                        lemma_push_linked(r, turned, false);
                        lemma_seek_complete(
                            r,
                            turned.push(enter(node, child, false)),
                            key,
                            (fuel - 1) as nat,
                        );
                    },
                }
            }
        },
        NodeModel::Leaf(es) => {
            if es.len() == 0 {
                lemma_advance_complete(r, path, MAX_SKIPS as nat);
            } else {
                let (found, index) = search_keys(top.node.node.keys(), key, 0, es.len() as int);
                if index >= es.len() {
                    lemma_top_index_linked(r, path, (es.len() - 1) as nat);
                    lemma_advance_complete(
                        r,
                        with_top_index(path, (es.len() - 1) as nat),
                        MAX_SKIPS as nat,
                    );
                } else {
                    lemma_top_index_linked(r, path, index as nat);
                }
            }
        },
    }
}

/// The root alone, as `r` gives it, is a path.
pub proof fn lemma_root_linked<R: NodeReader>(r: &R, root: NodeId, last: bool)
    requires
        r.loaded(root) is Ok,
    ensures
        linked(r, seq![enter(r.loaded(root)->Ok_0, root, last)]),
{
}

/// Going to the first or last entry from a path leaves the cursor on a
/// path from the root to a leaf.
pub proof fn lemma_rewind_complete<R: NodeReader>(r: &R, path: Seq<Frame>, last: bool)
    requires
        linked(r, path),
    ensures
        rewind(r, path, last) matches Ok(end) ==> complete(r, end),
{
    let root = enter(path[0].node, path[0].node_id, last);
    let start = seq![root];
    assert(linked(r, start)) by {
        assert(path[0].node_id == root.node_id);
    }
    lemma_descend_complete(r, start, last, depth_left(start.len()));
    match descend(r, start, last) {
        Err(_) => {},
        Ok(below) => {
            if below.last().len() == 0 {
                lemma_advance_complete(r, below, MAX_SKIPS as nat);
            }
        },
    }
}

/// A new cursor stands on a path from the root to a leaf.
pub proof fn lemma_open_complete<R: NodeReader>(r: &R, root: NodeId)
    ensures
        open_at(r, root) matches Ok(path) ==> complete(r, path) && path[0].node_id == root,
{
    match r.loaded(root) {
        Err(_) => {},
        Ok(node) => {
            lemma_root_linked(r, root, false);
            let start = seq![enter(node, root, false)];
            lemma_rewind_complete(r, start, false);
            lemma_rewind_root(r, start, false);
        },
    }
}

/// Taking a path down keeps its levels.
pub proof fn lemma_descend_root<R: NodeReader>(r: &R, path: Seq<Frame>, last: bool, fuel: nat)
    requires
        path.len() > 0,
    ensures
        descend_from(r, path, last, fuel) matches Ok(below) ==> below.len() > 0
            && below[0].node_id == path[0].node_id && below[0].node == path[0].node,
{
    crate::cursor::lemma_descend_ends(r, path, last, fuel);
    match descend_from(r, path, last, fuel) {
        Ok(below) => {
            assert(below.take(path.len() as int)[0] == below[0]);
        },
        Err(_) => {},
    }
}

/// Moving on keeps the root of the path.
pub proof fn lemma_advance_root<R: NodeReader>(r: &R, path: Seq<Frame>, budget: nat)
    requires
        path.len() > 0,
    ensures
        advance(r, path, budget) matches Ok(next) ==> next.len() > 0 && next[0].node_id
            == path[0].node_id && next[0].node == path[0].node,
    decreases budget,
{
    let i = room(path, path.len() - 1, false);
    if i >= 0 && budget > 0 {
        crate::cursor::lemma_room_found(path, path.len() - 1, false);
        let stepped = step_at(path, i, false);
        lemma_descend_root(r, stepped, false, depth_left(stepped.len()));
        match descend(r, stepped, false) {
            Err(_) => {},
            Ok(below) => {
                if below.last().len() == 0 {
                    lemma_advance_root(r, below, (budget - 1) as nat);
                }
            },
        }
    }
}

/// Going to the first or last entry keeps the root of the path.
pub proof fn lemma_rewind_root<R: NodeReader>(r: &R, path: Seq<Frame>, last: bool)
    requires
        path.len() > 0,
    ensures
        rewind(r, path, last) matches Ok(end) ==> end.len() > 0 && end[0].node_id
            == path[0].node_id && end[0].node == path[0].node,
{
    let root = enter(path[0].node, path[0].node_id, last);
    let start = seq![root];
    lemma_descend_root(r, start, last, depth_left(start.len()));
    match descend(r, start, last) {
        Err(_) => {},
        Ok(below) => {
            if below.last().len() == 0 {
                lemma_advance_root(r, below, MAX_SKIPS as nat);
            }
        },
    }
}

/// A search from the root of a path ends on a path from that root to a
/// leaf.
pub proof fn lemma_seek_in_complete<R: NodeReader>(r: &R, path: Seq<Frame>, key: Seq<u8>)
    requires
        linked(r, path),
    ensures
        seek_in(r, path, key) matches Ok(end) ==> complete(r, end),
{
    let start = path.take(1);
    assert(linked(r, start)) by {
        assert(start[0] == path[0]);
    }
    lemma_seek_complete(r, start, key, 63);
}

/// A path to the leaf in which a key belongs is a path from the root to a
/// leaf, of the root it started from.
pub proof fn lemma_find_complete<R: NodeReader>(r: &R, path: Seq<Frame>, key: Seq<u8>, fuel: nat)
    requires
        linked(r, path),
    ensures
        find_from(r, path, key, fuel) matches Ok(end) ==> complete(r, end) && end[0].node_id
            == path[0].node_id && end[0].node == path[0].node,
    decreases fuel,
{
    let top = path.last();
    match top.node.node {
        NodeModel::Branch(es) => {
            if !(es.len() == 0 || fuel == 0) {
                let slot = branch_slot(top.node.node.keys(), key);
                lemma_branch_slot_bounds(top.node.node.keys(), key);
                let child = es[slot].node_id;
                match r.loaded(child) {
                    Err(_) => {},
                    Ok(node) => {
                        let turned = with_top_index(path, slot as nat);
                        lemma_top_index_linked(r, path, slot as nat);
                        assert(turned.last().index == slot);
                        lemma_push_linked(r, turned, false);
                        lemma_find_complete(
                            r,
                            turned.push(enter(node, child, false)),
                            key,
                            (fuel - 1) as nat,
                        );
                    },
                }
            }
        },
        NodeModel::Leaf(es) => {
            let index = search_keys(top.node.node.keys(), key, 0, es.len() as int).1;
            lemma_search_bounds(top.node.node.keys(), key, 0, es.len() as int);
            lemma_top_index_linked(r, path, index as nat);
        },
    }
}

/// A path from the root of a path to the leaf in which a key belongs is a
/// path from that root to a leaf.
pub proof fn lemma_find_in_complete<R: NodeReader>(r: &R, path: Seq<Frame>, key: Seq<u8>)
    requires
        linked(r, path),
    ensures
        find_in(r, path, key) matches Ok(end) ==> complete(r, end) && end[0].node_id
            == path[0].node_id,
{
    let start = path.take(1);
    assert(linked(r, start)) by {
        assert(start[0] == path[0]);
    }
    lemma_find_complete(r, start, key, 63);
}

} // verus!
