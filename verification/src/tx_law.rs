use crate::cursor::{find_in, Frame, open_at};
use crate::error::Error;
use crate::key::lemma_key_order_equal;
use crate::node::{NodeId, NodeModel, search_keys};
use crate::node_laws::lemma_search_lower_bound;
use crate::path::{complete, lemma_find_in_complete, lemma_open_complete, linked};
use crate::reader::NodeReader;
use crate::seek_law::{
    holds, lemma_branch_left, lemma_branch_right, lemma_end_holds, lemma_lookup_finds,
};
use crate::spine::{
    fits_leaf, lemma_holds_in_tree, lemma_leaf_change, lemma_spine_holds, lemma_spine_ordered,
    put_value,
};
use crate::staging::Staged;
use crate::tree::{
    in_tree, leaf_keys, left_at, left_in_leaf, lemma_cover, lemma_leaf_sorted, lemma_path_on_tree,
    ordered_tree, right_at, right_in_leaf,
};
use crate::tree_update::{
    avoids, closed_refs, lemma_find_routed, lemma_frame_holds, lemma_frame_ordered, routed,
    unique_refs,
};
use crate::tx::{found_value, locate_leaf, lookup, TxModel};
use crate::update::{Change, cloned_levels, staged_change, update_result};
use crate::update_law::{
    lemma_copies_refs, lemma_copies_respine, lemma_in_place_refs, lemma_in_place_respines,
    lemma_levels, lemma_same_but_intro, lemma_staged_change_cases, new_ids, plan_for, update_ready,
};
use vstd::prelude::*;

verus! {

/// Whether the tree of the write transaction `st`, as `r` reads it, is
/// sound: it is a search tree of height `height`, every staged node has a
/// number that was given out, no staged node is referred to by two
/// entries, and every staged node that is referred to is staged.
pub open spec fn sound_tx(r: &Staged, st: TxModel, height: nat) -> bool {
    &&& r.staging@ == st.staging
    &&& ordered_tree(r, st.root, height, None, None)
    &&& st.staging.fresh()
    &&& unique_refs(st.staging)
    &&& closed_refs(st.staging)
}

/// Every tree holds none of no nodes.
pub proof fn lemma_avoids_none<R: NodeReader>(r: &R, id: NodeId, height: nat)
    ensures
        avoids(r, id, height, Set::<u64>::empty()),
    decreases height,
{
    match r.loaded(id) {
        Ok(n) => match n.node {
            NodeModel::Branch(es) => {
                if height > 0 {
                    assert forall|j: int| 0 <= j < es.len() implies avoids(
                        r,
                        (#[trigger] es[j]).node_id,
                        (height - 1) as nat,
                        Set::<u64>::empty(),
                    ) by {
                        lemma_avoids_none(r, es[j].node_id, (height - 1) as nat);
                    }
                }
            },
            NodeModel::Leaf(_) => {},
        },
        Err(_) => {},
    }
}

/// A key of a search tree stands at the end of the path to the leaf in
/// which it belongs.
pub proof fn lemma_find_present<R: NodeReader>(r: &R, path: Seq<Frame>, height: nat, key: Seq<u8>)
    requires
        complete(r, path),
        ordered_tree(r, path[0].node_id, height, None, None),
        routed(path, key),
        path.last().index == search_keys(
            path.last().node.node.keys(),
            key,
            0,
            path.last().len() as int,
        ).1,
        in_tree(r, path[0].node_id, height, key),
    ensures
        found_value(path, key) is Some,
{
    let n = path.len() as int;
    lemma_path_on_tree(r, path, height, n - 1);
    lemma_cover(r, path, height, 0, key);
    lemma_key_order_equal(key, key);
    let leaf = path.last().node.node->Leaf_0;
    let keys = path.last().node.node.keys();
    assert(keys =~= leaf_keys(leaf));
    lemma_leaf_sorted(r, path, height);
    lemma_search_lower_bound(keys, key, 0, leaf.len() as int);
    let (found, index) = search_keys(keys, key, 0, leaf.len() as int);
    if left_in_leaf(path, key) {
        let j = choose|j: int|
            0 <= j < path.last().index && j < path.last().len() && (#[trigger] leaf[j]).key == key;
        assert(keys[j] == key);
        assert(false);
    } else if right_in_leaf(path, key) {
        let j = choose|j: int|
            path.last().index <= j < path.last().len() && (#[trigger] leaf[j]).key == key;
        assert(keys[j] == key);
        assert(found);
        assert(keys[index] == key);
    } else {
        if exists|d: int| 0 <= d < path.len() - 1 && #[trigger] left_at(r, path, height, d, key) {
            let d = choose|d: int|
                0 <= d < path.len() - 1 && #[trigger] left_at(r, path, height, d, key);
            lemma_branch_left(r, path, height, d, key, key);
        } else {
            let d = choose|d: int|
                0 <= d < path.len() - 1 && #[trigger] right_at(r, path, height, d, key);
            lemma_branch_right(r, path, height, d, key, key);
        }
        assert(false);
    }
}

/// What the path of an update is: a path from the root of the tree to the
/// leaf in which the key belongs, routed by the key.
pub proof fn lemma_update_path(r: &Staged, st: TxModel, height: nat, key: Seq<u8>)
    requires
        sound_tx(r, st, height),
    ensures
        locate_leaf(r, st.root, key) matches Ok(path) ==> {
            &&& update_ready(r, st, path, height)
            &&& routed(path, key)
            &&& path.last().index == search_keys(
                path.last().node.node.keys(),
                key,
                0,
                path.last().len() as int,
            ).1
            &&& found_value(path, key) is None ==> !in_tree(r, st.root, height, key)
        },
{
    lemma_open_complete(r, st.root);
    match open_at(r, st.root) {
        Err(_) => {},
        Ok(start) => {
            lemma_find_in_complete(r, start, key);
            let stack = start.take(1);
            assert(stack[0] == start[0]);
            lemma_find_routed(r, stack, key, 63);
            match find_in(r, start, key) {
                Err(_) => {},
                Ok(path) => {
                    if in_tree(r, st.root, height, key) {
                        lemma_find_present(r, path, height, key);
                    }
                },
            }
        },
    }
}

/// An update of a sound tree leaves a sound tree, which holds the value
/// that was put under the key of the update, or nothing under it where it
/// was taken out, and under every other key what the tree held before.
pub proof fn lemma_update_correct(
    r: &Staged,
    r2: &Staged,
    st: TxModel,
    st2: TxModel,
    height: nat,
    change: Change,
)
    requires
        sound_tx(r, st, height),
        r2.staging@ == st2.staging,
        r2.store@ == r.store@,
        update_result(r, st, change) == Ok::<TxModel, Error>(st2),
    ensures
        sound_tx(r2, st2, height),
        forall|k: Seq<u8>, v: Seq<u8>|
            #[trigger] holds(r2, st2.root, height, k, v) == (if k == change.key() {
                put_value(change) == Some(v)
            } else {
                holds(r, st.root, height, k, v)
            }),
{
    let key = change.key();
    lemma_update_path(r, st, height, key);
    let path = locate_leaf(r, st.root, key)->Ok_0;
    if change is Delete && found_value(path, key) is None {
        // Nothing changes, and the key is not there.
        assert(st2 == st);
        let none = Set::<u64>::empty();
        lemma_same_but_intro(r, r2, none);
        lemma_avoids_none(r, st.root, height);
        lemma_frame_ordered(r, r2, none, st.root, height, None, None);
        assert forall|k: Seq<u8>, v: Seq<u8>|
            #[trigger] holds(r2, st2.root, height, k, v) == (if k == key {
                put_value(change) == Some(v)
            } else {
                holds(r, st.root, height, k, v)
            }) by {
            lemma_frame_holds(r, r2, none, st.root, height, None, None, k, v);
            if k == key && holds(r, st.root, height, k, v) {
                lemma_holds_in_tree(r, st.root, height, k, v);
            }
        }
    } else {
        lemma_changed_correct(r, r2, st, st2, path, height, change);
    }
}

/// A change that is staged at the end of the path of an update of a
/// sound tree leaves the tree with new nodes along the path, and a
/// staging area in which every staged node has a number that was given
/// out, none is referred to twice, and all that are referred to are
/// staged.
pub proof fn lemma_changed_respined(
    r: &Staged,
    r2: &Staged,
    st: TxModel,
    st2: TxModel,
    path: Seq<Frame>,
    height: nat,
    change: Change,
)
    requires
        sound_tx(r, st, height),
        r2.staging@ == st2.staging,
        r2.store@ == r.store@,
        update_ready(r, st, path, height),
        staged_change(st, plan_for(path), change) == Ok::<TxModel, Error>(st2),
    ensures
        crate::spine::respined(
            r,
            r2,
            path,
            new_ids(path, st.staging.next_node_id),
            change.apply(path.last().node.node->Leaf_0, path.last().index as int),
        ),
        st2.root == NodeId::Id(new_ids(path, st.staging.next_node_id)[0]),
        st2.staging.fresh(),
        unique_refs(st2.staging),
        closed_refs(st2.staging),
{
    let n = path.len() as int;
    let plan = plan_for(path);
    let cloned = cloned_levels(plan);
    let leaf = path.last();
    assert(leaf == path[n - 1]);
    let entries2 = change.apply(leaf.node.node->Leaf_0, leaf.index as int);
    lemma_staged_change_cases(st, plan, change, st2);
    assert(plan[n - 1] == crate::update::plan_of_frame(path[n - 1]));
    if cloned == 0 {
        lemma_levels(r, path, n - 1);
        let id = path[n - 1].node_id->Id_0;
        assert(st.staging.nodes[id] == leaf.node.node);
        lemma_in_place_respines(r, r2, st, path, height, entries2);
        lemma_in_place_refs(st, id, entries2);
    } else {
        if cloned < n {
            assert(plan[n - 1 - cloned] == crate::update::plan_of_frame(path[n - 1 - cloned]));
        }
        lemma_copies_respine(r, r2, st, path, height, change);
        lemma_copies_refs(r, st, path, height, change);
    }
}

/// The leaf at the end of the path of an update has keys that grow
/// strictly, and the change fits it at the index where the path ends.
pub proof fn lemma_leaf_ready(r: &Staged, path: Seq<Frame>, height: nat, change: Change)
    requires
        linked(r, path),
        path.last().node.node is Leaf,
        ordered_tree(r, path[0].node_id, height, None, None),
        path.last().index == search_keys(
            path.last().node.node.keys(),
            change.key(),
            0,
            path.last().len() as int,
        ).1,
        change is Delete ==> found_value(path, change.key()) is Some,
    ensures
        crate::node_laws::keys_sorted(leaf_keys(path.last().node.node->Leaf_0)),
        fits_leaf(path.last().node.node->Leaf_0, path.last().index as int, change),
{
    let es = path.last().node.node->Leaf_0;
    assert(path.last().node.node.keys() =~= leaf_keys(es));
    lemma_leaf_sorted(r, path, height);
}

/// The tree after a change was staged holds under one key what the
/// change asks for.
pub proof fn lemma_changed_holds(
    r: &Staged,
    r2: &Staged,
    path: Seq<Frame>,
    height: nat,
    ids2: Seq<u64>,
    change: Change,
    k: Seq<u8>,
    v: Seq<u8>,
)
    requires
        linked(r, path),
        path.last().node.node is Leaf,
        ordered_tree(r, path[0].node_id, height, None, None),
        unique_refs(r.staging@),
        r.staging@.fresh(),
        crate::spine::respined(
            r,
            r2,
            path,
            ids2,
            change.apply(path.last().node.node->Leaf_0, path.last().index as int),
        ),
        routed(path, change.key()),
        crate::node_laws::keys_sorted(leaf_keys(path.last().node.node->Leaf_0)),
        fits_leaf(path.last().node.node->Leaf_0, path.last().index as int, change),
    ensures
        holds(r2, NodeId::Id(ids2[0]), height, k, v) == (if k == change.key() {
            put_value(change) == Some(v)
        } else {
            holds(r, path[0].node_id, height, k, v)
        }),
{
    let es = path.last().node.node->Leaf_0;
    let index = path.last().index as int;
    lemma_leaf_change(es, index, change, k, v);
    lemma_spine_holds(
        r,
        r2,
        path,
        height,
        ids2,
        change.apply(es, index),
        change.key(),
        put_value(change),
        0,
        k,
        v,
    );
}

/// The tree after a change was staged is a search tree.
pub proof fn lemma_changed_ordered(
    r: &Staged,
    r2: &Staged,
    path: Seq<Frame>,
    height: nat,
    ids2: Seq<u64>,
    change: Change,
)
    requires
        linked(r, path),
        path.last().node.node is Leaf,
        ordered_tree(r, path[0].node_id, height, None, None),
        unique_refs(r.staging@),
        r.staging@.fresh(),
        crate::spine::respined(
            r,
            r2,
            path,
            ids2,
            change.apply(path.last().node.node->Leaf_0, path.last().index as int),
        ),
        routed(path, change.key()),
        crate::node_laws::keys_sorted(leaf_keys(path.last().node.node->Leaf_0)),
        fits_leaf(path.last().node.node->Leaf_0, path.last().index as int, change),
    ensures
        ordered_tree(r2, NodeId::Id(ids2[0]), height, None, None),
{
    let es = path.last().node.node->Leaf_0;
    let index = path.last().index as int;
    lemma_leaf_change(es, index, change, change.key(), change.key());
    lemma_spine_ordered(r, r2, path, height, ids2, change.apply(es, index), change.key(), 0);
}

/// A change that is staged at the end of the path of an update of a
/// sound tree leaves a sound tree with the change made.
pub proof fn lemma_changed_correct(
    r: &Staged,
    r2: &Staged,
    st: TxModel,
    st2: TxModel,
    path: Seq<Frame>,
    height: nat,
    change: Change,
)
    requires
        sound_tx(r, st, height),
        r2.staging@ == st2.staging,
        r2.store@ == r.store@,
        update_ready(r, st, path, height),
        routed(path, change.key()),
        path.last().index == search_keys(
            path.last().node.node.keys(),
            change.key(),
            0,
            path.last().len() as int,
        ).1,
        change is Delete ==> found_value(path, change.key()) is Some,
        staged_change(st, plan_for(path), change) == Ok::<TxModel, Error>(st2),
    ensures
        sound_tx(r2, st2, height),
        forall|k: Seq<u8>, v: Seq<u8>|
            #[trigger] holds(r2, st2.root, height, k, v) == (if k == change.key() {
                put_value(change) == Some(v)
            } else {
                holds(r, st.root, height, k, v)
            }),
{
    let ids2 = new_ids(path, st.staging.next_node_id);
    lemma_leaf_ready(r, path, height, change);
    lemma_changed_respined(r, r2, st, st2, path, height, change);
    lemma_changed_ordered(r, r2, path, height, ids2, change);
    assert forall|k: Seq<u8>, v: Seq<u8>|
        #[trigger] holds(r2, st2.root, height, k, v) == (if k == change.key() {
            put_value(change) == Some(v)
        } else {
            holds(r, st.root, height, k, v)
        }) by {
        lemma_changed_holds(r, r2, path, height, ids2, change, k, v);
    }
}

/// A key of a tree has a value in it.
pub proof fn lemma_in_tree_holds<R: NodeReader>(r: &R, id: NodeId, height: nat, k: Seq<u8>)
    requires
        in_tree(r, id, height, k),
    ensures
        exists|v: Seq<u8>| #[trigger] holds(r, id, height, k, v),
    decreases height,
{
    let n = r.loaded(id)->Ok_0;
    match n.node {
        NodeModel::Leaf(es) => {
            let j = choose|j: int| 0 <= j < es.len() && (#[trigger] es[j]).key == k;
            assert(es[j].key == k && es[j].value == es[j].value);
            assert(holds(r, id, height, k, es[j].value));
        },
        NodeModel::Branch(es) => {
            let j = choose|j: int|
                0 <= j < es.len() && in_tree(r, (#[trigger] es[j]).node_id, (height - 1) as nat, k);
            lemma_in_tree_holds(r, es[j].node_id, (height - 1) as nat, k);
            let v = choose|v: Seq<u8>| #[trigger]
                holds(r, es[j].node_id, (height - 1) as nat, k, v);
            assert(holds(r, id, height, k, v));
        },
    }
}

/// What is found at the end of the path of an update is held by the
/// tree.
pub proof fn lemma_found_holds(r: &Staged, st: TxModel, height: nat, key: Seq<u8>)
    requires
        sound_tx(r, st, height),
    ensures
        locate_leaf(r, st.root, key) matches Ok(path) ==> (found_value(path, key) matches Some(
            v,
        ) ==> holds(r, st.root, height, key, v)),
{
    lemma_update_path(r, st, height, key);
    match locate_leaf(r, st.root, key) {
        Err(_) => {},
        Ok(path) => {
            if found_value(path, key) is Some {
                lemma_path_on_tree(r, path, height, path.len() - 1);
                lemma_end_holds(r, path, height, 0);
            }
        },
    }
}

/// A value that was put under a key in a sound tree is what looking the
/// key up finds afterwards; after a key was taken out, looking it up
/// finds nothing.
pub proof fn lemma_get_after_update(
    r: &Staged,
    r2: &Staged,
    st: TxModel,
    st2: TxModel,
    height: nat,
    change: Change,
)
    requires
        sound_tx(r, st, height),
        r2.staging@ == st2.staging,
        r2.store@ == r.store@,
        update_result(r, st, change) == Ok::<TxModel, Error>(st2),
    ensures
        lookup(r2, st2.root, change.key()) matches Ok(found) ==> found == put_value(change),
{
    let key = change.key();
    lemma_update_correct(r, r2, st, st2, height, change);
    lemma_lookup_finds(r2, st2.root, height, key);
    match lookup(r2, st2.root, key) {
        Err(_) => {},
        Ok(found) => {
            match found {
                Some(v) => {
                    assert(holds(r2, st2.root, height, key, v));
                },
                None => {
                    if put_value(change) is Some {
                        let v = put_value(change)->Some_0;
                        assert(holds(r2, st2.root, height, key, v));
                        lemma_holds_in_tree(r2, st2.root, height, key, v);
                    }
                },
            }
        },
    }
}

/// An update of a sound tree leaves what looking up any other key finds:
/// a value that the tree held under the key before, or nothing where it
/// held nothing under it.
pub proof fn lemma_get_other_after_update(
    r: &Staged,
    r2: &Staged,
    st: TxModel,
    st2: TxModel,
    height: nat,
    change: Change,
    other: Seq<u8>,
)
    requires
        sound_tx(r, st, height),
        r2.staging@ == st2.staging,
        r2.store@ == r.store@,
        update_result(r, st, change) == Ok::<TxModel, Error>(st2),
        other != change.key(),
    ensures
        lookup(r2, st2.root, other) matches Ok(found) ==> match found {
            Some(v) => holds(r, st.root, height, other, v),
            None => !in_tree(r, st.root, height, other),
        },
{
    lemma_update_correct(r, r2, st, st2, height, change);
    lemma_lookup_finds(r2, st2.root, height, other);
    match lookup(r2, st2.root, other) {
        Err(_) => {},
        Ok(found) => {
            match found {
                Some(v) => {
                    assert(holds(r2, st2.root, height, other, v));
                },
                None => {
                    if in_tree(r, st.root, height, other) {
                        lemma_in_tree_holds(r, st.root, height, other);
                        let v = choose|v: Seq<u8>| #[trigger] holds(r, st.root, height, other, v);
                        assert(holds(r2, st2.root, height, other, v));
                        lemma_holds_in_tree(r2, st2.root, height, other, v);
                    }
                },
            }
        },
    }
}

/// Putting a value under a key and then another under the same key leaves
/// a tree that holds what the tree holds after putting the other alone.
pub proof fn lemma_put_twice(
    r: &Staged,
    r1: &Staged,
    r2: &Staged,
    r3: &Staged,
    st: TxModel,
    st1: TxModel,
    st2: TxModel,
    st3: TxModel,
    height: nat,
    key: Seq<u8>,
    first: Seq<u8>,
    second: Seq<u8>,
)
    requires
        sound_tx(r, st, height),
        r1.staging@ == st1.staging,
        r2.staging@ == st2.staging,
        r3.staging@ == st3.staging,
        r1.store@ == r.store@,
        r2.store@ == r.store@,
        r3.store@ == r.store@,
        update_result(r, st, Change::Put(key, first)) == Ok::<TxModel, Error>(st1),
        update_result(r1, st1, Change::Put(key, second)) == Ok::<TxModel, Error>(st2),
        update_result(r, st, Change::Put(key, second)) == Ok::<TxModel, Error>(st3),
    ensures
        sound_tx(r2, st2, height),
        sound_tx(r3, st3, height),
        forall|k: Seq<u8>, v: Seq<u8>|
            #[trigger] holds(r2, st2.root, height, k, v) == holds(r3, st3.root, height, k, v),
{
    lemma_update_correct(r, r1, st, st1, height, Change::Put(key, first));
    lemma_update_correct(r1, r2, st1, st2, height, Change::Put(key, second));
    lemma_update_correct(r, r3, st, st3, height, Change::Put(key, second));
    assert forall|k: Seq<u8>, v: Seq<u8>|
        #[trigger] holds(r2, st2.root, height, k, v) == holds(r3, st3.root, height, k, v) by {
        assert(holds(r1, st1.root, height, k, v) == (if k == key {
            Some(first) == Some(v)
        } else {
            holds(r, st.root, height, k, v)
        }));
        assert(holds(r3, st3.root, height, k, v) == (if k == key {
            Some(second) == Some(v)
        } else {
            holds(r, st.root, height, k, v)
        }));
    }
}

/// Taking a key out of a sound tree twice is taking it out once: the
/// second time changes nothing.
pub proof fn lemma_remove_twice(
    r: &Staged,
    r1: &Staged,
    st: TxModel,
    st1: TxModel,
    st2: TxModel,
    height: nat,
    key: Seq<u8>,
)
    requires
        sound_tx(r, st, height),
        r1.staging@ == st1.staging,
        r1.store@ == r.store@,
        update_result(r, st, Change::Delete(key)) == Ok::<TxModel, Error>(st1),
        update_result(r1, st1, Change::Delete(key)) == Ok::<TxModel, Error>(st2),
    ensures
        st2 == st1,
{
    lemma_update_correct(r, r1, st, st1, height, Change::Delete(key));
    lemma_found_holds(r1, st1, height, key);
    let path = locate_leaf(r1, st1.root, key)->Ok_0;
    if found_value(path, key) is Some {
        let v = found_value(path, key)->Some_0;
        assert(holds(r1, st1.root, height, key, v));
        assert(false);
    }
}

/// Taking out a key that a sound tree does not have changes nothing.
pub proof fn lemma_remove_absent(r: &Staged, st: TxModel, height: nat, key: Seq<u8>)
    requires
        sound_tx(r, st, height),
        !in_tree(r, st.root, height, key),
    ensures
        update_result(r, st, Change::Delete(key)) matches Ok(after) ==> after == st,
{
    lemma_found_holds(r, st, height, key);
    match locate_leaf(r, st.root, key) {
        Err(_) => {},
        Ok(path) => {
            if found_value(path, key) is Some {
                let v = found_value(path, key)->Some_0;
                lemma_holds_in_tree(r, st.root, height, key, v);
            }
        },
    }
}

/// A write transaction that begins on a search tree in the file is
/// sound.
pub proof fn lemma_new_transaction_sound(r: &Staged, st: TxModel, height: nat)
    requires
        r.staging@ == st.staging,
        st.staging.nodes == Map::<u64, NodeModel>::empty(),
        ordered_tree(r.store, st.root, height, None, None),
    ensures
        sound_tx(r, st, height),
{
    let none = Set::<u64>::empty();
    assert forall|a: u64| #[trigger]
        r.loaded(NodeId::Address(a)) == r.store.loaded(NodeId::Address(a)) by {}
    assert forall|x: u64| r.store.loaded(NodeId::Id(x)) is Ok && !none.contains(x) implies #[trigger] r.loaded(
        NodeId::Id(x),
    ) == r.store.loaded(NodeId::Id(x)) by {}
    lemma_avoids_none(r.store, st.root, height);
    lemma_frame_ordered(r.store, r, none, st.root, height, None, None);
}

} // verus!
