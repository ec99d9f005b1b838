use crate::cursor::{branch_slot, enter, find_from, Frame, with_top_index};
use crate::error::Error;
use crate::key::{key_le, key_lt, lemma_key_order_equal};
use crate::node::{NodeId, NodeModel, search_keys};
use crate::node_laws::{keys_sorted, lemma_search_lower_bound};
use crate::path::linked;
use crate::reader::{Loaded, NodeReader};
use crate::seek_law::holds;
use crate::staging::{Staged, StagingModel};
use crate::store::tail;
use crate::tree::{above, below, branch_keys, child_hi, child_lo, lemma_path_on_tree, ordered_tree};
use vstd::prelude::*;

verus! {

/// The node that entry `i` of the staged branch `a` refers to.
pub open spec fn ref_at(staging: StagingModel, a: u64, i: int) -> NodeId {
    staging.nodes[a]->Branch_0[i].node_id
}

/// Whether `a` is a staged branch with an entry `i`.
pub open spec fn is_entry(staging: StagingModel, a: u64, i: int) -> bool {
    staging.nodes.contains_key(a) && staging.nodes[a] is Branch && 0 <= i
        < staging.nodes[a].len()
}

/// Whether no staged node is referred to by two entries of staged
/// branches.
pub open spec fn unique_refs(staging: StagingModel) -> bool {
    forall|a: u64, i: int, b: u64, j: int|
        is_entry(staging, a, i) && is_entry(staging, b, j) && #[trigger] ref_at(staging, a, i)
            == #[trigger] ref_at(staging, b, j) && ref_at(staging, a, i) is Id ==> a == b && i
            == j
}

/// Whether every staged node that an entry of a staged branch refers to
/// is staged.
pub open spec fn closed_refs(staging: StagingModel) -> bool {
    forall|a: u64, i: int|
        is_entry(staging, a, i) && #[trigger] ref_at(staging, a, i) is Id
            ==> staging.nodes.contains_key(ref_at(staging, a, i)->Id_0)
}

/// The entries of a branch that a write transaction reads from the file
/// refer to pages.
pub proof fn lemma_file_children(r: &Staged, address: u64)
    ensures
        r.loaded(NodeId::Address(address)) matches Ok(n) ==> n.header is Some && (
        n.node matches NodeModel::Branch(es) ==> forall|i: int|
            0 <= i < es.len() ==> (#[trigger] es[i]).node_id is Address),
{
    crate::node_codec::lemma_parsed_node_children(tail(r.store@, address as int));
}

/// A staged node that a write transaction reads is the node that the
/// staging area holds.
pub proof fn lemma_staged_node(r: &Staged, id: u64)
    ensures
        r.loaded(NodeId::Id(id)) matches Ok(n) ==> n.header is None
            && r.staging@.nodes.contains_key(id) && r.staging@.nodes[id] == n.node,
{
}

/// A node is the root of search trees of one height only.
pub proof fn lemma_height_unique<R: NodeReader>(
    r: &R,
    id: NodeId,
    h1: nat,
    lo1: Option<Seq<u8>>,
    hi1: Option<Seq<u8>>,
    h2: nat,
    lo2: Option<Seq<u8>>,
    hi2: Option<Seq<u8>>,
)
    requires
        ordered_tree(r, id, h1, lo1, hi1),
        ordered_tree(r, id, h2, lo2, hi2),
    ensures
        h1 == h2,
    decreases h1,
{
    let n = r.loaded(id)->Ok_0;
    match n.node {
        NodeModel::Leaf(_) => {},
        NodeModel::Branch(es) => {
            assert(ordered_tree(
                r,
                es[0].node_id,
                (h1 - 1) as nat,
                child_lo(es, 0, lo1),
                child_hi(es, 0, hi1),
            ));
            assert(ordered_tree(
                r,
                es[0].node_id,
                (h2 - 1) as nat,
                child_lo(es, 0, lo2),
                child_hi(es, 0, hi2),
            ));
            lemma_height_unique(
                r,
                es[0].node_id,
                (h1 - 1) as nat,
                child_lo(es, 0, lo1),
                child_hi(es, 0, hi1),
                (h2 - 1) as nat,
                child_lo(es, 0, lo2),
                child_hi(es, 0, hi2),
            );
        },
    }
}

/// Whether the tree of height `height` under `id` holds no staged node
/// with a number in `ids`.
pub open spec fn avoids<R: NodeReader>(r: &R, id: NodeId, height: nat, ids: Set<u64>) -> bool
    decreases height,
{
    &&& id matches NodeId::Id(x) ==> !ids.contains(x)
    &&& match r.loaded(id) {
        Ok(n) => match n.node {
            NodeModel::Branch(es) => height > 0 ==> forall|j: int|
                0 <= j < es.len() ==> avoids(
                    r,
                    (#[trigger] es[j]).node_id,
                    (height - 1) as nat,
                    ids,
                ),
            NodeModel::Leaf(_) => true,
        },
        Err(_) => true,
    }
}

/// Whether `r2` reads what `r` reads, but for the staged nodes with a
/// number in `ids`.
pub open spec fn same_but<R: NodeReader, R2: NodeReader>(r: &R, r2: &R2, ids: Set<u64>) -> bool {
    &&& forall|a: u64| #[trigger] r2.loaded(NodeId::Address(a)) == r.loaded(NodeId::Address(a))
    &&& forall|x: u64|
        r.loaded(NodeId::Id(x)) is Ok && !ids.contains(x) ==> #[trigger] r2.loaded(NodeId::Id(x))
            == r.loaded(NodeId::Id(x))
}

/// What a reader reads of one node that is not among those that differ.
pub proof fn lemma_same_node<R: NodeReader, R2: NodeReader>(r: &R, r2: &R2, ids: Set<u64>, id: NodeId)
    requires
        same_but(r, r2, ids),
        r.loaded(id) is Ok,
        id matches NodeId::Id(x) ==> !ids.contains(x),
    ensures
        r2.loaded(id) == r.loaded(id),
{
    match id {
        NodeId::Address(a) => {
            assert(r2.loaded(NodeId::Address(a)) == r.loaded(NodeId::Address(a)));
        },
        NodeId::Id(x) => {
            assert(r2.loaded(NodeId::Id(x)) == r.loaded(NodeId::Id(x)));
        },
    }
}

/// A search tree that holds none of the nodes that differ is the same
/// search tree for both readers.
pub proof fn lemma_frame_ordered<R: NodeReader, R2: NodeReader>(
    r: &R,
    r2: &R2,
    ids: Set<u64>,
    id: NodeId,
    height: nat,
    lo: Option<Seq<u8>>,
    hi: Option<Seq<u8>>,
)
    requires
        same_but(r, r2, ids),
        ordered_tree(r, id, height, lo, hi),
        avoids(r, id, height, ids),
    ensures
        ordered_tree(r2, id, height, lo, hi),
    decreases height,
{
    lemma_same_node(r, r2, ids, id);
    let n = r.loaded(id)->Ok_0;
    match n.node {
        NodeModel::Leaf(_) => {},
        NodeModel::Branch(es) => {
            assert forall|j: int| 0 <= j < es.len() implies ordered_tree(
                r2,
                (#[trigger] es[j]).node_id,
                (height - 1) as nat,
                child_lo(es, j, lo),
                child_hi(es, j, hi),
            ) by {
                assert(ordered_tree(
                    r,
                    es[j].node_id,
                    (height - 1) as nat,
                    child_lo(es, j, lo),
                    child_hi(es, j, hi),
                ));
                assert(avoids(r, es[j].node_id, (height - 1) as nat, ids));
                lemma_frame_ordered(
                    r,
                    r2,
                    ids,
                    es[j].node_id,
                    (height - 1) as nat,
                    child_lo(es, j, lo),
                    child_hi(es, j, hi),
                );
            }
        },
    }
}

/// A search tree that holds none of the nodes that differ holds the same
/// values under the same keys for both readers.
pub proof fn lemma_frame_holds<R: NodeReader, R2: NodeReader>(
    r: &R,
    r2: &R2,
    ids: Set<u64>,
    id: NodeId,
    height: nat,
    lo: Option<Seq<u8>>,
    hi: Option<Seq<u8>>,
    key: Seq<u8>,
    value: Seq<u8>,
)
    requires
        same_but(r, r2, ids),
        ordered_tree(r, id, height, lo, hi),
        avoids(r, id, height, ids),
    ensures
        holds(r2, id, height, key, value) == holds(r, id, height, key, value),
    decreases height,
{
    lemma_same_node(r, r2, ids, id);
    let n = r.loaded(id)->Ok_0;
    match n.node {
        NodeModel::Leaf(_) => {},
        NodeModel::Branch(es) => {
            assert forall|j: int| 0 <= j < es.len() implies holds(
                r2,
                (#[trigger] es[j]).node_id,
                (height - 1) as nat,
                key,
                value,
            ) == holds(r, es[j].node_id, (height - 1) as nat, key, value) by {
                assert(ordered_tree(
                    r,
                    es[j].node_id,
                    (height - 1) as nat,
                    child_lo(es, j, lo),
                    child_hi(es, j, hi),
                ));
                assert(avoids(r, es[j].node_id, (height - 1) as nat, ids));
                lemma_frame_holds(
                    r,
                    r2,
                    ids,
                    es[j].node_id,
                    (height - 1) as nat,
                    child_lo(es, j, lo),
                    child_hi(es, j, hi),
                    key,
                    value,
                );
            }
            if holds(r, id, height, key, value) {
                let j = choose|j: int|
                    0 <= j < es.len() && holds(
                        r,
                        (#[trigger] es[j]).node_id,
                        (height - 1) as nat,
                        key,
                        value,
                    );
                assert(holds(r2, es[j].node_id, (height - 1) as nat, key, value));
            }
            if holds(r2, id, height, key, value) {
                let j = choose|j: int|
                    0 <= j < es.len() && holds(
                        r2,
                        (#[trigger] es[j]).node_id,
                        (height - 1) as nat,
                        key,
                        value,
                    );
                assert(holds(r, es[j].node_id, (height - 1) as nat, key, value));
            }
        },
    }
}

/// The staged nodes that an update may change or add: those on `path`,
/// and those with a number from `first` on.
pub open spec fn touched(path: Seq<Frame>, first: u64) -> Set<u64> {
    Set::new(
        |x: u64|
            x >= first || exists|d: int|
                0 <= d < path.len() && (#[trigger] path[d]).node_id == NodeId::Id(x),
    )
}

/// A tree that hangs off a path, in a tree in which no staged node is
/// referred to twice, holds none of the staged nodes on the path and none
/// with a number that has not been given out.
pub proof fn lemma_off_path(
    r: &Staged,
    path: Seq<Frame>,
    height: nat,
    y: NodeId,
    l: int,
    lo: Option<Seq<u8>>,
    hi: Option<Seq<u8>>,
)
    requires
        linked(r, path),
        ordered_tree(r, path[0].node_id, height, None, None),
        unique_refs(r.staging@),
        r.staging@.fresh(),
        0 <= l <= height,
        ordered_tree(r, y, (height - l) as nat, lo, hi),
        l < path.len() ==> (y != path[l].node_id || path[l].node_id is Address),
    ensures
        avoids(r, y, (height - l) as nat, touched(path, r.staging@.next_node_id)),
    decreases height - l,
{
    let ids = touched(path, r.staging@.next_node_id);
    let st = r.staging@;
    if y is Id {
        let x = y->Id_0;
        lemma_staged_node(r, x);
        assert(x < st.next_node_id);
        if exists|d: int| 0 <= d < path.len() && (#[trigger] path[d]).node_id == NodeId::Id(x) {
            let d = choose|d: int|
                0 <= d < path.len() && (#[trigger] path[d]).node_id == NodeId::Id(x);
            lemma_path_on_tree(r, path, height, d);
            let (lo2, hi2) = choose|lo2: Option<Seq<u8>>, hi2: Option<Seq<u8>>| #[trigger]
                ordered_tree(r, path[d].node_id, (height - d) as nat, lo2, hi2);
            lemma_height_unique(
                r,
                y,
                (height - l) as nat,
                lo,
                hi,
                (height - d) as nat,
                lo2,
                hi2,
            );
            assert(l == d);
        }
        assert(!ids.contains(x));
    }
    let n = r.loaded(y)->Ok_0;
    match n.node {
        NodeModel::Leaf(_) => {},
        NodeModel::Branch(es) => {
            let h = (height - l) as nat;
            assert(h > 0);
            assert forall|j: int| 0 <= j < es.len() implies avoids(
                r,
                (#[trigger] es[j]).node_id,
                (h - 1) as nat,
                ids,
            ) by {
                let child = es[j].node_id;
                assert(ordered_tree(r, child, (h - 1) as nat, child_lo(es, j, lo), child_hi(es, j, hi)));
                assert((h - 1) as nat == (height - (l + 1)) as nat);
                if l + 1 < path.len() && child == path[l + 1].node_id && child is Id {
                    // Then two entries refer to the same staged node.
                    assert(r.loaded(path[l].node_id) == Ok::<Loaded, Error>(path[l].node));
                    let at = path[l].index as int;
                    let pes = path[l].node.node->Branch_0;
                    assert(pes[at].node_id == path[l + 1].node_id);
                    match y {
                        NodeId::Address(a) => {
                            lemma_file_children(r, a);
                            assert(es[j].node_id is Address);
                        },
                        NodeId::Id(a) => {
                            lemma_staged_node(r, a);
                            match path[l].node_id {
                                NodeId::Address(b) => {
                                    lemma_file_children(r, b);
                                    assert(pes[at].node_id is Address);
                                },
                                NodeId::Id(b) => {
                                    lemma_staged_node(r, b);
                                    assert(is_entry(st, a, j));
                                    assert(is_entry(st, b, at));
                                    assert(ref_at(st, a, j) == ref_at(st, b, at));
                                    assert(a == b);
                                },
                            }
                        },
                    }
                    assert(false);
                }
                lemma_off_path(
                    r,
                    path,
                    height,
                    child,
                    l + 1,
                    child_lo(es, j, lo),
                    child_hi(es, j, hi),
                );
            }
        },
    }
}

/// The bound from below for the keys under level `d` of `path`.
pub open spec fn path_lo(path: Seq<Frame>, d: int) -> Option<Seq<u8>>
    decreases d,
{
    if d <= 0 {
        None
    } else {
        child_lo(
            path[d - 1].node.node->Branch_0,
            path[d - 1].index as int,
            path_lo(path, d - 1),
        )
    }
}

/// The bound from above for the keys under level `d` of `path`.
pub open spec fn path_hi(path: Seq<Frame>, d: int) -> Option<Seq<u8>>
    decreases d,
{
    if d <= 0 {
        None
    } else {
        child_hi(
            path[d - 1].node.node->Branch_0,
            path[d - 1].index as int,
            path_hi(path, d - 1),
        )
    }
}

/// Every level of a path in a search tree is a search tree for the bounds
/// that the levels above it set.
pub proof fn lemma_path_bounds<R: NodeReader>(r: &R, path: Seq<Frame>, height: nat, d: int)
    requires
        linked(r, path),
        ordered_tree(r, path[0].node_id, height, None, None),
        0 <= d < path.len(),
    ensures
        d <= height,
        ordered_tree(r, path[d].node_id, (height - d) as nat, path_lo(path, d), path_hi(path, d)),
    decreases d,
{
    if d > 0 {
        lemma_path_bounds(r, path, height, d - 1);
        let up = d - 1;
        assert(r.loaded(path[up].node_id) == Ok::<Loaded, Error>(path[up].node));
        let es = path[up].node.node->Branch_0;
        let j = path[up].index as int;
        assert(es[j].node_id == path[d].node_id);
        assert(ordered_tree(
            r,
            es[j].node_id,
            (height - up - 1) as nat,
            child_lo(es, j, path_lo(path, up)),
            child_hi(es, j, path_hi(path, up)),
        ));
    }
}

/// Whether `path` goes down through the entries that a search for `key`
/// goes through.
pub open spec fn routed(path: Seq<Frame>, key: Seq<u8>) -> bool {
    forall|d: int|
        0 <= d < path.len() - 1 ==> (#[trigger] path[d]).index == branch_slot(
            branch_keys(path[d].node.node->Branch_0),
            key,
        )
}

/// The entry that a search goes down through has a key that is not after
/// the key looked for, where it is not the first entry, and the entry
/// after it has a key after the key looked for.
pub proof fn lemma_slot_keys(keys: Seq<Seq<u8>>, key: Seq<u8>)
    requires
        keys_sorted(keys),
        keys.len() > 0,
    ensures
        0 <= branch_slot(keys, key) < keys.len(),
        branch_slot(keys, key) >= 1 ==> key_le(keys[branch_slot(keys, key)], key),
        branch_slot(keys, key) + 1 < keys.len() ==> key_lt(key, keys[branch_slot(keys, key) + 1]),
{
    lemma_search_lower_bound(keys, key, 0, keys.len() as int);
    let (found, index) = search_keys(keys, key, 0, keys.len() as int);
    let slot = branch_slot(keys, key);
    if found {
        lemma_key_order_equal(keys[slot], key);
        if slot + 1 < keys.len() {
            assert(key_lt(keys[slot], keys[slot + 1]));
        }
    } else if index > 0 {
        assert(key_lt(keys[index - 1], key));
    }
}

/// The key that a path is routed by lies within the bounds of every level
/// of the path.
pub proof fn lemma_key_in_bounds<R: NodeReader>(r: &R, path: Seq<Frame>, height: nat, key: Seq<u8>, d: int)
    requires
        linked(r, path),
        ordered_tree(r, path[0].node_id, height, None, None),
        routed(path, key),
        0 <= d < path.len(),
    ensures
        above(path_lo(path, d), key),
        below(key, path_hi(path, d)),
    decreases d,
{
    if d > 0 {
        lemma_key_in_bounds(r, path, height, key, d - 1);
        lemma_path_bounds(r, path, height, d - 1);
        let up = d - 1;
        assert(r.loaded(path[up].node_id) == Ok::<Loaded, Error>(path[up].node));
        let es = path[up].node.node->Branch_0;
        let keys = branch_keys(es);
        lemma_slot_keys(keys, key);
        let slot = path[up].index as int;
        assert(slot == branch_slot(keys, key));
        if slot >= 1 {
            assert(keys[slot] == es[slot].key);
        }
        if slot + 1 < es.len() {
            assert(keys[slot + 1] == es[slot + 1].key);
        }
    }
}

/// A path to the leaf in which a key belongs goes down through the
/// entries that a search for the key goes through, and ends at the index
/// at which the search by halving in the leaf ends.
pub proof fn lemma_find_routed<R: NodeReader>(r: &R, stack: Seq<Frame>, key: Seq<u8>, fuel: nat)
    requires
        stack.len() > 0,
        forall|d: int|
            0 <= d < stack.len() - 1 ==> (#[trigger] stack[d]).index == branch_slot(
                branch_keys(stack[d].node.node->Branch_0),
                key,
            ),
    ensures
        find_from(r, stack, key, fuel) matches Ok(end) ==> routed(end, key) && end.last().index
            == search_keys(
            end.last().node.node.keys(),
            key,
            0,
            end.last().len() as int,
        ).1,
    decreases fuel,
{
    let top = stack.last();
    match top.node.node {
        NodeModel::Branch(es) => {
            if !(es.len() == 0 || fuel == 0) {
                let keys = top.node.node.keys();
                assert(keys =~= branch_keys(es));
                let slot = branch_slot(keys, key);
                let child = es[slot].node_id;
                match r.loaded(child) {
                    Err(_) => {},
                    Ok(node) => {
                        let next = with_top_index(stack, slot as nat).push(
                            enter(node, child, false),
                        );
                        assert forall|d: int| 0 <= d < next.len() - 1 implies (
                        #[trigger] next[d]).index == branch_slot(
                            branch_keys(next[d].node.node->Branch_0),
                            key,
                        ) by {
                            if d < stack.len() - 1 {
                                assert(next[d] == stack[d]);
                            } else {
                                crate::path::lemma_search_bounds(keys, key, 0, keys.len() as int);
                                assert(next[d] == top.at(slot as nat));
                                assert(next[d].node.node->Branch_0 == es);
                                assert(branch_keys(es) == keys);
                                assert(next[d].index == slot as nat);
                            }
                        }
                        lemma_find_routed(r, next, key, (fuel - 1) as nat);
                    },
                }
            }
        },
        NodeModel::Leaf(es) => {
            let end = with_top_index(
                stack,
                search_keys(top.node.node.keys(), key, 0, es.len() as int).1 as nat,
            );
            crate::path::lemma_search_bounds(top.node.node.keys(), key, 0, es.len() as int);
            assert forall|d: int| 0 <= d < end.len() - 1 implies (#[trigger] end[d]).index
                == branch_slot(branch_keys(end[d].node.node->Branch_0), key) by {
                assert(end[d] == stack[d]);
            }
        },
    }
}

} // verus!
