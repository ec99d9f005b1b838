use crate::cursor::Frame;
use crate::error::Error;
use crate::key::{
    key_le, key_lt, lemma_key_lt_le_transitive, lemma_key_lt_transitive, lemma_key_order_equal,
};
use crate::node::{BranchEntry, LeafEntry, NodeId, NodeModel};
use crate::node_laws::keys_sorted;
use crate::path::linked;
use crate::reader::NodeReader;
use vstd::prelude::*;

verus! {

/// Whether `k` is not before the bound `lo`; no bound holds nothing back.
pub open spec fn above(lo: Option<Seq<u8>>, k: Seq<u8>) -> bool {
    lo matches Some(l) ==> key_le(l, k)
}

/// Whether `k` is before the bound `hi`; no bound holds nothing back.
pub open spec fn below(k: Seq<u8>, hi: Option<Seq<u8>>) -> bool {
    hi matches Some(h) ==> key_lt(k, h)
}

/// The bound from below for the keys under entry `i` of a branch with the
/// bound `lo`: the key of the entry, and for the first entry the bound of
/// the branch.
pub open spec fn child_lo(es: Seq<BranchEntry>, i: int, lo: Option<Seq<u8>>) -> Option<Seq<u8>> {
    if i == 0 {
        lo
    } else {
        Some(es[i].key)
    }
}

/// The bound from above for the keys under entry `i` of a branch with the
/// bound `hi`: the key of the next entry, and for the last entry the bound
/// of the branch.
pub open spec fn child_hi(es: Seq<BranchEntry>, i: int, hi: Option<Seq<u8>>) -> Option<Seq<u8>> {
    if i + 1 < es.len() {
        Some(es[i + 1].key)
    } else {
        hi
    }
}

/// The keys of the entries of a branch, in their order.
pub open spec fn branch_keys(es: Seq<BranchEntry>) -> Seq<Seq<u8>> {
    Seq::new(es.len(), |i: int| es[i].key)
}

/// The keys of the entries of a leaf, in their order.
pub open spec fn leaf_keys(es: Seq<LeafEntry>) -> Seq<Seq<u8>> {
    Seq::new(es.len(), |i: int| es[i].key)
}

/// Whether the tree of height `height` under `id`, as `r` reads it, is a
/// search tree for keys from `lo` up to `hi`: its leaves are all
/// `height` levels down; the keys of every node grow strictly; the keys
/// of a leaf lie within the bounds; and the keys under an entry of a
/// branch lie from the key of the entry up to the key of the next, where
/// the key of the first entry does not count.
pub open spec fn ordered_tree<R: NodeReader>(
    r: &R,
    id: NodeId,
    height: nat,
    lo: Option<Seq<u8>>,
    hi: Option<Seq<u8>>,
) -> bool
    decreases height,
{
    match r.loaded(id) {
        Err(_) => false,
        Ok(n) => match n.node {
            NodeModel::Leaf(es) => {
                &&& height == 0
                &&& keys_sorted(leaf_keys(es))
                &&& forall|j: int|
                    0 <= j < es.len() ==> above(lo, (#[trigger] es[j]).key) && below(es[j].key, hi)
            },
            NodeModel::Branch(es) => {
                &&& height > 0
                &&& es.len() > 0
                &&& keys_sorted(branch_keys(es))
                &&& forall|j: int|
                    1 <= j < es.len() ==> above(lo, (#[trigger] es[j]).key) && below(es[j].key, hi)
                &&& forall|j: int|
                    0 <= j < es.len() ==> ordered_tree(
                        r,
                        (#[trigger] es[j]).node_id,
                        (height - 1) as nat,
                        child_lo(es, j, lo),
                        child_hi(es, j, hi),
                    )
            },
        },
    }
}

/// Whether `k` is a key of the tree of height `height` under `id`.
pub open spec fn in_tree<R: NodeReader>(r: &R, id: NodeId, height: nat, k: Seq<u8>) -> bool
    decreases height,
{
    match r.loaded(id) {
        Err(_) => false,
        Ok(n) => match n.node {
            NodeModel::Leaf(es) => exists|j: int| 0 <= j < es.len() && (#[trigger] es[j]).key == k,
            NodeModel::Branch(es) => height > 0 && exists|j: int|
                0 <= j < es.len() && in_tree(r, (#[trigger] es[j]).node_id, (height - 1) as nat, k),
        },
    }
}

/// A key that is not before `a` is not before a bound that `a` is not
/// before.
pub proof fn lemma_above_trans(lo: Option<Seq<u8>>, a: Seq<u8>, k: Seq<u8>)
    requires
        above(lo, a),
        key_le(a, k),
    ensures
        above(lo, k),
{
    if lo is Some {
        let l = lo->Some_0;
        lemma_key_order_equal(l, a);
        lemma_key_order_equal(a, k);
        if l != a && a != k {
            lemma_key_lt_transitive(l, a, k);
        }
    }
}

/// A key before `b` is before a bound that `b` is before or equal to.
pub proof fn lemma_below_trans(k: Seq<u8>, b: Seq<u8>, hi: Option<Seq<u8>>)
    requires
        key_lt(k, b),
        below(b, hi) || hi == Some(b),
    ensures
        below(k, hi),
{
    if hi is Some {
        let h = hi->Some_0;
        if h != b {
            lemma_key_lt_transitive(k, b, h);
        }
    }
}

/// The keys of a search tree lie within its bounds.
pub proof fn lemma_tree_bounds<R: NodeReader>(
    r: &R,
    id: NodeId,
    height: nat,
    lo: Option<Seq<u8>>,
    hi: Option<Seq<u8>>,
    k: Seq<u8>,
)
    requires
        ordered_tree(r, id, height, lo, hi),
        in_tree(r, id, height, k),
    ensures
        above(lo, k),
        below(k, hi),
    decreases height,
{
    let n = r.loaded(id)->Ok_0;
    match n.node {
        NodeModel::Leaf(es) => {
            let j = choose|j: int| 0 <= j < es.len() && (#[trigger] es[j]).key == k;
            assert(above(lo, es[j].key));
        },
        NodeModel::Branch(es) => {
            let j = choose|j: int|
                0 <= j < es.len() && in_tree(r, (#[trigger] es[j]).node_id, (height - 1) as nat, k);
            assert(ordered_tree(
                r,
                es[j].node_id,
                (height - 1) as nat,
                child_lo(es, j, lo),
                child_hi(es, j, hi),
            ));
            lemma_tree_bounds(
                r,
                es[j].node_id,
                (height - 1) as nat,
                child_lo(es, j, lo),
                child_hi(es, j, hi),
                k,
            );
            if j > 0 {
                assert(above(lo, es[j].key));
                lemma_above_trans(lo, es[j].key, k);
            }
            if j + 1 < es.len() {
                assert(below(es[j + 1].key, hi));
                lemma_below_trans(k, es[j + 1].key, hi);
            }
        },
    }
}

/// Whether the tree of height `height` under `id` is a search tree for
/// some bounds.
pub open spec fn some_ordered<R: NodeReader>(r: &R, id: NodeId, height: nat) -> bool {
    exists|lo: Option<Seq<u8>>, hi: Option<Seq<u8>>| #[trigger] ordered_tree(r, id, height, lo, hi)
}

/// Whether every level of `path` is a search tree, the root of height
/// `height` and each level below one less.
pub open spec fn on_ordered_tree<R: NodeReader>(r: &R, path: Seq<Frame>, height: nat) -> bool {
    &&& path.len() <= height + 1
    &&& forall|d: int|
        0 <= d < path.len() ==> some_ordered(r, (#[trigger] path[d]).node_id, (height - d) as nat)
}

/// A path in a search tree goes through search trees.
pub proof fn lemma_path_on_tree<R: NodeReader>(r: &R, path: Seq<Frame>, height: nat, upto: int)
    requires
        linked(r, path),
        ordered_tree(r, path[0].node_id, height, None, None),
        0 <= upto < path.len(),
    ensures
        upto <= height,
        some_ordered(r, path[upto].node_id, (height - upto) as nat),
    decreases upto,
{
    if upto > 0 {
        lemma_path_on_tree(r, path, height, upto - 1);
        let d = upto - 1;
        let (lo, hi) = choose|lo: Option<Seq<u8>>, hi: Option<Seq<u8>>| #[trigger]
            ordered_tree(r, path[d].node_id, (height - d) as nat, lo, hi);
        assert(r.loaded(path[d].node_id) == Ok::<crate::reader::Loaded, Error>(path[d].node));
        let es = path[d].node.node->Branch_0;
        let j = path[d].index as int;
        assert(es[j].node_id == path[upto].node_id);
        assert(ordered_tree(
            r,
            es[j].node_id,
            (height - d - 1) as nat,
            child_lo(es, j, lo),
            child_hi(es, j, hi),
        ));
    }
}

/// Whether `k` is a key under an entry before the entry that `path`
/// goes through at level `d`, a branch.
pub open spec fn left_at<R: NodeReader>(r: &R, path: Seq<Frame>, height: nat, d: int, k: Seq<u8>) -> bool {
    path[d].node.node is Branch && exists|j: int|
        0 <= j < path[d].index && j < path[d].len() && in_tree(
            r,
            (#[trigger] path[d].node.node->Branch_0[j]).node_id,
            (height - d - 1) as nat,
            k,
        )
}

/// Whether `k` is a key under an entry after the entry that `path` goes
/// through at level `d`, a branch.
pub open spec fn right_at<R: NodeReader>(r: &R, path: Seq<Frame>, height: nat, d: int, k: Seq<u8>) -> bool {
    path[d].node.node is Branch && exists|j: int|
        path[d].index < j < path[d].len() && in_tree(
            r,
            (#[trigger] path[d].node.node->Branch_0[j]).node_id,
            (height - d - 1) as nat,
            k,
        )
}

/// Whether `k` is the key of an entry of the leaf at the end of `path`
/// before the index there.
pub open spec fn left_in_leaf(path: Seq<Frame>, k: Seq<u8>) -> bool {
    path.last().node.node is Leaf && exists|j: int|
        0 <= j < path.last().index && j < path.last().len() && (
        #[trigger] path.last().node.node->Leaf_0[j]).key == k
}

/// Whether `k` is the key of the entry of the leaf at the end of `path`
/// at the index there, or of an entry after it.
pub open spec fn right_in_leaf(path: Seq<Frame>, k: Seq<u8>) -> bool {
    path.last().node.node is Leaf && exists|j: int|
        path.last().index <= j < path.last().len() && (
        #[trigger] path.last().node.node->Leaf_0[j]).key == k
}

/// Whether `k` is a key of the tree under level `from` of `path` that
/// comes before the place where `path` stands.
pub open spec fn left_from<R: NodeReader>(r: &R, path: Seq<Frame>, height: nat, from: int, k: Seq<u8>) -> bool {
    (exists|d: int| from <= d < path.len() - 1 && #[trigger] left_at(r, path, height, d, k))
        || left_in_leaf(path, k)
}

/// Whether `k` is a key of the tree under level `from` of `path` at the
/// place where `path` stands or after it.
pub open spec fn right_from<R: NodeReader>(r: &R, path: Seq<Frame>, height: nat, from: int, k: Seq<u8>) -> bool {
    (exists|d: int| from <= d < path.len() - 1 && #[trigger] right_at(r, path, height, d, k))
        || right_in_leaf(path, k)
}

/// Whether `k` is a key of the tree that comes before the place where
/// `path` stands.
pub open spec fn left_of<R: NodeReader>(r: &R, path: Seq<Frame>, height: nat, k: Seq<u8>) -> bool {
    left_from(r, path, height, 0, k)
}

/// Whether `k` is a key of the tree at the place where `path` stands or
/// after it.
pub open spec fn right_of<R: NodeReader>(r: &R, path: Seq<Frame>, height: nat, k: Seq<u8>) -> bool {
    right_from(r, path, height, 0, k)
}

/// Every key of the tree under a level of a path comes before the place
/// where the path stands, or stands there or after it.
pub proof fn lemma_cover<R: NodeReader>(r: &R, path: Seq<Frame>, height: nat, d: int, k: Seq<u8>)
    requires
        linked(r, path),
        path.last().node.node is Leaf,
        path.len() <= height + 1,
        0 <= d < path.len(),
        in_tree(r, path[d].node_id, (height - d) as nat, k),
    ensures
        left_from(r, path, height, d, k) || right_from(r, path, height, d, k),
        left_of(r, path, height, k) || right_of(r, path, height, k),
    decreases path.len() - d,
{
    assert(r.loaded(path[d].node_id) == Ok::<crate::reader::Loaded, Error>(path[d].node));
    if d == path.len() - 1 {
        let es = path[d].node.node->Leaf_0;
        let j = choose|j: int| 0 <= j < es.len() && (#[trigger] es[j]).key == k;
        assert(path.last() == path[d]);
        if j < path[d].index {
            assert(left_in_leaf(path, k));
        } else {
            assert(right_in_leaf(path, k));
        }
    } else {
        assert(path[d].node.node is Branch);
        let es = path[d].node.node->Branch_0;
        let h = (height - d) as nat;
        assert(h > 0);
        assert((h - 1) as nat == (height - d - 1) as nat);
        let j = choose|j: int|
            0 <= j < es.len() && in_tree(r, (#[trigger] es[j]).node_id, (h - 1) as nat, k);
        if j < path[d].index {
            assert(in_tree(r, es[j].node_id, (height - d - 1) as nat, k));
            assert(left_at(r, path, height, d, k));
        } else if j > path[d].index {
            assert(in_tree(r, es[j].node_id, (height - d - 1) as nat, k));
            assert(right_at(r, path, height, d, k));
        } else {
            assert(es[j].node_id == path[d + 1].node_id);
            assert((height - (d + 1)) as nat == (h - 1) as nat);
            lemma_cover(r, path, height, d + 1, k);
            if left_from(r, path, height, d + 1, k) {
                if !left_in_leaf(path, k) {
                    let e = choose|e: int|
                        d + 1 <= e < path.len() - 1 && #[trigger] left_at(r, path, height, e, k);
                    assert(d <= e);
                }
            } else {
                if !right_in_leaf(path, k) {
                    let e = choose|e: int|
                        d + 1 <= e < path.len() - 1 && #[trigger] right_at(r, path, height, e, k);
                    assert(d <= e);
                }
            }
        }
    }
    if left_from(r, path, height, d, k) {
        if !left_in_leaf(path, k) {
            let e = choose|e: int|
                d <= e < path.len() - 1 && #[trigger] left_at(r, path, height, e, k);
            assert(0 <= e);
        }
    } else {
        if !right_in_leaf(path, k) {
            let e = choose|e: int|
                d <= e < path.len() - 1 && #[trigger] right_at(r, path, height, e, k);
            assert(0 <= e);
        }
    }
}

/// A key of the tree under a level of a path is a key of the tree under
/// every level above it.
pub proof fn lemma_climb<R: NodeReader>(r: &R, path: Seq<Frame>, height: nat, d: int, e: int, k: Seq<u8>)
    requires
        linked(r, path),
        path.len() <= height + 1,
        0 <= d <= e < path.len(),
        in_tree(r, path[e].node_id, (height - e) as nat, k),
    ensures
        in_tree(r, path[d].node_id, (height - d) as nat, k),
    decreases e - d,
{
    if d < e {
        let up = e - 1;
        assert(r.loaded(path[up].node_id) == Ok::<crate::reader::Loaded, Error>(path[up].node));
        let es = path[up].node.node->Branch_0;
        let j = path[up].index as int;
        assert(es[j].node_id == path[e].node_id);
        let h = (height - up) as nat;
        assert((h - 1) as nat == (height - e) as nat);
        assert(in_tree(r, es[j].node_id, (h - 1) as nat, k));
        assert(in_tree(r, path[up].node_id, h, k));
        lemma_climb(r, path, height, d, up, k);
    }
}

/// A key under an entry of a level of a path is a key of the tree under
/// that level.
pub proof fn lemma_child_in_tree<R: NodeReader>(r: &R, path: Seq<Frame>, height: nat, e: int, j: int, k: Seq<u8>)
    requires
        linked(r, path),
        path.len() <= height + 1,
        0 <= e < path.len() - 1,
        0 <= j < path[e].len(),
        in_tree(r, path[e].node.node->Branch_0[j].node_id, (height - e - 1) as nat, k),
    ensures
        in_tree(r, path[e].node_id, (height - e) as nat, k),
{
    assert(r.loaded(path[e].node_id) == Ok::<crate::reader::Loaded, Error>(path[e].node));
    let es = path[e].node.node->Branch_0;
    let h = (height - e) as nat;
    assert((h - 1) as nat == (height - e - 1) as nat);
    assert(in_tree(r, es[j].node_id, (h - 1) as nat, k));
}

/// The key of an entry of the leaf at the end of a path is a key of the
/// tree under that leaf.
pub proof fn lemma_entry_in_tree<R: NodeReader>(r: &R, path: Seq<Frame>, height: nat, j: int)
    requires
        linked(r, path),
        path.last().node.node is Leaf,
        0 <= j < path.last().len(),
    ensures
        in_tree(
            r,
            path.last().node_id,
            (height - (path.len() - 1)) as nat,
            path.last().node.node->Leaf_0[j].key,
        ),
{
    let n = path.len() - 1;
    assert(r.loaded(path[n].node_id) == Ok::<crate::reader::Loaded, Error>(path[n].node));
    let es = path[n].node.node->Leaf_0;
    assert(es[j].key == path.last().node.node->Leaf_0[j].key);
}

/// The key at which a path stands is a key of the tree under each of its
/// levels.
pub proof fn lemma_end_in_tree<R: NodeReader>(r: &R, path: Seq<Frame>, height: nat, d: int)
    requires
        linked(r, path),
        path.last().node.node is Leaf,
        path.last().index < path.last().len(),
        path.len() <= height + 1,
        0 <= d < path.len(),
    ensures
        in_tree(
            r,
            path[d].node_id,
            (height - d) as nat,
            path.last().node.node->Leaf_0[path.last().index as int].key,
        ),
    decreases path.len() - d,
{
    assert(r.loaded(path[d].node_id) == Ok::<crate::reader::Loaded, Error>(path[d].node));
    let cur = path.last().node.node->Leaf_0[path.last().index as int].key;
    if d == path.len() - 1 {
        let es = path[d].node.node->Leaf_0;
        assert(es[path[d].index as int].key == cur);
    } else {
        lemma_end_in_tree(r, path, height, d + 1);
        let es = path[d].node.node->Branch_0;
        let j = path[d].index as int;
        assert(es[j].node_id == path[d + 1].node_id);
        let h = (height - d) as nat;
        assert((h - 1) as nat == (height - (d + 1)) as nat);
        assert(in_tree(r, es[j].node_id, (h - 1) as nat, cur));
    }
}

/// The keys under entry `j` of level `d` of a path in a search tree lie
/// from the key of the entry, where it is not the first, up to the key of
/// the next entry, where there is one; and the keys of the entries of the
/// level grow strictly.
pub proof fn lemma_level_bounds<R: NodeReader>(
    r: &R,
    path: Seq<Frame>,
    height: nat,
    d: int,
    j: int,
    k: Seq<u8>,
)
    requires
        linked(r, path),
        ordered_tree(r, path[0].node_id, height, None, None),
        0 <= d < path.len() - 1,
        0 <= j < path[d].len(),
        in_tree(r, path[d].node.node->Branch_0[j].node_id, (height - d - 1) as nat, k),
    ensures
        j >= 1 ==> key_le(path[d].node.node->Branch_0[j].key, k),
        j + 1 < path[d].len() ==> key_lt(k, path[d].node.node->Branch_0[j + 1].key),
        keys_sorted(branch_keys(path[d].node.node->Branch_0)),
{
    let es = path[d].node.node->Branch_0;
    lemma_path_on_tree(r, path, height, d);
    let (lo, hi) = choose|lo: Option<Seq<u8>>, hi: Option<Seq<u8>>| #[trigger]
        ordered_tree(r, path[d].node_id, (height - d) as nat, lo, hi);
    assert(r.loaded(path[d].node_id) == Ok::<crate::reader::Loaded, Error>(path[d].node));
    let h = (height - d) as nat;
    assert((h - 1) as nat == (height - d - 1) as nat);
    assert(ordered_tree(r, es[j].node_id, (h - 1) as nat, child_lo(es, j, lo), child_hi(es, j, hi)));
    lemma_tree_bounds(r, es[j].node_id, (h - 1) as nat, child_lo(es, j, lo), child_hi(es, j, hi), k);
}

/// The keys of the leaf at the end of a path in a search tree grow
/// strictly.
pub proof fn lemma_leaf_sorted<R: NodeReader>(r: &R, path: Seq<Frame>, height: nat)
    requires
        linked(r, path),
        path.last().node.node is Leaf,
        ordered_tree(r, path[0].node_id, height, None, None),
    ensures
        keys_sorted(leaf_keys(path.last().node.node->Leaf_0)),
{
    let n = path.len() as int;
    lemma_path_on_tree(r, path, height, n - 1);
    let (lo, hi) = choose|lo: Option<Seq<u8>>, hi: Option<Seq<u8>>| #[trigger]
        ordered_tree(r, path[n - 1].node_id, (height - (n - 1)) as nat, lo, hi);
    assert(r.loaded(path[n - 1].node_id) == Ok::<crate::reader::Loaded, Error>(path[n - 1].node));
}

/// Every key that comes before the place where a path stands in a search
/// tree is before the key at which the path stands.
pub proof fn lemma_left_before<R: NodeReader>(r: &R, path: Seq<Frame>, height: nat, k: Seq<u8>)
    requires
        linked(r, path),
        path.last().node.node is Leaf,
        path.last().index < path.last().len(),
        ordered_tree(r, path[0].node_id, height, None, None),
        left_of(r, path, height, k),
    ensures
        key_lt(k, path.last().node.node->Leaf_0[path.last().index as int].key),
{
    let n = path.len() as int;
    let leaf = path.last().node.node->Leaf_0;
    let cur = leaf[path.last().index as int].key;
    lemma_path_on_tree(r, path, height, n - 1);
    if left_in_leaf(path, k) {
        let j = choose|j: int|
            0 <= j < path.last().index && j < path.last().len() && (#[trigger] leaf[j]).key == k;
        lemma_leaf_sorted(r, path, height);
        assert(key_lt(leaf_keys(leaf)[j], leaf_keys(leaf)[path.last().index as int]));
    } else {
        let d = choose|d: int| 0 <= d < path.len() - 1 && #[trigger] left_at(r, path, height, d, k);
        let es = path[d].node.node->Branch_0;
        let at = path[d].index as int;
        let j = choose|j: int|
            0 <= j < path[d].index && j < path[d].len() && in_tree(
                r,
                (#[trigger] es[j]).node_id,
                (height - d - 1) as nat,
                k,
            );
        lemma_level_bounds(r, path, height, d, j, k);
        lemma_end_in_tree(r, path, height, d + 1);
        assert(es[at].node_id == path[d + 1].node_id);
        assert((height - (d + 1)) as nat == (height - d - 1) as nat);
        lemma_level_bounds(r, path, height, d, at, cur);
        if j + 1 < at {
            assert(key_lt(branch_keys(es)[j + 1], branch_keys(es)[at]));
            lemma_key_lt_transitive(k, es[j + 1].key, es[at].key);
        }
        lemma_key_lt_le_transitive(k, es[at].key, cur);
    }
}

/// Every key at the place where a path stands in a search tree, or after
/// it, is the key at which the path stands or comes after it.
pub proof fn lemma_right_after<R: NodeReader>(r: &R, path: Seq<Frame>, height: nat, k: Seq<u8>)
    requires
        linked(r, path),
        path.last().node.node is Leaf,
        path.last().index < path.last().len(),
        ordered_tree(r, path[0].node_id, height, None, None),
        right_of(r, path, height, k),
    ensures
        key_le(path.last().node.node->Leaf_0[path.last().index as int].key, k),
{
    let n = path.len() as int;
    let leaf = path.last().node.node->Leaf_0;
    let at_leaf = path.last().index as int;
    let cur = leaf[at_leaf].key;
    lemma_path_on_tree(r, path, height, n - 1);
    if right_in_leaf(path, k) {
        let j = choose|j: int|
            path.last().index <= j < path.last().len() && (#[trigger] leaf[j]).key == k;
        lemma_leaf_sorted(r, path, height);
        if at_leaf < j {
            assert(key_lt(leaf_keys(leaf)[at_leaf], leaf_keys(leaf)[j]));
        } else {
            lemma_key_order_equal(cur, k);
        }
    } else {
        let d = choose|d: int|
            0 <= d < path.len() - 1 && #[trigger] right_at(r, path, height, d, k);
        let es = path[d].node.node->Branch_0;
        let at = path[d].index as int;
        let j = choose|j: int|
            path[d].index < j < path[d].len() && in_tree(
                r,
                (#[trigger] es[j]).node_id,
                (height - d - 1) as nat,
                k,
            );
        lemma_level_bounds(r, path, height, d, j, k);
        lemma_end_in_tree(r, path, height, d + 1);
        assert(es[at].node_id == path[d + 1].node_id);
        assert((height - (d + 1)) as nat == (height - d - 1) as nat);
        lemma_level_bounds(r, path, height, d, at, cur);
        if at + 1 < j {
            assert(key_lt(branch_keys(es)[at + 1], branch_keys(es)[j]));
            lemma_key_lt_transitive(cur, es[at + 1].key, es[j].key);
        }
        lemma_key_lt_le_transitive(cur, es[j].key, k);
    }
}

} // verus!
