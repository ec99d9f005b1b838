use crate::cursor::Frame;
use crate::error::Error;
use crate::key::{key_lt, lemma_key_order_equal};
use crate::node::{LeafEntry, NodeId, NodeModel, search_keys};
use crate::node_laws::{keys_sorted, lemma_search_lower_bound};
use crate::path::linked;
use crate::reader::{Loaded, NodeReader};
use crate::seek_law::{holds, lemma_branch_left, lemma_branch_right};
use crate::staging::Staged;
use crate::tree::{
    above, below, branch_keys, child_hi, child_lo, in_tree, leaf_keys, left_at, ordered_tree,
    right_at,
};
use crate::tree_update::{
    is_entry, lemma_file_children, lemma_frame_holds, lemma_frame_ordered, lemma_key_in_bounds,
    lemma_off_path, lemma_path_bounds, lemma_staged_node, path_hi, path_lo, ref_at, routed,
    same_but, touched, unique_refs,
};
use crate::update::{Change, pointed_at};
use vstd::prelude::*;

verus! {

/// The value that a change puts under its key; none where it takes the
/// key out.
pub open spec fn put_value(change: Change) -> Option<Seq<u8>> {
    match change {
        Change::Put(_, value) => Some(value),
        Change::Delete(_) => None,
    }
}

/// Whether the entries `es` hold `value` under `key`.
pub open spec fn among(es: Seq<LeafEntry>, key: Seq<u8>, value: Seq<u8>) -> bool {
    exists|j: int| 0 <= j < es.len() && (#[trigger] es[j]).key == key && es[j].value == value
}

/// Whether `change` can be made at `index` in a leaf with the entries
/// `es`: the index is where a search for its key ends, and a key that is
/// taken out stands there.
pub open spec fn fits_leaf(es: Seq<LeafEntry>, index: int, change: Change) -> bool {
    &&& index == search_keys(leaf_keys(es), change.key(), 0, es.len() as int).1
    &&& change is Delete ==> index < es.len() && es[index].key == change.key()
}

/// A change that is made in a leaf whose keys grow strictly, at the place
/// where a search for its key ends, leaves a leaf whose keys grow
/// strictly. The leaf holds the value of the change under its key, or
/// nothing under it where the key was taken out, and under every other
/// key what it held.
pub proof fn lemma_leaf_change(es: Seq<LeafEntry>, index: int, change: Change, k: Seq<u8>, v: Seq<u8>)
    requires
        keys_sorted(leaf_keys(es)),
        fits_leaf(es, index, change),
    ensures
        keys_sorted(leaf_keys(change.apply(es, index))),
        among(change.apply(es, index), k, v) == (if k == change.key() {
            put_value(change) == Some(v)
        } else {
            among(es, k, v)
        }),
        forall|j: int|
            0 <= j < change.apply(es, index).len() ==> (#[trigger] change.apply(es, index)[j]).key
                == change.key() || exists|i: int|
                0 <= i < es.len() && (#[trigger] es[i]).key == change.apply(es, index)[j].key,
{
    let key = change.key();
    let keys = leaf_keys(es);
    lemma_search_lower_bound(keys, key, 0, es.len() as int);
    let (found, at) = search_keys(keys, key, 0, es.len() as int);
    let after = change.apply(es, index);
    let after_keys = leaf_keys(after);
    assert forall|i: int| 0 <= i < es.len() implies (#[trigger] keys[i]) == es[i].key by {}
    // Where the keys of the entries are unique, only the entry at the
    // index can have the key.
    assert forall|i: int| 0 <= i < es.len() && es[i].key == key implies i == at && found by {
        assert(keys[i] == key);
        lemma_key_order_equal(keys[i], key);
        if i < at {
            assert(key_lt(keys[i], key));
        } else if !found {
            assert(key_lt(key, keys[i]));
            lemma_key_order_equal(key, keys[i]);
        } else if i > at {
            assert(key_lt(keys[at], keys[i]));
            lemma_key_order_equal(keys[at], keys[i]);
        }
    }
    match change {
        Change::Put(_, value) => {
            let entry = LeafEntry { key, value };
            if found {
                assert(keys[at] == key);
                assert(after == es.update(at, entry));
                assert(after_keys =~= keys);
                assert forall|j: int| 0 <= j < after.len() implies (#[trigger] after[j]).key == key
                    || exists|i: int| 0 <= i < es.len() && (#[trigger] es[i]).key == after[j].key by {
                    if j != at {
                        assert(es[j].key == after[j].key);
                    }
                }
                if among(after, k, v) {
                    let j = choose|j: int|
                        0 <= j < after.len() && (#[trigger] after[j]).key == k && after[j].value == v;
                    if j != at {
                        assert(es[j].key == k && es[j].value == v);
                    }
                }
                if k == key && v == value {
                    assert(after[at].key == k && after[at].value == v);
                }
                if k != key && among(es, k, v) {
                    let j = choose|j: int|
                        0 <= j < es.len() && (#[trigger] es[j]).key == k && es[j].value == v;
                    assert(after[j].key == k && after[j].value == v);
                }
            } else {
                if at < es.len() {
                    assert(key_lt(key, keys[at]));
                    lemma_key_order_equal(key, keys[at]);
                }
                assert(after == es.insert(at, entry));
                assert forall|i: int, j: int| 0 <= i < j < after_keys.len() implies key_lt(
                    after_keys[i],
                    after_keys[j],
                ) by {
                    if j < at {
                        assert(after_keys[i] == keys[i] && after_keys[j] == keys[j]);
                    } else if j == at {
                        assert(after_keys[i] == keys[i]);
                    } else if i < at {
                        assert(after_keys[i] == keys[i] && after_keys[j] == keys[j - 1]);
                    } else if i == at {
                        assert(after_keys[j] == keys[j - 1]);
                    } else {
                        assert(after_keys[i] == keys[i - 1] && after_keys[j] == keys[j - 1]);
                    }
                }
                assert forall|j: int| 0 <= j < after.len() implies (#[trigger] after[j]).key == key
                    || exists|i: int| 0 <= i < es.len() && (#[trigger] es[i]).key == after[j].key by {
                    if j < at {
                        assert(es[j].key == after[j].key);
                    } else if j > at {
                        assert(es[j - 1].key == after[j].key);
                    }
                }
                if among(after, k, v) {
                    let j = choose|j: int|
                        0 <= j < after.len() && (#[trigger] after[j]).key == k && after[j].value == v;
                    if j < at {
                        assert(es[j].key == k && es[j].value == v);
                    } else if j > at {
                        assert(es[j - 1].key == k && es[j - 1].value == v);
                    }
                }
                if k == key && v == value {
                    assert(after[at].key == k && after[at].value == v);
                }
                if k != key && among(es, k, v) {
                    let j = choose|j: int|
                        0 <= j < es.len() && (#[trigger] es[j]).key == k && es[j].value == v;
                    if j < at {
                        assert(after[j].key == k && after[j].value == v);
                    } else {
                        assert(after[j + 1].key == k && after[j + 1].value == v);
                    }
                }
            }
        },
        Change::Delete(_) => {
            assert(after == es.remove(at));
            assert forall|i: int, j: int| 0 <= i < j < after_keys.len() implies key_lt(
                after_keys[i],
                after_keys[j],
            ) by {
                let a = if i < at {
                    i
                } else {
                    i + 1
                };
                let b = if j < at {
                    j
                } else {
                    j + 1
                };
                assert(after_keys[i] == keys[a] && after_keys[j] == keys[b]);
            }
            assert forall|j: int| 0 <= j < after.len() implies (#[trigger] after[j]).key == key
                || exists|i: int| 0 <= i < es.len() && (#[trigger] es[i]).key == after[j].key by {
                if j < at {
                    assert(es[j].key == after[j].key);
                } else {
                    assert(es[j + 1].key == after[j].key);
                }
            }
            if among(after, k, v) {
                let j = choose|j: int|
                    0 <= j < after.len() && (#[trigger] after[j]).key == k && after[j].value == v;
                let b = if j < at {
                    j
                } else {
                    j + 1
                };
                assert(es[b].key == k && es[b].value == v);
            }
            if k != key && among(es, k, v) {
                let j = choose|j: int|
                    0 <= j < es.len() && (#[trigger] es[j]).key == k && es[j].value == v;
                if j < at {
                    assert(after[j].key == k && after[j].value == v);
                } else {
                    assert(after[j - 1].key == k && after[j - 1].value == v);
                }
            }
        },
    }
}

/// Whether `r2` reads the tree that `r` reads with new nodes along
/// `path`: at every level a staged node with the number that `ids2` gives,
/// a branch as it was but for the entry that the path goes through, which
/// refers to the new node of the level below, and at the end a leaf with
/// the entries `entries2`. Nothing else differs but staged nodes on the
/// path and staged nodes with numbers that `r` has not given out.
pub open spec fn respined(
    r: &Staged,
    r2: &Staged,
    path: Seq<Frame>,
    ids2: Seq<u64>,
    entries2: Seq<LeafEntry>,
) -> bool {
    &&& ids2.len() == path.len()
    &&& forall|d: int|
        0 <= d < path.len() - 1 ==> r2.loaded(NodeId::Id(#[trigger] ids2[d])) == Ok::<
            Loaded,
            Error,
        >(
            Loaded {
                header: None,
                node: pointed_at(path[d].node.node, path[d].index as int, ids2[d + 1]),
            },
        )
    &&& r2.loaded(NodeId::Id(ids2.last())) == Ok::<Loaded, Error>(
        Loaded { header: None, node: NodeModel::Leaf(entries2) },
    )
    &&& same_but(r, r2, touched(path, r.staging@.next_node_id))
}

/// A tree that hangs off a path is the same tree for a reader that reads
/// new nodes along the path.
pub proof fn lemma_sibling(
    r: &Staged,
    r2: &Staged,
    path: Seq<Frame>,
    height: nat,
    d: int,
    j: int,
)
    requires
        linked(r, path),
        ordered_tree(r, path[0].node_id, height, None, None),
        unique_refs(r.staging@),
        r.staging@.fresh(),
        same_but(r, r2, touched(path, r.staging@.next_node_id)),
        0 <= d < path.len() - 1,
        0 <= j < path[d].len(),
        j != path[d].index,
    ensures
        ({
            let es = path[d].node.node->Branch_0;
            &&& ordered_tree(
                r,
                es[j].node_id,
                (height - d - 1) as nat,
                child_lo(es, j, path_lo(path, d)),
                child_hi(es, j, path_hi(path, d)),
            )
            &&& ordered_tree(
                r2,
                es[j].node_id,
                (height - d - 1) as nat,
                child_lo(es, j, path_lo(path, d)),
                child_hi(es, j, path_hi(path, d)),
            )
            &&& forall|k: Seq<u8>, v: Seq<u8>|
                #[trigger] holds(r2, es[j].node_id, (height - d - 1) as nat, k, v) == holds(
                    r,
                    es[j].node_id,
                    (height - d - 1) as nat,
                    k,
                    v,
                )
        }),
{
    let es = path[d].node.node->Branch_0;
    let st = r.staging@;
    let child = es[j].node_id;
    let at = path[d].index as int;
    lemma_path_bounds(r, path, height, d);
    assert(r.loaded(path[d].node_id) == Ok::<Loaded, Error>(path[d].node));
    let lo = child_lo(es, j, path_lo(path, d));
    let hi = child_hi(es, j, path_hi(path, d));
    let h = (height - d) as nat;
    assert((h - 1) as nat == (height - d - 1) as nat);
    assert(ordered_tree(r, child, (h - 1) as nat, lo, hi));
    if child == path[d + 1].node_id && child is Id {
        assert(es[at].node_id == path[d + 1].node_id);
        match path[d].node_id {
            NodeId::Address(b) => {
                lemma_file_children(r, b);
                assert(es[j].node_id is Address);
            },
            NodeId::Id(b) => {
                lemma_staged_node(r, b);
                assert(is_entry(st, b, j));
                assert(is_entry(st, b, at));
                assert(ref_at(st, b, j) == ref_at(st, b, at));
            },
        }
        assert(false);
    }
    assert((height - (d + 1)) as nat == (h - 1) as nat);
    lemma_off_path(r, path, height, child, d + 1, lo, hi);
    let ids = touched(path, st.next_node_id);
    lemma_frame_ordered(r, r2, ids, child, (h - 1) as nat, lo, hi);
    assert forall|k: Seq<u8>, v: Seq<u8>|
        #[trigger] holds(r2, child, (h - 1) as nat, k, v) == holds(
            r,
            child,
            (h - 1) as nat,
            k,
            v,
        ) by {
        lemma_frame_holds(r, r2, ids, child, (h - 1) as nat, lo, hi, k, v);
    }
}

/// A tree that holds a value under a key has the key.
pub proof fn lemma_holds_in_tree<R: NodeReader>(r: &R, id: NodeId, height: nat, k: Seq<u8>, v: Seq<u8>)
    requires
        holds(r, id, height, k, v),
    ensures
        in_tree(r, id, height, k),
    decreases height,
{
    let n = r.loaded(id)->Ok_0;
    match n.node {
        NodeModel::Leaf(es) => {
            let j = choose|j: int|
                0 <= j < es.len() && (#[trigger] es[j]).key == k && es[j].value == v;
            assert(es[j].key == k);
        },
        NodeModel::Branch(es) => {
            let j = choose|j: int|
                0 <= j < es.len() && holds(
                    r,
                    (#[trigger] es[j]).node_id,
                    (height - 1) as nat,
                    k,
                    v,
                );
            lemma_holds_in_tree(r, es[j].node_id, (height - 1) as nat, k, v);
        },
    }
}

/// The new node at every level of a path is the root of a search tree for
/// the bounds of the level, where the new leaf at the end of the path has
/// keys that grow strictly and that are the key that the path is routed
/// by or keys of the leaf before.
pub proof fn lemma_spine_ordered(
    r: &Staged,
    r2: &Staged,
    path: Seq<Frame>,
    height: nat,
    ids2: Seq<u64>,
    entries2: Seq<LeafEntry>,
    key: Seq<u8>,
    d: int,
)
    requires
        linked(r, path),
        path.last().node.node is Leaf,
        ordered_tree(r, path[0].node_id, height, None, None),
        unique_refs(r.staging@),
        r.staging@.fresh(),
        respined(r, r2, path, ids2, entries2),
        routed(path, key),
        keys_sorted(leaf_keys(entries2)),
        forall|j: int|
            0 <= j < entries2.len() ==> (#[trigger] entries2[j]).key == key || exists|i: int|
                0 <= i < path.last().len() && (#[trigger] path.last().node.node->Leaf_0[i]).key
                    == entries2[j].key,
        0 <= d < path.len(),
    ensures
        ordered_tree(
            r2,
            NodeId::Id(ids2[d]),
            (height - d) as nat,
            path_lo(path, d),
            path_hi(path, d),
        ),
    decreases path.len() - d,
{
    let n = path.len() as int;
    lemma_path_bounds(r, path, height, d);
    lemma_key_in_bounds(r, path, height, key, d);
    assert(r.loaded(path[d].node_id) == Ok::<Loaded, Error>(path[d].node));
    let lo = path_lo(path, d);
    let hi = path_hi(path, d);
    if d == n - 1 {
        assert(path.last() == path[d]);
        assert(ids2.last() == ids2[d]);
        let es = path[d].node.node->Leaf_0;
        assert forall|j: int| 0 <= j < entries2.len() implies above(
            lo,
            (#[trigger] entries2[j]).key,
        ) && below(entries2[j].key, hi) by {
            if entries2[j].key != key {
                let i = choose|i: int|
                    0 <= i < path.last().len() && (#[trigger] es[i]).key == entries2[j].key;
                assert(above(lo, es[i].key) && below(es[i].key, hi));
            }
        }
    } else {
        let es = path[d].node.node->Branch_0;
        let at = path[d].index as int;
        let node2 = pointed_at(path[d].node.node, at, ids2[d + 1]);
        let es2 = node2->Branch_0;
        assert(r2.loaded(NodeId::Id(ids2[d])) == Ok::<Loaded, Error>(
            Loaded { header: None, node: node2 },
        ));
        assert(branch_keys(es2) =~= branch_keys(es));
        let h = (height - d) as nat;
        assert((h - 1) as nat == (height - d - 1) as nat);
        assert((h - 1) as nat == (height - (d + 1)) as nat);
        assert forall|j: int| 1 <= j < es2.len() implies above(lo, (#[trigger] es2[j]).key)
            && below(es2[j].key, hi) by {
            assert(es2[j].key == es[j].key);
            assert(above(lo, es[j].key) && below(es[j].key, hi));
        }
        assert forall|j: int| 0 <= j < es2.len() implies ordered_tree(
            r2,
            (#[trigger] es2[j]).node_id,
            (h - 1) as nat,
            child_lo(es2, j, lo),
            child_hi(es2, j, hi),
        ) by {
            assert(child_lo(es2, j, lo) == child_lo(es, j, lo)) by {
                if j > 0 {
                    assert(es2[j].key == es[j].key);
                }
            }
            assert(child_hi(es2, j, hi) == child_hi(es, j, hi)) by {
                if j + 1 < es.len() {
                    assert(es2[j + 1].key == es[j + 1].key);
                }
            }
            if j == at {
                lemma_spine_ordered(r, r2, path, height, ids2, entries2, key, d + 1);
                assert(es2[j].node_id == NodeId::Id(ids2[d + 1]));
            } else {
                lemma_sibling(r, r2, path, height, d, j);
                assert(es2[j] == es[j]);
            }
        }
    }
}

/// What hangs off a path holds after the change what it held before, and
/// nothing under the key that the path is routed by.
pub proof fn lemma_off_spine(
    r: &Staged,
    r2: &Staged,
    path: Seq<Frame>,
    height: nat,
    ids2: Seq<u64>,
    entries2: Seq<LeafEntry>,
    key: Seq<u8>,
    d: int,
    j: int,
    k: Seq<u8>,
    v: Seq<u8>,
)
    requires
        linked(r, path),
        path.last().node.node is Leaf,
        ordered_tree(r, path[0].node_id, height, None, None),
        unique_refs(r.staging@),
        r.staging@.fresh(),
        respined(r, r2, path, ids2, entries2),
        routed(path, key),
        0 <= d < path.len() - 1,
        0 <= j < path[d].node.node.len(),
        j != path[d].index,
    ensures
        holds(
            r2,
            path[d].node.node->Branch_0[j].node_id,
            (height - d - 1) as nat,
            k,
            v,
        ) == holds(r, path[d].node.node->Branch_0[j].node_id, (height - d - 1) as nat, k, v),
        k == key ==> !holds(
            r,
            path[d].node.node->Branch_0[j].node_id,
            (height - d - 1) as nat,
            k,
            v,
        ),
{
    let es = path[d].node.node->Branch_0;
    let at = path[d].index as int;
    let low = (height - d - 1) as nat;
    lemma_path_bounds(r, path, height, d);
    let h = (height - d) as nat;
    assert((h - 1) as nat == low);
    lemma_sibling(r, r2, path, height, d, j);
    if k == key && holds(r, es[j].node_id, low, k, v) {
        lemma_holds_in_tree(r, es[j].node_id, low, k, v);
        lemma_key_order_equal(key, key);
        if j < at {
            assert(left_at(r, path, height, d, k));
            lemma_branch_left(r, path, height, d, key, k);
        } else {
            assert(right_at(r, path, height, d, k));
            lemma_branch_right(r, path, height, d, key, k);
        }
    }
}

/// The new node at a level of a path above the leaf holds under the key
/// that the path is routed by what the new node below holds under it,
/// and under every other key what the node of the level held, where the
/// new node below does so.
pub proof fn lemma_spine_level(
    r: &Staged,
    r2: &Staged,
    path: Seq<Frame>,
    height: nat,
    ids2: Seq<u64>,
    entries2: Seq<LeafEntry>,
    key: Seq<u8>,
    put: Option<Seq<u8>>,
    d: int,
    k: Seq<u8>,
    v: Seq<u8>,
)
    requires
        linked(r, path),
        path.last().node.node is Leaf,
        ordered_tree(r, path[0].node_id, height, None, None),
        unique_refs(r.staging@),
        r.staging@.fresh(),
        respined(r, r2, path, ids2, entries2),
        routed(path, key),
        0 <= d < path.len() - 1,
        holds(r2, NodeId::Id(ids2[d + 1]), (height - d - 1) as nat, k, v) == (if k == key {
            put == Some(v)
        } else {
            holds(r, path[d + 1].node_id, (height - d - 1) as nat, k, v)
        }),
    ensures
        holds(r2, NodeId::Id(ids2[d]), (height - d) as nat, k, v) == (if k == key {
            put == Some(v)
        } else {
            holds(r, path[d].node_id, (height - d) as nat, k, v)
        }),
{
    lemma_path_bounds(r, path, height, d);
    assert(r.loaded(path[d].node_id) == Ok::<Loaded, Error>(path[d].node));
    let es = path[d].node.node->Branch_0;
    let at = path[d].index as int;
    let node2 = pointed_at(path[d].node.node, at, ids2[d + 1]);
    let es2 = node2->Branch_0;
    assert(r2.loaded(NodeId::Id(ids2[d])) == Ok::<Loaded, Error>(
        Loaded { header: None, node: node2 },
    ));
    let h = (height - d) as nat;
    let low = (height - d - 1) as nat;
    assert((h - 1) as nat == low);
    assert(es[at].node_id == path[d + 1].node_id);
    assert(es2[at].node_id == NodeId::Id(ids2[d + 1]));
    let want = if k == key {
        put == Some(v)
    } else {
        holds(r, path[d].node_id, h, k, v)
    };
    if holds(r2, NodeId::Id(ids2[d]), h, k, v) {
        let j = choose|j: int| 0 <= j < es2.len() && holds(r2, (#[trigger] es2[j]).node_id, low, k, v);
        if j == at {
            if k != key {
                assert(holds(r, es[at].node_id, low, k, v));
            }
        } else {
            lemma_off_spine(r, r2, path, height, ids2, entries2, key, d, j, k, v);
            assert(es2[j] == es[j]);
            assert(holds(r, es[j].node_id, low, k, v));
        }
        assert(want);
    }
    if want {
        if k == key {
            assert(holds(r2, es2[at].node_id, low, k, v));
        } else {
            let j = choose|j: int| 0 <= j < es.len() && holds(r, (#[trigger] es[j]).node_id, low, k, v);
            if j == at {
                assert(holds(r2, es2[at].node_id, low, k, v));
            } else {
                lemma_off_spine(r, r2, path, height, ids2, entries2, key, d, j, k, v);
                assert(es2[j] == es[j]);
                assert(holds(r2, es2[j].node_id, low, k, v));
            }
        }
        assert(holds(r2, NodeId::Id(ids2[d]), h, k, v));
    }
}

/// A leaf holds the entries that are among its entries.
pub proof fn lemma_leaf_holds(r: &Staged, id: NodeId, es: Seq<LeafEntry>, h: nat, k: Seq<u8>, v: Seq<u8>)
    requires
        r.loaded(id) matches Ok(n) && n.node == NodeModel::Leaf(es),
    ensures
        holds(r, id, h, k, v) == among(es, k, v),
{
    let own = r.loaded(id)->Ok_0.node->Leaf_0;
    assert(own == es);
    if holds(r, id, h, k, v) {
        let j = choose|j: int|
            0 <= j < own.len() && (#[trigger] own[j]).key == k && own[j].value == v;
        assert(es[j].key == k && es[j].value == v);
    }
    if among(es, k, v) {
        let j = choose|j: int| 0 <= j < es.len() && (#[trigger] es[j]).key == k && es[j].value == v;
        assert(own[j].key == k && own[j].value == v);
    }
}

/// The new node at every level of a path holds under the key that the
/// path is routed by what the new leaf holds under it, and under every
/// other key what the node of the level held.
pub proof fn lemma_spine_holds(
    r: &Staged,
    r2: &Staged,
    path: Seq<Frame>,
    height: nat,
    ids2: Seq<u64>,
    entries2: Seq<LeafEntry>,
    key: Seq<u8>,
    put: Option<Seq<u8>>,
    d: int,
    k: Seq<u8>,
    v: Seq<u8>,
)
    requires
        linked(r, path),
        path.last().node.node is Leaf,
        ordered_tree(r, path[0].node_id, height, None, None),
        unique_refs(r.staging@),
        r.staging@.fresh(),
        respined(r, r2, path, ids2, entries2),
        routed(path, key),
        among(entries2, k, v) == (if k == key {
            put == Some(v)
        } else {
            among(path.last().node.node->Leaf_0, k, v)
        }),
        0 <= d < path.len(),
    ensures
        holds(r2, NodeId::Id(ids2[d]), (height - d) as nat, k, v) == (if k == key {
            put == Some(v)
        } else {
            holds(r, path[d].node_id, (height - d) as nat, k, v)
        }),
    decreases path.len() - d,
{
    let n = path.len() as int;
    if d == n - 1 {
        assert(r.loaded(path[d].node_id) == Ok::<Loaded, Error>(path[d].node));
        assert(path.last() == path[d]);
        assert(ids2.last() == ids2[d]);
        let h = (height - d) as nat;
        lemma_leaf_holds(r2, NodeId::Id(ids2[d]), entries2, h, k, v);
        lemma_leaf_holds(r, path[d].node_id, path[d].node.node->Leaf_0, h, k, v);
    } else {
        lemma_spine_holds(r, r2, path, height, ids2, entries2, key, put, d + 1, k, v);
        assert((height - (d + 1)) as nat == (height - d - 1) as nat);
        lemma_spine_level(r, r2, path, height, ids2, entries2, key, put, d, k, v);
    }
}

} // verus!
