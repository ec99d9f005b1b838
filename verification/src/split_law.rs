use crate::merge::{with_new_node, with_parents, without_node};
use crate::merge_law::{lemma_file_children, lemma_only_ref, lemma_passed_on_trans, passed_on, sane};
use crate::node::{
    branch_size_fn, BranchEntry, leaf_size_fn, next_dirty, NodeId, NodeModel, splice_entries,
    split_entries,
};
use crate::node_laws::{concat, lemma_split_entries};
use crate::split::{
    place_pieces, split_all, split_candidate, split_children, split_node, traverse_split,
};
use crate::staging::StagingModel;
use crate::tree_update::{is_entry, ref_at, unique_refs};
use crate::tx::TxModel;
use crate::write_law::{held, kept, lemma_held_branch, lemma_held_leaf, load};
use crate::write_model::CommitModel;
use vstd::prelude::*;

verus! {

/// The number of entries in the pieces before piece `p`.
pub open spec fn offset<T>(pieces: Seq<Seq<T>>, p: int) -> int
    decreases p,
{
    if p <= 0 {
        0
    } else {
        offset(pieces, p - 1) + pieces[p - 1].len()
    }
}

/// The entries of the pieces one after the other are as many as the
/// entries before the end of the last piece.
pub proof fn lemma_concat_len<T>(pieces: Seq<Seq<T>>)
    ensures
        concat(pieces).len() == offset(pieces, pieces.len() as int),
    decreases pieces.len(),
{
    if pieces.len() > 0 {
        let front = pieces.drop_last();
        lemma_concat_len(front);
        lemma_offset_front(pieces, front.len() as int);
    }
}

/// The entries before a piece are those before it among the pieces
/// without the last.
pub proof fn lemma_offset_front<T>(pieces: Seq<Seq<T>>, p: int)
    requires
        0 <= p < pieces.len(),
    ensures
        offset(pieces.drop_last(), p) == offset(pieces, p),
    decreases p,
{
    if p > 0 {
        lemma_offset_front(pieces, p - 1);
        assert(pieces.drop_last()[p - 1] == pieces[p - 1]);
    }
}

/// Entry `q` of piece `p` is the entry of the whole that as many entries
/// come before as the pieces before `p` hold, and `q` more.
pub proof fn lemma_concat_at<T>(pieces: Seq<Seq<T>>, p: int, q: int)
    requires
        0 <= p < pieces.len(),
        0 <= q < pieces[p].len(),
    ensures
        0 <= offset(pieces, p) + q < concat(pieces).len(),
        concat(pieces)[offset(pieces, p) + q] == pieces[p][q],
        offset(pieces, p) >= 0,
    decreases pieces.len(),
{
    let front = pieces.drop_last();
    lemma_concat_len(front);
    lemma_offset_nonneg(pieces, p);
    if p == pieces.len() - 1 {
        lemma_offset_front(pieces, p);
    } else {
        assert(front[p] == pieces[p]);
        lemma_concat_at(front, p, q);
        lemma_offset_front(pieces, p);
    }
}

/// No piece has fewer than no entries before it.
pub proof fn lemma_offset_nonneg<T>(pieces: Seq<Seq<T>>, p: int)
    ensures
        offset(pieces, p) >= 0,
    decreases p,
{
    if p > 0 {
        lemma_offset_nonneg(pieces, p - 1);
    }
}

/// The piece and the place in it at which entry `i` of the whole stands.
pub proof fn lemma_concat_find<T>(pieces: Seq<Seq<T>>, i: int) -> (r: (int, int))
    requires
        0 <= i < concat(pieces).len(),
    ensures
        0 <= r.0 < pieces.len(),
        0 <= r.1 < pieces[r.0].len(),
        offset(pieces, r.0) + r.1 == i,
        pieces[r.0][r.1] == concat(pieces)[i],
    decreases pieces.len(),
{
    let front = pieces.drop_last();
    lemma_concat_len(front);
    let last = pieces.len() - 1;
    lemma_offset_front(pieces, last);
    if i >= concat(front).len() {
        (last, i - concat(front).len())
    } else {
        let (p, q) = lemma_concat_find(front, i);
        lemma_offset_front(pieces, p);
        assert(front[p] == pieces[p]);
        (p, q)
    }
}

/// Pieces that come later have more entries before them.
pub proof fn lemma_offset_grows<T>(pieces: Seq<Seq<T>>, p: int, r: int)
    requires
        0 <= p < r <= pieces.len(),
    ensures
        offset(pieces, p) + pieces[p].len() <= offset(pieces, r),
    decreases r,
{
    if r > p + 1 {
        lemma_offset_grows(pieces, p, r - 1);
    }
}

/// What the transaction is after pieces were placed: each piece is staged
/// under the next number, the entries refer to the pieces in their order,
/// and the nodes that were staged before are as they were.
pub proof fn lemma_place_pieces(st: TxModel, pieces: Seq<NodeModel>, upto: int, parent_id: u64)
    requires
        0 <= upto <= pieces.len(),
        st.staging.next_node_id + upto < u64::MAX,
    ensures
        ({
            let (placed, entries) = place_pieces(st, pieces, upto, parent_id);
            let b = st.staging.next_node_id;
            &&& placed.root == st.root
            &&& placed.staging.next_node_id == b + upto
            &&& entries.len() == upto
            &&& forall|i: int|
                0 <= i < upto ==> (#[trigger] entries[i]).node_id == NodeId::Id((b + i) as u64)
                    && entries[i].key == pieces[i].key_at(0)
            &&& forall|x: u64| #[trigger]
                placed.staging.nodes.contains_key(x) <==> st.staging.nodes.contains_key(x) || b
                    <= x < b + upto
            &&& forall|x: u64|
                x < b && st.staging.nodes.contains_key(x) ==> #[trigger] placed.staging.nodes[x]
                    == st.staging.nodes[x]
            &&& forall|i: int|
                0 <= i < upto ==> #[trigger] placed.staging.nodes[(b + i) as u64] == pieces[i]
        }),
    decreases upto,
{
    if upto > 0 {
        lemma_place_pieces(st, pieces, upto - 1, parent_id);
        let (before, front) = place_pieces(st, pieces, upto - 1, parent_id);
        let (placed, entries) = place_pieces(st, pieces, upto, parent_id);
        let b = st.staging.next_node_id;
        let id = before.staging.next_node_id;
        assert(id == b + upto - 1);
        assert forall|i: int| 0 <= i < upto implies (#[trigger] entries[i]).node_id == NodeId::Id(
            (b + i) as u64,
        ) && entries[i].key == pieces[i].key_at(0) by {
            if i < upto - 1 {
                assert(entries[i] == front[i]);
            }
        }
        assert forall|i: int| 0 <= i < upto implies #[trigger] placed.staging.nodes[(b
            + i) as u64] == pieces[i] by {
            if i < upto - 1 {
                assert(before.staging.nodes[(b + i) as u64] == pieces[i]);
            }
        }
    }
}

/// Whether `d` is `c` after the staged node `gone`, entry `at` of the
/// staged branch `parent`, was split for pages of `page_size` bytes: the
/// pieces are staged under the next numbers and stand in its place among
/// the entries of the parent.
pub open spec fn parted(c: CommitModel, d: CommitModel, page_size: u32, parent: u64, gone: u64, at: int) -> bool {
    let nodes = c.tx.staging.nodes;
    let after = d.tx.staging.nodes;
    let pieces = nodes[gone].split(page_size as nat);
    let n = pieces.len() as int;
    let b = c.tx.staging.next_node_id;
    &&& d.image == c.image
    &&& d.writer == c.writer
    &&& d.tx.root == c.tx.root
    &&& nodes.contains_key(parent) && nodes.contains_key(gone)
    &&& parent != gone
    &&& c.tx.root != NodeId::Id(gone)
    &&& b + n < u64::MAX
    &&& d.tx.staging.next_node_id == b + n
    &&& nodes[parent] is Branch
    &&& 0 <= at < nodes[parent].len()
    &&& nodes[parent]->Branch_0[at].node_id == NodeId::Id(gone)
    &&& forall|x: u64| #[trigger]
        after.contains_key(x) <==> (x != gone && nodes.contains_key(x)) || b <= x < b + n
    &&& forall|x: u64|
        x != gone && x != parent && x < b && nodes.contains_key(x) ==> #[trigger] after[x]
            == nodes[x]
    &&& forall|i: int| 0 <= i < n ==> #[trigger] after[(b + i) as u64] == pieces[i]
    &&& after[parent] is Branch
    &&& after[parent].len() == nodes[parent].len() - 1 + n
    &&& forall|j: int|
        0 <= j < at ==> #[trigger] after[parent]->Branch_0[j] == nodes[parent]->Branch_0[j]
    &&& forall|j: int|
        at < j < nodes[parent].len() ==> #[trigger] after[parent]->Branch_0[j + n - 1]
            == nodes[parent]->Branch_0[j]
    &&& forall|i: int|
        0 <= i < n ==> (#[trigger] after[parent]->Branch_0[at + i]).node_id == NodeId::Id(
            (b + i) as u64,
        ) && after[parent]->Branch_0[at + i].key == pieces[i].key_at(0)
    &&& forall|i: int| 0 <= i < n ==> (#[trigger] pieces[i]).len() > 0
}

/// The pieces of a node: a piece holds the entries of the node from the
/// entries of the pieces before it on.
pub proof fn lemma_pieces(node: NodeModel, threshold: nat)
    ensures
        ({
            let pieces = node.split(threshold);
            match node {
                NodeModel::Leaf(ns) => {
                    let parts = split_entries(ns, leaf_size_fn(), threshold);
                    &&& pieces.len() == parts.len()
                    &&& concat(parts) == ns
                    &&& forall|p: int|
                        0 <= p < parts.len() ==> #[trigger] pieces[p] == NodeModel::Leaf(parts[p])
                },
                NodeModel::Branch(ns) => {
                    let parts = split_entries(ns, branch_size_fn(), threshold);
                    &&& pieces.len() == parts.len()
                    &&& concat(parts) == ns
                    &&& forall|p: int|
                        0 <= p < parts.len() ==> #[trigger] pieces[p] == NodeModel::Branch(
                            parts[p],
                        )
                },
            }
        }),
{
    match node {
        NodeModel::Leaf(ns) => lemma_split_entries(ns, leaf_size_fn(), threshold),
        NodeModel::Branch(ns) => lemma_split_entries(ns, branch_size_fn(), threshold),
    }
}

/// What a tree held before a node was split it holds afterwards, and a
/// tree that was in good keeping is so afterwards, where its root is not
/// the node that was split.
pub proof fn lemma_parted_holds(
    c: CommitModel,
    d: CommitModel,
    page_size: u32,
    parent: u64,
    gone: u64,
    at: int,
    id: NodeId,
    h: nat,
    k: Seq<u8>,
    v: Seq<u8>,
)
    requires
        parted(c, d, page_size, parent, gone, at),
        unique_refs(c.tx.staging),
        c.tx.staging.fresh(),
        id != NodeId::Id(gone),
    ensures
        held(c, id, h, k, v) ==> held(d, id, h, k, v),
        kept(c, page_size, id, h) ==> kept(d, page_size, id, h),
    decreases h, 1nat,
{
    let st = c.tx.staging;
    let es = st.nodes[parent]->Branch_0;
    let n = st.nodes[gone].split(page_size as nat).len() as int;
    let b = st.next_node_id;
    let low = (h - 1) as nat;
    assert(is_entry(st, parent, at));
    match id {
        NodeId::Address(a) => {
            lemma_file_children(c, a);
            assert(load(d, id) == load(c, id));
        },
        NodeId::Id(x) => {
            if st.nodes.contains_key(x) {
                assert(x < b);
                assert(d.tx.staging.nodes.contains_key(x));
                if x != parent {
                    assert(d.tx.staging.nodes[x] == st.nodes[x]);
                }
            }
        },
    }
    if let Ok(loaded) = load(c, id) {
        if let NodeModel::Branch(cs) = loaded.node {
            let ds = load(d, id)->Ok_0.node->Branch_0;
            if h > 0 {
                assert forall|j: int|
                    0 <= j < cs.len() && (#[trigger] cs[j]).node_id != NodeId::Id(gone) implies (
                held(c, cs[j].node_id, low, k, v) ==> held(d, cs[j].node_id, low, k, v)) && (kept(
                    c,
                    page_size,
                    cs[j].node_id,
                    low,
                ) ==> kept(d, page_size, cs[j].node_id, low)) by {
                    lemma_parted_holds(c, d, page_size, parent, gone, at, cs[j].node_id, low, k, v);
                }
                assert forall|j: int| 0 <= j < cs.len() && (#[trigger] cs[j]).node_id
                    == NodeId::Id(gone) implies id == NodeId::Id(parent) && j == at by {
                    if let NodeId::Id(x) = id {
                        assert(is_entry(st, x, j));
                        lemma_only_ref(c.tx, x, j, parent, at);
                    }
                }
                let p = lemma_parted_piece(c, d, page_size, parent, gone, at, low, k, v);
                if held(c, id, h, k, v) {
                    let j = choose|j: int|
                        0 <= j < cs.len() && held(c, (#[trigger] cs[j]).node_id, low, k, v);
                    if id == NodeId::Id(parent) {
                        if j < at {
                            assert(ds[j] == cs[j]);
                            lemma_held_branch(d, id, h, j, k, v);
                        } else if j == at {
                            assert(ds[at + p].node_id == NodeId::Id((b + p) as u64));
                            lemma_held_branch(d, id, h, at + p, k, v);
                        } else {
                            assert(ds[j + n - 1] == cs[j]);
                            lemma_held_branch(d, id, h, j + n - 1, k, v);
                        }
                    } else {
                        lemma_held_branch(d, id, h, j, k, v);
                    }
                }
                if kept(c, page_size, id, h) {
                    assert forall|i: int| 0 <= i < ds.len() implies kept(
                        d,
                        page_size,
                        (#[trigger] ds[i]).node_id,
                        low,
                    ) by {
                        if id == NodeId::Id(parent) {
                            if i < at {
                                assert(ds[i] == cs[i]);
                                assert(is_entry(st, parent, i));
                                if cs[i].node_id == NodeId::Id(gone) {
                                    lemma_only_ref(c.tx, parent, i, parent, at);
                                }
                                assert(kept(c, page_size, cs[i].node_id, low));
                            } else if i < at + n {
                                assert(kept(c, page_size, cs[at].node_id, low));
                                assert(ds[at + (i - at)].node_id == NodeId::Id((b + (i - at)) as u64));
                            } else {
                                let j = i - n + 1;
                                assert(ds[j + n - 1] == cs[j]);
                                assert(is_entry(st, parent, j));
                                if cs[j].node_id == NodeId::Id(gone) {
                                    lemma_only_ref(c.tx, parent, j, parent, at);
                                }
                                assert(kept(c, page_size, cs[j].node_id, low));
                            }
                        } else {
                            assert(kept(c, page_size, cs[i].node_id, low));
                        }
                    }
                }
            }
        }
    }
}

/// What the node that was split held one of its pieces holds, and the
/// pieces are in good keeping where the node was.
pub proof fn lemma_parted_piece(
    c: CommitModel,
    d: CommitModel,
    page_size: u32,
    parent: u64,
    gone: u64,
    at: int,
    h: nat,
    k: Seq<u8>,
    v: Seq<u8>,
) -> (p: int)
    requires
        parted(c, d, page_size, parent, gone, at),
        unique_refs(c.tx.staging),
        c.tx.staging.fresh(),
    ensures
        held(c, NodeId::Id(gone), h, k, v) ==> 0 <= p < c.tx.staging.nodes[gone].split(
            page_size as nat,
        ).len() && held(d, NodeId::Id((c.tx.staging.next_node_id + p) as u64), h, k, v),
        kept(c, page_size, NodeId::Id(gone), h) ==> forall|i: int|
            0 <= i < c.tx.staging.nodes[gone].split(page_size as nat).len() ==> #[trigger] kept(
                d,
                page_size,
                NodeId::Id((c.tx.staging.next_node_id + i) as u64),
                h,
            ),
    decreases h, 0nat,
{
    let st = c.tx.staging;
    let node = st.nodes[gone];
    let pieces = node.split(page_size as nat);
    let n = pieces.len() as int;
    let b = st.next_node_id;
    let low = (h - 1) as nat;
    let x = NodeId::Id(gone);
    lemma_pieces(node, page_size as nat);
    assert(is_entry(st, parent, at));
    assert forall|i: int| 0 <= i < n implies #[trigger] d.tx.staging.nodes.contains_key(
        (b + i) as u64,
    ) by {}
    match node {
        NodeModel::Leaf(ns) => {
            let parts = split_entries(ns, leaf_size_fn(), page_size as nat);
            assert forall|i: int| 0 <= i < n implies #[trigger] kept(
                d,
                page_size,
                NodeId::Id((b + i) as u64),
                h,
            ) by {
                assert(d.tx.staging.nodes[(b + i) as u64] == pieces[i]);
            }
            if held(c, x, h, k, v) {
                let j = choose|j: int|
                    0 <= j < ns.len() && (#[trigger] ns[j]).key == k && ns[j].value == v;
                let (p, q) = lemma_concat_find(parts, j);
                assert(d.tx.staging.nodes[(b + p) as u64] == pieces[p]);
                lemma_held_leaf(d, NodeId::Id((b + p) as u64), h, q);
                p
            } else {
                0
            }
        },
        NodeModel::Branch(ns) => {
            let parts = split_entries(ns, branch_size_fn(), page_size as nat);
            if h > 0 {
                assert forall|j: int| 0 <= j < ns.len() implies (held(
                    c,
                    (#[trigger] ns[j]).node_id,
                    low,
                    k,
                    v,
                ) ==> held(d, ns[j].node_id, low, k, v)) && (kept(
                    c,
                    page_size,
                    ns[j].node_id,
                    low,
                ) ==> kept(d, page_size, ns[j].node_id, low)) by {
                    assert(is_entry(st, gone, j));
                    if ns[j].node_id == NodeId::Id(gone) {
                        lemma_only_ref(c.tx, gone, j, parent, at);
                    }
                    lemma_parted_holds(c, d, page_size, parent, gone, at, ns[j].node_id, low, k, v);
                }
            }
            if kept(c, page_size, x, h) {
                assert forall|i: int| 0 <= i < n implies #[trigger] kept(
                    d,
                    page_size,
                    NodeId::Id((b + i) as u64),
                    h,
                ) by {
                    assert(d.tx.staging.nodes[(b + i) as u64] == pieces[i]);
                    assert forall|q: int| 0 <= q < parts[i].len() implies kept(
                        d,
                        page_size,
                        (#[trigger] parts[i][q]).node_id,
                        low,
                    ) by {
                        lemma_concat_at(parts, i, q);
                        let j = offset(parts, i) + q;
                        assert(kept(c, page_size, ns[j].node_id, low));
                    }
                }
            }
            if held(c, x, h, k, v) {
                let j = choose|j: int|
                    0 <= j < ns.len() && held(c, (#[trigger] ns[j]).node_id, low, k, v);
                let (p, q) = lemma_concat_find(parts, j);
                assert(d.tx.staging.nodes[(b + p) as u64] == pieces[p]);
                lemma_held_branch(d, NodeId::Id((b + p) as u64), h, q, k, v);
                p
            } else {
                0
            }
        },
    }
}

/// Entries of different pieces, or at different places of a piece,
/// stand at different places of the whole.
pub proof fn lemma_offset_apart<T>(pieces: Seq<Seq<T>>, p: int, q: int, r: int, t: int)
    requires
        0 <= p < pieces.len(),
        0 <= r < pieces.len(),
        0 <= q < pieces[p].len(),
        0 <= t < pieces[r].len(),
        offset(pieces, p) + q == offset(pieces, r) + t,
    ensures
        p == r,
        q == t,
{
    if p < r {
        lemma_offset_grows(pieces, p, r);
    }
    if r < p {
        lemma_offset_grows(pieces, r, p);
    }
}

/// The entry before the split that an entry afterwards came from; the
/// entries that refer to the pieces came from none.
pub open spec fn parted_from(c: CommitModel, page_size: u32, parent: u64, gone: u64, at: int, a: u64, i: int) -> (
    u64,
    int,
) {
    let nodes = c.tx.staging.nodes;
    let n = nodes[gone].split(page_size as nat).len() as int;
    let b = c.tx.staging.next_node_id;
    if a == parent {
        if i < at {
            (parent, i)
        } else {
            (parent, i - n + 1)
        }
    } else if a >= b {
        match nodes[gone] {
            NodeModel::Branch(ns) => (
                gone,
                offset(split_entries(ns, branch_size_fn(), page_size as nat), a - b) + i,
            ),
            NodeModel::Leaf(_) => (gone, i),
        }
    } else {
        (a, i)
    }
}

/// Whether entry `i` of the staged branch `a` refers to a piece.
pub open spec fn refers_to_piece(c: CommitModel, page_size: u32, parent: u64, gone: u64, at: int, a: u64, i: int) -> bool {
    a == parent && at <= i < at + c.tx.staging.nodes[gone].split(page_size as nat).len()
}

/// An entry after a split refers to a piece, or to what the entry that
/// it came from referred to.
pub proof fn lemma_parted_from(
    c: CommitModel,
    d: CommitModel,
    page_size: u32,
    parent: u64,
    gone: u64,
    at: int,
    a: u64,
    i: int,
)
    requires
        parted(c, d, page_size, parent, gone, at),
        c.tx.staging.fresh(),
        is_entry(d.tx.staging, a, i),
    ensures
        ({
            let (a0, i0) = parted_from(c, page_size, parent, gone, at, a, i);
            let b = c.tx.staging.next_node_id;
            if refers_to_piece(c, page_size, parent, gone, at, a, i) {
                ref_at(d.tx.staging, a, i) == NodeId::Id((b + (i - at)) as u64)
            } else {
                &&& is_entry(c.tx.staging, a0, i0)
                &&& ref_at(c.tx.staging, a0, i0) == ref_at(d.tx.staging, a, i)
                &&& !(a0 == parent && i0 == at)
            }
        }),
{
    let st = c.tx.staging;
    let dt = d.tx.staging;
    let node = st.nodes[gone];
    let pieces = node.split(page_size as nat);
    let n = pieces.len() as int;
    let b = st.next_node_id;
    let es = st.nodes[parent]->Branch_0;
    let ds = dt.nodes[parent]->Branch_0;
    lemma_pieces(node, page_size as nat);
    if a == parent {
        if i < at {
            assert(ds[i] == es[i]);
        } else if i < at + n {
            assert(ds[at + (i - at)].node_id == NodeId::Id((b + (i - at)) as u64));
        } else {
            let j = i - n + 1;
            assert(ds[j + n - 1] == es[j]);
        }
    } else if a >= b {
        let p = a - b;
        assert(dt.nodes[(b + p) as u64] == pieces[p]);
        match node {
            NodeModel::Branch(ns) => {
                let parts = split_entries(ns, branch_size_fn(), page_size as nat);
                lemma_concat_at(parts, p, i);
            },
            NodeModel::Leaf(_) => {},
        }
    } else {
        assert(st.nodes.contains_key(a));
        assert(dt.nodes[a] == st.nodes[a]);
    }
}

/// Entries after a split that came from the same entry are the same
/// entry.
pub proof fn lemma_parted_from_apart(
    c: CommitModel,
    d: CommitModel,
    page_size: u32,
    parent: u64,
    gone: u64,
    at: int,
    a: u64,
    i: int,
    e: u64,
    j: int,
)
    requires
        parted(c, d, page_size, parent, gone, at),
        c.tx.staging.fresh(),
        is_entry(d.tx.staging, a, i),
        is_entry(d.tx.staging, e, j),
        !refers_to_piece(c, page_size, parent, gone, at, a, i),
        !refers_to_piece(c, page_size, parent, gone, at, e, j),
        parted_from(c, page_size, parent, gone, at, a, i) == parted_from(
            c,
            page_size,
            parent,
            gone,
            at,
            e,
            j,
        ),
    ensures
        a == e,
        i == j,
{
    let st = c.tx.staging;
    let dt = d.tx.staging;
    let node = st.nodes[gone];
    let pieces = node.split(page_size as nat);
    let b = st.next_node_id;
    lemma_pieces(node, page_size as nat);
    if a >= b && e >= b {
        assert(dt.nodes[(b + (a - b)) as u64] == pieces[a - b]);
        assert(dt.nodes[(b + (e - b)) as u64] == pieces[e - b]);
        match node {
            NodeModel::Branch(ns) => {
                let parts = split_entries(ns, branch_size_fn(), page_size as nat);
                lemma_offset_apart(parts, a - b, i, e - b, j);
            },
            NodeModel::Leaf(_) => {},
        }
    }
}

/// Splitting a node leaves the staged nodes in order.
pub proof fn lemma_parted_sane(c: CommitModel, d: CommitModel, page_size: u32, parent: u64, gone: u64, at: int)
    requires
        parted(c, d, page_size, parent, gone, at),
        sane(c.tx),
    ensures
        sane(d.tx),
{
    let st = c.tx.staging;
    let dt = d.tx.staging;
    let b = st.next_node_id;
    let n = st.nodes[gone].split(page_size as nat).len() as int;
    assert(is_entry(st, parent, at));
    assert forall|a: u64, i: int, e: u64, j: int|
        is_entry(dt, a, i) && is_entry(dt, e, j) && #[trigger] ref_at(dt, a, i) == #[trigger] ref_at(
            dt,
            e,
            j,
        ) && ref_at(dt, a, i) is Id implies a == e && i == j by {
        lemma_parted_from(c, d, page_size, parent, gone, at, a, i);
        lemma_parted_from(c, d, page_size, parent, gone, at, e, j);
        let (a0, i0) = parted_from(c, page_size, parent, gone, at, a, i);
        let (e0, j0) = parted_from(c, page_size, parent, gone, at, e, j);
        let new_a = refers_to_piece(c, page_size, parent, gone, at, a, i);
        let new_e = refers_to_piece(c, page_size, parent, gone, at, e, j);
        if !new_a {
            assert(st.nodes.contains_key(ref_at(st, a0, i0)->Id_0));
        }
        if !new_e {
            assert(st.nodes.contains_key(ref_at(st, e0, j0)->Id_0));
        }
        if !new_a && !new_e {
            lemma_only_ref(c.tx, a0, i0, e0, j0);
            lemma_parted_from_apart(c, d, page_size, parent, gone, at, a, i, e, j);
        }
    }
    assert forall|a: u64, i: int| is_entry(dt, a, i) && #[trigger] ref_at(dt, a, i) is Id implies dt.nodes.contains_key(
    ref_at(dt, a, i)->Id_0) && ref_at(dt, a, i) != d.tx.root by {
        lemma_parted_from(c, d, page_size, parent, gone, at, a, i);
        let (a0, i0) = parted_from(c, page_size, parent, gone, at, a, i);
        if !refers_to_piece(c, page_size, parent, gone, at, a, i) {
            assert(st.nodes.contains_key(ref_at(st, a0, i0)->Id_0));
            assert(ref_at(st, a0, i0) != c.tx.root);
            if ref_at(st, a0, i0) == NodeId::Id(gone) {
                lemma_only_ref(c.tx, a0, i0, parent, at);
            }
        }
    }
    assert forall|id: u64| dt.nodes.contains_key(id) implies id < dt.next_node_id by {
        if id < b {
            assert(st.nodes.contains_key(id));
        }
    }
}

/// Whether what the tree of the transaction held at `c` it holds at `d`
/// with some more levels allowed, and the rest of what is passed on.
pub open spec fn passed_up(c: CommitModel, d: CommitModel, page_size: u32) -> bool {
    exists|grow: nat| passed_on(c, d, page_size, grow)
}

/// What is passed up from `c` to `d` and from `d` to `e` is passed up
/// from `c` to `e`.
pub proof fn lemma_passed_up_trans(c: CommitModel, d: CommitModel, e: CommitModel, page_size: u32)
    requires
        passed_up(c, d, page_size),
        passed_up(d, e, page_size),
    ensures
        passed_up(c, e, page_size),
{
    let g1 = choose|g: nat| passed_on(c, d, page_size, g);
    let g2 = choose|g: nat| passed_on(d, e, page_size, g);
    lemma_passed_on_trans(c, d, e, page_size, g1, g2);
}

/// Whether `d` is `c` with a new root above the root: a staged branch
/// under the next number whose one entry refers to the root of `c`.
pub open spec fn crowned(c: CommitModel, d: CommitModel, root: u64) -> bool {
    let b = c.tx.staging.next_node_id;
    &&& d.image == c.image
    &&& d.writer == c.writer
    &&& c.tx.root == NodeId::Id(root)
    &&& d.tx.root == NodeId::Id(b)
    &&& b < u64::MAX
    &&& d.tx.staging.next_node_id == b + 1
    &&& d.tx.staging.nodes.dom() == c.tx.staging.nodes.dom().insert(b)
    &&& forall|x: u64|
        c.tx.staging.nodes.contains_key(x) ==> #[trigger] d.tx.staging.nodes[x]
            == c.tx.staging.nodes[x]
    &&& d.tx.staging.nodes[b] matches NodeModel::Branch(es) && es.len() == 1 && es[0].node_id
        == NodeId::Id(root)
}

/// What a tree held before a new root was put above the root it holds
/// afterwards, and a tree that was in good keeping is so afterwards.
pub proof fn lemma_crowned_holds(
    c: CommitModel,
    d: CommitModel,
    page_size: u32,
    root: u64,
    id: NodeId,
    h: nat,
    k: Seq<u8>,
    v: Seq<u8>,
)
    requires
        crowned(c, d, root),
        c.tx.staging.fresh(),
    ensures
        held(c, id, h, k, v) ==> held(d, id, h, k, v),
        kept(c, page_size, id, h) ==> kept(d, page_size, id, h),
    decreases h,
{
    let low = (h - 1) as nat;
    match id {
        NodeId::Address(a) => {
            assert(load(d, id) == load(c, id));
        },
        NodeId::Id(x) => {
            if c.tx.staging.nodes.contains_key(x) {
                assert(d.tx.staging.nodes.dom().contains(x));
                assert(d.tx.staging.nodes[x] == c.tx.staging.nodes[x]);
            }
        },
    }
    if let Ok(loaded) = load(c, id) {
        if let NodeModel::Branch(cs) = loaded.node {
            if h > 0 {
                assert forall|j: int| 0 <= j < cs.len() implies (held(
                    c,
                    (#[trigger] cs[j]).node_id,
                    low,
                    k,
                    v,
                ) ==> held(d, cs[j].node_id, low, k, v)) && (kept(
                    c,
                    page_size,
                    cs[j].node_id,
                    low,
                ) ==> kept(d, page_size, cs[j].node_id, low)) by {
                    lemma_crowned_holds(c, d, page_size, root, cs[j].node_id, low, k, v);
                }
                if held(c, id, h, k, v) {
                    let j = choose|j: int|
                        0 <= j < cs.len() && held(c, (#[trigger] cs[j]).node_id, low, k, v);
                    lemma_held_branch(d, id, h, j, k, v);
                }
                if kept(c, page_size, id, h) {
                    assert forall|j: int| 0 <= j < cs.len() implies kept(
                        d,
                        page_size,
                        (#[trigger] cs[j]).node_id,
                        low,
                    ) by {
                        assert(kept(c, page_size, cs[j].node_id, low));
                    }
                }
            }
        }
    }
}

/// A new root above the root passes on what the tree held, with one more
/// level.
pub proof fn lemma_crowned(c: CommitModel, d: CommitModel, page_size: u32, root: u64)
    requires
        crowned(c, d, root),
    ensures
        passed_on(c, d, page_size, 1),
{
    if sane(c.tx) {
        let st = c.tx.staging;
        let dt = d.tx.staging;
        let b = st.next_node_id;
        assert(dt.nodes.dom().contains(b));
        assert forall|a: u64, i: int| is_entry(dt, a, i) && #[trigger] ref_at(dt, a, i) is Id implies (
        a == b && i == 0 && ref_at(dt, a, i) == NodeId::Id(root)) || (is_entry(st, a, i) && ref_at(
            st,
            a,
            i,
        ) == ref_at(dt, a, i) && ref_at(st, a, i) != c.tx.root) by {
            assert(dt.nodes.dom().contains(a));
            if a != b {
                assert(st.nodes.contains_key(a));
                assert(dt.nodes[a] == st.nodes[a]);
            }
        }
        assert forall|a: u64, i: int, e: u64, j: int|
            is_entry(dt, a, i) && is_entry(dt, e, j) && #[trigger] ref_at(dt, a, i)
                == #[trigger] ref_at(dt, e, j) && ref_at(dt, a, i) is Id implies a == e && i
            == j by {
            if a != b && e != b {
                lemma_only_ref(c.tx, a, i, e, j);
            }
        }
        assert forall|a: u64, i: int| is_entry(dt, a, i) && #[trigger] ref_at(dt, a, i) is Id implies dt.nodes.contains_key(
        ref_at(dt, a, i)->Id_0) && ref_at(dt, a, i) != d.tx.root by {
            if a != b {
                let r = ref_at(st, a, i)->Id_0;
                assert(st.nodes.contains_key(r));
                assert(dt.nodes.dom().contains(r));
            } else {
                assert(dt.nodes.dom().contains(root));
            }
        }
        assert forall|id: u64| dt.nodes.contains_key(id) implies id < dt.next_node_id by {
            assert(dt.nodes.dom().contains(id));
            if id != b {
                assert(st.nodes.contains_key(id));
            }
        }
        let x = NodeId::Id(root);
        let y = NodeId::Id(b);
        assert forall|h: nat, k: Seq<u8>, v: Seq<u8>| #[trigger]
            held(c, c.tx.root, h, k, v) implies held(d, d.tx.root, h + 1, k, v) by {
            lemma_crowned_holds(c, d, page_size, root, x, h, k, v);
            lemma_held_branch(d, y, h + 1, 0, k, v);
        }
        assert forall|h: nat| #[trigger] kept(c, page_size, c.tx.root, h) implies kept(
            d,
            page_size,
            d.tx.root,
            h + 1,
        ) by {
            lemma_crowned_holds(c, d, page_size, root, x, h, Seq::empty(), Seq::empty());
            let es = dt.nodes[b]->Branch_0;
            assert forall|j: int| 0 <= j < es.len() implies kept(
                d,
                page_size,
                (#[trigger] es[j]).node_id,
                h,
            ) by {}
        }
    }
}

/// The commit at `c` with a new root above the root `node_id`: a staged
/// branch under the next number whose one entry refers to `node_id`.
pub open spec fn crown_of(c: CommitModel, node_id: u64) -> CommitModel {
    let b = c.tx.staging.next_node_id;
    CommitModel {
        tx: TxModel {
            root: NodeId::Id(b),
            staging: StagingModel {
                nodes: c.tx.staging.nodes.insert(
                    b,
                    NodeModel::Branch(
                        seq![BranchEntry { key: Seq::empty(), node_id: NodeId::Id(node_id) }],
                    ),
                ),
                next_node_id: (b + 1) as u64,
                ..c.tx.staging
            },
            ..c.tx
        },
        ..c
    }
}

/// Whether splitting the staged node `node_id` makes more than one piece
/// of it, and it is not the root.
pub open spec fn splits_inside(c: CommitModel, page_size: u32, node_id: u64) -> bool {
    c.tx.staging.nodes[node_id].split(page_size as nat).len() != 1
        && c.tx.staging.parent.contains_key(node_id)
}

/// Whether splitting the staged node `node_id` makes more than one piece
/// of it, and it is the root.
pub open spec fn splits_root(c: CommitModel, page_size: u32, node_id: u64) -> bool {
    c.tx.staging.nodes[node_id].split(page_size as nat).len() != 1
        && !c.tx.staging.parent.contains_key(node_id)
}

/// A node that is split into one piece stays as it is.
pub proof fn lemma_split_one(c: CommitModel, page_size: u32, node_id: u64, node_index: int)
    requires
        split_node(c.tx, page_size, node_id, node_index) is Ok,
        c.tx.staging.nodes[node_id].split(page_size as nat).len() == 1,
    ensures
        split_node(c.tx, page_size, node_id, node_index)->Ok_0.0 == c.tx,
{
    let st = c.tx;
    let (st2, _) = split_node(st, page_size, node_id, node_index)->Ok_0;
    let node = st.staging.nodes[node_id];
    let pieces = node.split(page_size as nat);
    lemma_pieces(node, page_size as nat);
    match node {
        NodeModel::Leaf(ns) => {
            let parts = split_entries(ns, leaf_size_fn(), page_size as nat);
            assert(parts.drop_last().len() == 0);
            assert(concat(parts.drop_last()) =~= Seq::empty());
            assert(concat(parts) == concat(parts.drop_last()) + parts.last());
            assert(concat(parts) =~= parts[0]);
        },
        NodeModel::Branch(ns) => {
            let parts = split_entries(ns, branch_size_fn(), page_size as nat);
            assert(parts.drop_last().len() == 0);
            assert(concat(parts.drop_last()) =~= Seq::empty());
            assert(concat(parts) == concat(parts.drop_last()) + parts.last());
            assert(concat(parts) =~= parts[0]);
        },
    }
    assert(pieces[0] == node);
    assert(st2.staging.nodes =~= st.staging.nodes);
    assert(st2.staging == st.staging);
}

/// Splitting a node that is not the root into pieces parts it in its
/// parent.
pub proof fn lemma_split_inside(c: CommitModel, page_size: u32, node_id: u64, node_index: int)
    requires
        c.tx.staging.fresh(),
        split_node(c.tx, page_size, node_id, node_index) is Ok,
        splits_inside(c, page_size, node_id),
    ensures
        parted(
            c,
            CommitModel { tx: split_node(c.tx, page_size, node_id, node_index)->Ok_0.0, ..c },
            page_size,
            c.tx.staging.parent[node_id],
            node_id,
            node_index,
        ),
{
    let st = c.tx;
    let (st2, _) = split_node(st, page_size, node_id, node_index)->Ok_0;
    let d = CommitModel { tx: st2, ..c };
    let node = st.staging.nodes[node_id];
    let pieces = node.split(page_size as nat);
    let n = pieces.len() as int;
    let b = st.staging.next_node_id;
    lemma_pieces(node, page_size as nat);
    let removed = without_node(st, node_id);
    let parent_id = st.staging.parent[node_id];
    let rooted = with_parents(removed, st.staging.parent.remove(node_id));
    lemma_place_pieces(rooted, pieces, n, parent_id);
    let (placed, entries) = place_pieces(rooted, pieces, n, parent_id);
    let es = placed.staging.nodes[parent_id]->Branch_0;
    assert(parent_id < b);
    assert(placed.staging.nodes[parent_id] == st.staging.nodes[parent_id]);
    let after = st2.staging.nodes;
    let ds = splice_entries(es, node_index, entries);
    assert(after[parent_id] == NodeModel::Branch(ds));
    assert forall|x: u64| #[trigger]
        after.contains_key(x) <==> (x != node_id && st.staging.nodes.contains_key(x)) || b <= x
            < b + n by {
        assert(placed.staging.nodes.contains_key(x) <==> rooted.staging.nodes.contains_key(x) || b
            <= x < b + n);
    }
    assert forall|i: int| 0 <= i < n implies #[trigger] after[(b + i) as u64] == pieces[i] by {
        assert(placed.staging.nodes[(b + i) as u64] == pieces[i]);
    }
    assert forall|i: int| 0 <= i < n implies (#[trigger] ds[node_index + i]).node_id == NodeId::Id(
        (b + i) as u64,
    ) && ds[node_index + i].key == pieces[i].key_at(0) by {
        assert(ds[node_index + i] == entries[i]);
    }
}

/// Splitting the root into pieces parts it in a new root above it.
pub proof fn lemma_split_root(c: CommitModel, page_size: u32, node_id: u64, node_index: int)
    requires
        c.tx.staging.fresh(),
        split_node(c.tx, page_size, node_id, node_index) is Ok,
        splits_root(c, page_size, node_id),
    ensures
        crowned(c, crown_of(c, node_id), node_id),
        parted(
            crown_of(c, node_id),
            CommitModel { tx: split_node(c.tx, page_size, node_id, node_index)->Ok_0.0, ..c },
            page_size,
            c.tx.staging.next_node_id,
            node_id,
            0,
        ),
{
    let st = c.tx;
    let (st2, _) = split_node(st, page_size, node_id, node_index)->Ok_0;
    let d = CommitModel { tx: st2, ..c };
    let node = st.staging.nodes[node_id];
    let pieces = node.split(page_size as nat);
    let n = pieces.len() as int;
    let b = st.staging.next_node_id;
    lemma_pieces(node, page_size as nat);
    let removed = without_node(st, node_id);
    let rooted = TxModel {
        root: NodeId::Id(b),
        ..with_new_node(removed, NodeModel::Branch(Seq::empty()))
    };
    lemma_place_pieces(rooted, pieces, n, b);
    let (placed, entries) = place_pieces(rooted, pieces, n, b);
    let mid = crown_of(c, node_id);
    assert(crowned(c, mid, node_id)) by {
        assert(mid.tx.staging.nodes.dom() =~= st.staging.nodes.dom().insert(b));
    }
    let after = st2.staging.nodes;
    let es = placed.staging.nodes[b]->Branch_0;
    assert(placed.staging.nodes[b] == NodeModel::Branch(Seq::<BranchEntry>::empty()));
    let ds = splice_entries(es, node_index, entries);
    assert(ds == entries);
    assert(after[b] == NodeModel::Branch(ds));
    assert forall|x: u64| #[trigger]
        after.contains_key(x) <==> (x != node_id && mid.tx.staging.nodes.contains_key(x)) || b + 1
            <= x < b + 1 + n by {
        assert(placed.staging.nodes.contains_key(x) <==> rooted.staging.nodes.contains_key(x) || b
            + 1 <= x < b + 1 + n);
    }
    assert forall|i: int| 0 <= i < n implies #[trigger] after[(b + 1 + i) as u64] == pieces[i] by {
        assert(placed.staging.nodes[(b + 1 + i) as u64] == pieces[i]);
    }
    assert forall|x: u64|
        x != node_id && x != b && x < b + 1 && mid.tx.staging.nodes.contains_key(
            x,
        ) implies #[trigger] after[x] == mid.tx.staging.nodes[x] by {
        assert(placed.staging.nodes[x] == rooted.staging.nodes[x]);
    }
    assert forall|i: int| 0 <= i < n implies (#[trigger] ds[0 + i]).node_id == NodeId::Id(
        (b + 1 + i) as u64,
    ) && ds[0 + i].key == pieces[i].key_at(0) by {
        assert(ds[0 + i] == entries[i]);
    }
}

/// Splitting a node passes on what the tree held.
pub proof fn lemma_split_node(c: CommitModel, page_size: u32, node_id: u64, node_index: int)
    requires
        split_node(c.tx, page_size, node_id, node_index) is Ok,
    ensures
        passed_up(
            c,
            CommitModel { tx: split_node(c.tx, page_size, node_id, node_index)->Ok_0.0, ..c },
            page_size,
        ),
{
    let st = c.tx;
    let (st2, _) = split_node(st, page_size, node_id, node_index)->Ok_0;
    let d = CommitModel { tx: st2, ..c };
    if !sane(st) {
        assert(passed_on(c, d, page_size, 0));
    } else if st.staging.nodes[node_id].split(page_size as nat).len() == 1 {
        lemma_split_one(c, page_size, node_id, node_index);
        assert(d == c);
        assert(passed_on(c, d, page_size, 0));
    } else if st.staging.parent.contains_key(node_id) {
        let parent_id = st.staging.parent[node_id];
        lemma_split_inside(c, page_size, node_id, node_index);
        lemma_parted_sane(c, d, page_size, parent_id, node_id, node_index);
        assert forall|h: nat, k: Seq<u8>, v: Seq<u8>| #[trigger]
            held(c, c.tx.root, h, k, v) implies held(d, d.tx.root, h + 0, k, v) by {
            lemma_parted_holds(c, d, page_size, parent_id, node_id, node_index, c.tx.root, h, k, v);
        }
        assert forall|h: nat| #[trigger] kept(c, page_size, c.tx.root, h) implies kept(
            d,
            page_size,
            d.tx.root,
            h + 0,
        ) by {
            lemma_parted_holds(
                c,
                d,
                page_size,
                parent_id,
                node_id,
                node_index,
                c.tx.root,
                h,
                Seq::empty(),
                Seq::empty(),
            );
        }
        assert(passed_on(c, d, page_size, 0));
    } else {
        let b = st.staging.next_node_id;
        let mid = crown_of(c, node_id);
        lemma_split_root(c, page_size, node_id, node_index);
        lemma_crowned(c, mid, page_size, node_id);
        if sane(mid.tx) {
            lemma_parted_sane(mid, d, page_size, b, node_id, 0);
            assert forall|h: nat, k: Seq<u8>, v: Seq<u8>| #[trigger]
                held(mid, mid.tx.root, h, k, v) implies held(d, d.tx.root, h + 0, k, v) by {
                lemma_parted_holds(mid, d, page_size, b, node_id, 0, mid.tx.root, h, k, v);
            }
            assert forall|h: nat| #[trigger] kept(mid, page_size, mid.tx.root, h) implies kept(
                d,
                page_size,
                d.tx.root,
                h + 0,
            ) by {
                lemma_parted_holds(
                    mid,
                    d,
                    page_size,
                    b,
                    node_id,
                    0,
                    mid.tx.root,
                    h,
                    Seq::empty(),
                    Seq::empty(),
                );
            }
        }
        assert(passed_on(mid, d, page_size, 0));
        lemma_passed_on_trans(c, mid, d, page_size, 1, 0);
    }
}

/// Splitting below the staged children of a node passes on what the tree
/// held.
pub proof fn lemma_split_children(
    c: CommitModel,
    page_size: u32,
    node_id: u64,
    from: int,
    depth: nat,
    measure: nat,
)
    requires
        split_children(c.tx, page_size, node_id, from, depth, measure) is Ok,
    ensures
        passed_up(
            c,
            CommitModel {
                tx: split_children(c.tx, page_size, node_id, from, depth, measure)->Ok_0,
                ..c
            },
            page_size,
        ),
    decreases depth, 0nat, measure,
{
    match next_dirty(c.tx.staging.nodes[node_id], from) {
        None => {
            assert(passed_on(c, c, page_size, 0));
        },
        Some((child, index)) => {
            lemma_traverse_split(c, page_size, child, index, (depth - 1) as nat);
            let (after, count) = traverse_split(
                c.tx,
                page_size,
                child,
                index,
                (depth - 1) as nat,
            )->Ok_0;
            let next_from = index + count;
            let left = after.staging.nodes[node_id].len() - next_from;
            let c1 = CommitModel { tx: after, ..c };
            lemma_split_children(c1, page_size, node_id, next_from, depth, left as nat);
            let done = split_children(after, page_size, node_id, next_from, depth, left as nat)->Ok_0;
            lemma_passed_up_trans(c, c1, CommitModel { tx: done, ..c }, page_size);
        },
    }
}

/// Splitting in the staged tree under a node passes on what the tree
/// held.
pub proof fn lemma_traverse_split(
    c: CommitModel,
    page_size: u32,
    node_id: u64,
    node_index: int,
    depth: nat,
)
    requires
        traverse_split(c.tx, page_size, node_id, node_index, depth) is Ok,
    ensures
        passed_up(
            c,
            CommitModel {
                tx: traverse_split(c.tx, page_size, node_id, node_index, depth)->Ok_0.0,
                ..c
            },
            page_size,
        ),
    decreases depth, 1nat, 0nat,
{
    lemma_split_children(c, page_size, node_id, 0, depth, c.tx.staging.nodes[node_id].len());
    let after = split_children(
        c.tx,
        page_size,
        node_id,
        0,
        depth,
        c.tx.staging.nodes[node_id].len(),
    )->Ok_0;
    let c1 = CommitModel { tx: after, ..c };
    if split_candidate(after.staging.nodes[node_id], page_size) {
        lemma_split_node(c1, page_size, node_id, node_index);
        let done = split_node(after, page_size, node_id, node_index)->Ok_0.0;
        lemma_passed_up_trans(c, c1, CommitModel { tx: done, ..c }, page_size);
    }
}

/// Splitting in the staged tree keeps what the tree holds: every value
/// that the tree held under a key it holds under the key afterwards; the
/// tree is in good keeping where it was; and the staged nodes are in
/// order where they were.
pub proof fn lemma_split_all(c: CommitModel, page_size: u32, rounds: nat)
    requires
        split_all(c.tx, page_size, rounds) is Ok,
    ensures
        passed_up(c, CommitModel { tx: split_all(c.tx, page_size, rounds)->Ok_0, ..c }, page_size),
    decreases rounds,
{
    match c.tx.root {
        NodeId::Address(_) => {
            assert(passed_on(c, c, page_size, 0));
        },
        NodeId::Id(id) => {
            lemma_traverse_split(c, page_size, id, 0, 64);
            let (after, count) = traverse_split(c.tx, page_size, id, 0, 64)->Ok_0;
            let c1 = CommitModel { tx: after, ..c };
            if count >= 2 {
                lemma_split_all(c1, page_size, (rounds - 1) as nat);
                let done = split_all(after, page_size, (rounds - 1) as nat)->Ok_0;
                lemma_passed_up_trans(c, c1, CommitModel { tx: done, ..c }, page_size);
            }
        },
    }
}

} // verus!
