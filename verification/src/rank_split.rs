use crate::key::{
    key_lt, lemma_key_lt_le_transitive, lemma_key_lt_transitive, lemma_key_order_equal,
};
use crate::merge_law::{lemma_file_children, lemma_only_ref, passed_on, sane};
use crate::node::{
    branch_size_fn, BranchEntry, leaf_size_fn, next_dirty, NodeId, NodeModel, split_entries,
};
use crate::node_laws::keys_sorted;
use crate::rank::{exact_entry, higher, lemma_ranked_weaken, lower, ranked, under_lo};
use crate::rank_merge::{rank_on, well_ranked};
use crate::split::{split_all, split_candidate, split_children, split_node, traverse_split};
use crate::split_law::{
    crown_of, crowned, lemma_concat_at, lemma_concat_len, lemma_offset_grows, lemma_offset_nonneg,
    lemma_pieces, lemma_split_children, lemma_split_inside, lemma_split_one, lemma_split_root,
    lemma_traverse_split, offset, parted, passed_up,
};
use crate::tree::{
    above, below, branch_keys, child_hi, leaf_keys, lemma_above_trans, lemma_below_trans,
};
use crate::tree_update::{is_entry, unique_refs};
use crate::write_law::load;
use crate::write_model::CommitModel;
use vstd::prelude::*;

verus! {

/// The number of entries of `node` in the pieces before piece `i`, when
/// it is split for pages of `threshold` bytes.
pub open spec fn piece_start(node: NodeModel, threshold: nat, i: int) -> int {
    match node {
        NodeModel::Leaf(ns) => offset(split_entries(ns, leaf_size_fn(), threshold), i),
        NodeModel::Branch(ns) => offset(split_entries(ns, branch_size_fn(), threshold), i),
    }
}

/// A piece holds the entries of the node from where it starts on, and
/// the next piece starts where it ends.
pub proof fn lemma_piece(node: NodeModel, threshold: nat, i: int)
    requires
        0 <= i < node.split(threshold).len(),
    ensures
        ({
            let piece = node.split(threshold)[i];
            let start = piece_start(node, threshold, i);
            &&& 0 <= start
            &&& start + piece.len() <= node.len()
            &&& piece_start(node, threshold, i + 1) == start + piece.len()
            &&& piece_start(node, threshold, 0) == 0
            &&& piece_start(node, threshold, node.split(threshold).len() as int) == node.len()
            &&& (node is Leaf) == (piece is Leaf)
            &&& forall|q: int| 0 <= q < piece.len() ==> #[trigger] piece.key_at(q) == node.key_at(start + q)
            &&& node matches NodeModel::Branch(ns) ==> forall|q: int|
                0 <= q < piece.len() ==> #[trigger] piece->Branch_0[q] == ns[start + q]
            &&& node matches NodeModel::Leaf(ns) ==> forall|q: int|
                0 <= q < piece.len() ==> #[trigger] piece->Leaf_0[q] == ns[start + q]
        }),
{
    lemma_pieces(node, threshold);
    match node {
        NodeModel::Leaf(ns) => {
            let parts = split_entries(ns, leaf_size_fn(), threshold);
            lemma_offset_nonneg(parts, i);
            lemma_concat_len(parts);
            lemma_offset_grows(parts, i, parts.len() as int);
            assert forall|q: int| 0 <= q < parts[i].len() implies #[trigger] parts[i][q] == ns[offset(
                parts,
                i,
            ) + q] by {
                lemma_concat_at(parts, i, q);
            }
        },
        NodeModel::Branch(ns) => {
            let parts = split_entries(ns, branch_size_fn(), threshold);
            lemma_offset_nonneg(parts, i);
            lemma_concat_len(parts);
            lemma_offset_grows(parts, i, parts.len() as int);
            assert forall|q: int| 0 <= q < parts[i].len() implies #[trigger] parts[i][q] == ns[offset(
                parts,
                i,
            ) + q] by {
                lemma_concat_at(parts, i, q);
            }
        },
    }
}

/// A later piece starts after an earlier one ends.
pub proof fn lemma_piece_order(node: NodeModel, threshold: nat, i: int, j: int)
    requires
        0 <= i < j < node.split(threshold).len(),
    ensures
        piece_start(node, threshold, i) + node.split(threshold)[i].len() <= piece_start(
            node,
            threshold,
            j,
        ),
{
    lemma_pieces(node, threshold);
    match node {
        NodeModel::Leaf(ns) => {
            lemma_offset_grows(split_entries(ns, leaf_size_fn(), threshold), i, j);
        },
        NodeModel::Branch(ns) => {
            lemma_offset_grows(split_entries(ns, branch_size_fn(), threshold), i, j);
        },
    }
}

/// The keys of a node in rank grow and lie within its bounds.
pub proof fn lemma_ranked_keys(
    c: CommitModel,
    id: NodeId,
    h: nat,
    lo: Option<Seq<u8>>,
    hi: Option<Seq<u8>>,
)
    requires
        ranked(c, id, h, lo, hi, false),
    ensures
        forall|i: int, j: int|
            0 <= i < j < load(c, id)->Ok_0.node.len() ==> key_lt(
                #[trigger] load(c, id)->Ok_0.node.key_at(i),
                #[trigger] load(c, id)->Ok_0.node.key_at(j),
            ),
        forall|i: int|
            0 <= i < load(c, id)->Ok_0.node.len() ==> above(
                lo,
                #[trigger] load(c, id)->Ok_0.node.key_at(i),
            ) && below(load(c, id)->Ok_0.node.key_at(i), hi),
{
    let n = load(c, id)->Ok_0.node;
    match n {
        NodeModel::Leaf(es) => {
            assert forall|i: int, j: int| 0 <= i < j < n.len() implies key_lt(
                #[trigger] n.key_at(i),
                #[trigger] n.key_at(j),
            ) by {
                assert(key_lt(leaf_keys(es)[i], leaf_keys(es)[j]));
            }
            assert forall|i: int| 0 <= i < n.len() implies above(lo, #[trigger] n.key_at(i))
                && below(n.key_at(i), hi) by {
                assert(above(lo, es[i].key));
            }
        },
        NodeModel::Branch(es) => {
            assert forall|i: int, j: int| 0 <= i < j < n.len() implies key_lt(
                #[trigger] n.key_at(i),
                #[trigger] n.key_at(j),
            ) by {
                assert(key_lt(branch_keys(es)[i], branch_keys(es)[j]));
            }
            assert forall|i: int| 0 <= i < n.len() implies above(lo, #[trigger] n.key_at(i))
                && below(n.key_at(i), hi) by {
                assert(above(lo, es[i].key));
            }
        },
    }
}

/// The bound from below of piece `i` of a node with the bound `lo`: the
/// first key of the piece, but for the first piece of a node without a
/// bound.
pub open spec fn piece_lo(lo: Option<Seq<u8>>, i: int, first: Seq<u8>) -> Option<Seq<u8>> {
    if i == 0 && lo is None {
        None
    } else {
        Some(first)
    }
}

/// The bound from above of piece `i` of `n` pieces of a node with the
/// bound `hi`: the first key of the next piece, and for the last piece
/// the bound of the node.
pub open spec fn piece_hi(hi: Option<Seq<u8>>, i: int, n: int, next: Seq<u8>) -> Option<Seq<u8>> {
    if i + 1 < n {
        Some(next)
    } else {
        hi
    }
}

/// Whether `ds` are the entries `es` with `n` entries in the place of
/// entry `at`.
pub open spec fn spliced(es: Seq<BranchEntry>, ds: Seq<BranchEntry>, at: int, n: int) -> bool {
    &&& 0 <= at < es.len()
    &&& n >= 1
    &&& ds.len() == es.len() - 1 + n
    &&& forall|j: int| 0 <= j < at ==> #[trigger] ds[j] == es[j]
    &&& forall|j: int| at < j < es.len() ==> #[trigger] ds[j + n - 1] == es[j]
}

/// The keys of entries with new entries in the place of one grow and lie
/// within the bounds, where the keys of the new entries grow and lie
/// within the bounds of the entry that they stand for.
pub proof fn lemma_spliced_keys(
    es: Seq<BranchEntry>,
    ds: Seq<BranchEntry>,
    at: int,
    n: int,
    lo: Option<Seq<u8>>,
    hi: Option<Seq<u8>>,
)
    requires
        spliced(es, ds, at, n),
        keys_sorted(branch_keys(es)),
        forall|j: int| 0 <= j < es.len() ==> above(lo, (#[trigger] es[j]).key) && below(es[j].key, hi),
        forall|i: int, j: int|
            0 <= i < j < n ==> key_lt(#[trigger] ds[at + i].key, #[trigger] ds[at + j].key),
        forall|i: int|
            0 <= i < n ==> above(under_lo(es, at, lo), #[trigger] ds[at + i].key) && below(
                ds[at + i].key,
                child_hi(es, at, hi),
            ),
    ensures
        keys_sorted(branch_keys(ds)),
        forall|j: int| 0 <= j < ds.len() ==> above(lo, (#[trigger] ds[j]).key) && below(ds[j].key, hi),
{
    let l_node = under_lo(es, at, lo);
    let h_node = child_hi(es, at, hi);
    lemma_key_order_equal(es[at].key, es[at].key);
    assert forall|j: int| 0 <= j < ds.len() implies above(lo, (#[trigger] ds[j]).key) && below(
        ds[j].key,
        hi,
    ) by {
        if j < at {
            assert(ds[j] == es[j]);
        } else if j >= at + n {
            assert(ds[(j - n + 1) + n - 1] == es[j - n + 1]);
        } else {
            let k = ds[at + (j - at)].key;
            assert(above(l_node, k) && below(k, h_node));
            assert(above(lo, es[at].key));
            if lo is Some {
                lemma_above_trans(lo, es[at].key, k);
            }
            if at + 1 < es.len() {
                assert(below(es[at + 1].key, hi));
                lemma_below_trans(k, es[at + 1].key, hi);
            }
        }
    }
    assert forall|a: int, z: int| 0 <= a < z < ds.len() implies key_lt(
        branch_keys(ds)[a],
        branch_keys(ds)[z],
    ) by {
        if z < at {
            assert(ds[a] == es[a] && ds[z] == es[z]);
            assert(key_lt(branch_keys(es)[a], branch_keys(es)[z]));
        } else if a >= at + n {
            assert(ds[(a - n + 1) + n - 1] == es[a - n + 1]);
            assert(ds[(z - n + 1) + n - 1] == es[z - n + 1]);
            assert(key_lt(branch_keys(es)[a - n + 1], branch_keys(es)[z - n + 1]));
        } else if a < at && z >= at + n {
            assert(ds[a] == es[a]);
            assert(ds[(z - n + 1) + n - 1] == es[z - n + 1]);
            assert(key_lt(branch_keys(es)[a], branch_keys(es)[z - n + 1]));
        } else if a < at {
            assert(ds[a] == es[a]);
            assert(above(l_node, ds[at + (z - at)].key));
            assert(key_lt(branch_keys(es)[a], branch_keys(es)[at]));
            lemma_key_lt_le_transitive(es[a].key, es[at].key, ds[z].key);
        } else if z >= at + n {
            assert(ds[(z - n + 1) + n - 1] == es[z - n + 1]);
            assert(below(ds[at + (a - at)].key, h_node));
            if z - n + 1 > at + 1 {
                assert(key_lt(branch_keys(es)[at + 1], branch_keys(es)[z - n + 1]));
                lemma_key_lt_transitive(ds[a].key, es[at + 1].key, es[z - n + 1].key);
            }
        } else {
            assert(key_lt(ds[at + (a - at)].key, ds[at + (z - at)].key));
        }
    }
}

/// The bounds of an entry that was there before the split hold back no
/// more afterwards.
pub proof fn lemma_spliced_bounds(
    es: Seq<BranchEntry>,
    ds: Seq<BranchEntry>,
    at: int,
    n: int,
    lo: Option<Seq<u8>>,
    hi: Option<Seq<u8>>,
    i: int,
)
    requires
        spliced(es, ds, at, n),
        keys_sorted(branch_keys(es)),
        forall|j: int| 0 <= j < es.len() ==> above(lo, (#[trigger] es[j]).key) && below(es[j].key, hi),
        above(under_lo(es, at, lo), ds[at].key),
        0 <= i < es.len(),
        i != at,
    ensures
        ({
            let j = if i < at {
                i
            } else {
                i + n - 1
            };
            &&& ds[j] == es[i]
            &&& lower(under_lo(ds, j, lo), under_lo(es, i, lo))
            &&& higher(child_hi(ds, j, hi), child_hi(es, i, hi))
        }),
{
    let j = if i < at {
        i
    } else {
        i + n - 1
    };
    lemma_key_order_equal(es[i].key, es[i].key);
    if let Some(x) = hi {
        lemma_key_order_equal(x, x);
    }
    if i < at {
        assert(ds[i] == es[i]);
        if i + 1 < at {
            assert(ds[i + 1] == es[i + 1]);
            lemma_key_order_equal(es[i + 1].key, es[i + 1].key);
        }
    } else {
        assert(ds[i + n - 1] == es[i]);
        if i + 1 < es.len() {
            assert(ds[(i + 1) + n - 1] == es[i + 1]);
            lemma_key_order_equal(es[i + 1].key, es[i + 1].key);
        }
    }
}

/// The keys of a piece grow and lie from its first key up to the first
/// key of the next piece.
pub proof fn lemma_piece_keys(
    c: CommitModel,
    gone: u64,
    threshold: nat,
    i: int,
    h: nat,
    lo: Option<Seq<u8>>,
    hi: Option<Seq<u8>>,
)
    requires
        ranked(c, NodeId::Id(gone), h, lo, hi, false),
        0 <= i < load(c, NodeId::Id(gone))->Ok_0.node.split(threshold).len(),
        forall|p: int|
            0 <= p < load(c, NodeId::Id(gone))->Ok_0.node.split(threshold).len() ==> (
            #[trigger] load(c, NodeId::Id(gone))->Ok_0.node.split(threshold)[p]).len() > 0,
    ensures
        ({
            let node = load(c, NodeId::Id(gone))->Ok_0.node;
            let pieces = node.split(threshold);
            let piece = pieces[i];
            let plo = piece_lo(lo, i, piece.key_at(0));
            let phi = piece_hi(hi, i, pieces.len() as int, pieces[i + 1].key_at(0));
            &&& forall|q: int, r: int|
                0 <= q < r < piece.len() ==> key_lt(
                    #[trigger] piece.key_at(q),
                    #[trigger] piece.key_at(r),
                )
            &&& forall|q: int|
                0 <= q < piece.len() ==> above(plo, #[trigger] piece.key_at(q)) && below(
                    piece.key_at(q),
                    phi,
                )
            &&& above(lo, piece.key_at(0))
            &&& below(piece.key_at(0), hi)
            &&& i + 1 < pieces.len() ==> key_lt(piece.key_at(0), pieces[i + 1].key_at(0))
        }),
{
    let node = load(c, NodeId::Id(gone))->Ok_0.node;
    let pieces = node.split(threshold);
    let n = pieces.len() as int;
    let piece = pieces[i];
    let start = piece_start(node, threshold, i);
    let plo = piece_lo(lo, i, piece.key_at(0));
    let phi = piece_hi(hi, i, n, pieces[i + 1].key_at(0));
    lemma_piece(node, threshold, i);
    lemma_ranked_keys(c, NodeId::Id(gone), h, lo, hi);
    assert(piece.len() > 0);
    assert(piece.key_at(0) == node.key_at(start + 0));
    if i + 1 < n {
        lemma_piece(node, threshold, i + 1);
        assert(pieces[i + 1].len() > 0);
        assert(pieces[i + 1].key_at(0) == node.key_at(start + piece.len() + 0));
        assert(key_lt(node.key_at(start), node.key_at(start + piece.len())));
    }
    lemma_key_order_equal(piece.key_at(0), piece.key_at(0));
    assert forall|q: int| 0 <= q < piece.len() implies above(plo, #[trigger] piece.key_at(q))
        && below(piece.key_at(q), phi) by {
        assert(piece.key_at(q) == node.key_at(start + q));
        if q > 0 {
            assert(key_lt(node.key_at(start), node.key_at(start + q)));
        }
        if i + 1 < n {
            assert(key_lt(node.key_at(start + q), node.key_at(start + piece.len())));
        }
    }
    assert forall|q: int, r: int| 0 <= q < r < piece.len() implies key_lt(
        #[trigger] piece.key_at(q),
        #[trigger] piece.key_at(r),
    ) by {
        assert(piece.key_at(q) == node.key_at(start + q));
        assert(piece.key_at(r) == node.key_at(start + r));
        assert(key_lt(node.key_at(start + q), node.key_at(start + r)));
    }
}

/// The bounds of entry `q` of a piece that is a branch are the bounds of
/// the entry of the node that it is.
pub proof fn lemma_piece_bounds(
    node: NodeModel,
    threshold: nat,
    i: int,
    q: int,
    lo: Option<Seq<u8>>,
    hi: Option<Seq<u8>>,
)
    requires
        node is Branch,
        0 <= i < node.split(threshold).len(),
        0 <= q < node.split(threshold)[i].len(),
        forall|p: int| 0 <= p < node.split(threshold).len() ==> (#[trigger] node.split(threshold)[p]).len() > 0,
    ensures
        ({
            let pieces = node.split(threshold);
            let ps = pieces[i]->Branch_0;
            let ns = node->Branch_0;
            let j = piece_start(node, threshold, i) + q;
            let plo = piece_lo(lo, i, pieces[i].key_at(0));
            let phi = piece_hi(hi, i, pieces.len() as int, pieces[i + 1].key_at(0));
            &&& pieces[i] is Branch
            &&& 0 <= j < ns.len()
            &&& ps[q] == ns[j]
            &&& under_lo(ps, q, plo) == under_lo(ns, j, lo)
            &&& child_hi(ps, q, phi) == child_hi(ns, j, hi)
        }),
{
    let pieces = node.split(threshold);
    let n = pieces.len() as int;
    let ps = pieces[i]->Branch_0;
    let ns = node->Branch_0;
    let start = piece_start(node, threshold, i);
    let j = start + q;
    lemma_piece(node, threshold, i);
    assert(ps[q] == ns[j]);
    assert(pieces[i].key_at(0) == node.key_at(start + 0));
    if q + 1 < ps.len() {
        assert(ps[q + 1] == ns[j + 1]);
    }
    if i + 1 < n {
        lemma_piece(node, threshold, i + 1);
        assert(pieces[i + 1].len() > 0);
        assert(pieces[i + 1].key_at(0) == node.key_at(start + ps.len() + 0));
    }
    if i > 0 {
        lemma_piece_order(node, threshold, 0, i);
        lemma_piece(node, threshold, 0);
        assert(pieces[0].len() > 0);
    }
}

/// The tree under an entry of a staged branch in rank is in rank, for
/// the bounds of the entry, and the entry is exact where it refers to a
/// node in the file.
pub proof fn lemma_child_of(
    c: CommitModel,
    x: u64,
    j: int,
    low: nat,
    lo: Option<Seq<u8>>,
    hi: Option<Seq<u8>>,
)
    requires
        ranked(c, NodeId::Id(x), low + 1, lo, hi, false),
        c.tx.staging.nodes[x] is Branch,
        0 <= j < c.tx.staging.nodes[x].len(),
    ensures
        ({
            let es = c.tx.staging.nodes[x]->Branch_0;
            &&& c.tx.staging.nodes.contains_key(x)
            &&& es[j].node_id is Address ==> exact_entry(c, es[j])
            &&& ranked(c, es[j].node_id, low, under_lo(es, j, lo), child_hi(es, j, hi), false)
        }),
{
    let es = c.tx.staging.nodes[x]->Branch_0;
    assert(load(c, NodeId::Id(x))->Ok_0.node == c.tx.staging.nodes[x]);
    assert(((low + 1) as nat - 1) as nat == low);
    assert(ranked(
        c,
        es[j].node_id,
        ((low + 1) as nat - 1) as nat,
        under_lo(es, j, lo),
        child_hi(es, j, hi),
        false,
    ));
}

/// An entry that is exact before a split is exact afterwards, where it
/// refers to a node in the file.
pub proof fn lemma_parted_exact(
    c: CommitModel,
    d: CommitModel,
    page_size: u32,
    parent: u64,
    gone: u64,
    at: int,
    e: BranchEntry,
)
    requires
        parted(c, d, page_size, parent, gone, at),
        e.node_id is Address,
        exact_entry(c, e),
    ensures
        exact_entry(d, e),
{
    assert(load(d, e.node_id) == load(c, e.node_id));
}

/// A piece of a node that was in rank is in rank: for keys from its
/// first key up to the first key of the next piece.
pub proof fn lemma_parted_piece_ranked(
    c: CommitModel,
    d: CommitModel,
    page_size: u32,
    parent: u64,
    gone: u64,
    at: int,
    i: int,
    h: nat,
    lo: Option<Seq<u8>>,
    hi: Option<Seq<u8>>,
)
    requires
        parted(c, d, page_size, parent, gone, at),
        unique_refs(c.tx.staging),
        c.tx.staging.fresh(),
        ranked(c, NodeId::Id(gone), h, lo, hi, false),
        0 <= i < c.tx.staging.nodes[gone].split(page_size as nat).len(),
    ensures
        ({
            let pieces = c.tx.staging.nodes[gone].split(page_size as nat);
            let b = c.tx.staging.next_node_id;
            ranked(
                d,
                NodeId::Id((b + i) as u64),
                h,
                piece_lo(lo, i, pieces[i].key_at(0)),
                piece_hi(hi, i, pieces.len() as int, pieces[i + 1].key_at(0)),
                false,
            )
        }),
    decreases h, 0nat,
{
    let st = c.tx.staging;
    let node = st.nodes[gone];
    let t = page_size as nat;
    let pieces = node.split(t);
    let n = pieces.len() as int;
    let b = st.next_node_id;
    let low = (h - 1) as nat;
    let piece = pieces[i];
    let y = NodeId::Id((b + i) as u64);
    let plo = piece_lo(lo, i, piece.key_at(0));
    let phi = piece_hi(hi, i, n, pieces[i + 1].key_at(0));
    assert(load(c, NodeId::Id(gone))->Ok_0.node == node);
    assert(load(d, y) is Ok && load(d, y)->Ok_0.node == piece && (piece is Leaf) == (node is Leaf)) by {
        assert(d.tx.staging.nodes.contains_key((b + i) as u64));
        assert(d.tx.staging.nodes[(b + i) as u64] == piece);
        lemma_piece(node, t, i);
    }
    assert(forall|p: int| 0 <= p < n ==> (#[trigger] pieces[p]).len() > 0);
    lemma_piece_keys(c, gone, t, i, h, lo, hi);
    match piece {
        NodeModel::Leaf(ps) => {
            assert forall|q: int, r: int| 0 <= q < r < ps.len() implies key_lt(
                leaf_keys(ps)[q],
                leaf_keys(ps)[r],
            ) by {
                assert(key_lt(piece.key_at(q), piece.key_at(r)));
            }
            assert forall|q: int| 0 <= q < ps.len() implies above(plo, (#[trigger] ps[q]).key)
                && below(ps[q].key, phi) by {
                assert(above(plo, piece.key_at(q)));
            }
        },
        NodeModel::Branch(ps) => {
            let ns = node->Branch_0;
            assert forall|q: int, r: int| 0 <= q < r < ps.len() implies key_lt(
                branch_keys(ps)[q],
                branch_keys(ps)[r],
            ) by {
                assert(key_lt(piece.key_at(q), piece.key_at(r)));
            }
            assert forall|q: int| 0 <= q < ps.len() implies above(plo, (#[trigger] ps[q]).key)
                && below(ps[q].key, phi) by {
                assert(above(plo, piece.key_at(q)));
            }
            assert forall|q: int| 0 <= q < ps.len() implies (((#[trigger] ps[q]).node_id is Address
                ==> exact_entry(d, ps[q])) && ranked(
                d,
                ps[q].node_id,
                low,
                under_lo(ps, q, plo),
                child_hi(ps, q, phi),
                false,
            )) by {
                lemma_piece_bounds(node, t, i, q, lo, hi);
                let j = piece_start(node, t, i) + q;
                lemma_parted_child(c, d, page_size, parent, gone, at, j, low, lo, hi);
            }
        },
    }
}

/// A child of the node that was split is in rank afterwards where it
/// was, and an entry that refers to it in the file is exact as before.
pub proof fn lemma_parted_child(
    c: CommitModel,
    d: CommitModel,
    page_size: u32,
    parent: u64,
    gone: u64,
    at: int,
    j: int,
    low: nat,
    lo: Option<Seq<u8>>,
    hi: Option<Seq<u8>>,
)
    requires
        parted(c, d, page_size, parent, gone, at),
        unique_refs(c.tx.staging),
        c.tx.staging.fresh(),
        ranked(c, NodeId::Id(gone), low + 1, lo, hi, false),
        c.tx.staging.nodes[gone] is Branch,
        0 <= j < c.tx.staging.nodes[gone].len(),
    ensures
        ({
            let ns = c.tx.staging.nodes[gone]->Branch_0;
            &&& ns[j].node_id is Address ==> exact_entry(d, ns[j])
            &&& ranked(d, ns[j].node_id, low, under_lo(ns, j, lo), child_hi(ns, j, hi), false)
        }),
    decreases low, 5nat,
{
    let ns = c.tx.staging.nodes[gone]->Branch_0;
    lemma_child_of(c, gone, j, low, lo, hi);
    lemma_parted_entry(c, d, page_size, parent, gone, at, gone, j);
    if ns[j].node_id is Address {
        lemma_parted_exact(c, d, page_size, parent, gone, at, ns[j]);
    }
    lemma_parted_ranked(
        c,
        d,
        page_size,
        parent,
        gone,
        at,
        ns[j].node_id,
        low,
        under_lo(ns, j, lo),
        child_hi(ns, j, hi),
    );
}

/// No entry but that of the parent refers to the node that is split.
pub proof fn lemma_parted_entry(
    c: CommitModel,
    d: CommitModel,
    page_size: u32,
    parent: u64,
    gone: u64,
    at: int,
    x: u64,
    j: int,
)
    requires
        parted(c, d, page_size, parent, gone, at),
        unique_refs(c.tx.staging),
        is_entry(c.tx.staging, x, j),
        !(x == parent && j == at),
    ensures
        crate::tree_update::ref_at(c.tx.staging, x, j) != NodeId::Id(gone),
{
    let st = c.tx.staging;
    assert(is_entry(st, parent, at));
    if crate::tree_update::ref_at(st, x, j) == NodeId::Id(gone) {
        lemma_only_ref(c.tx, x, j, parent, at);
    }
}

/// The entries of the parent after a split are its entries with the
/// entries for the pieces in the place of the entry of the node.
pub proof fn lemma_parted_spliced(c: CommitModel, d: CommitModel, page_size: u32, parent: u64, gone: u64, at: int)
    requires
        parted(c, d, page_size, parent, gone, at),
    ensures
        spliced(
            c.tx.staging.nodes[parent]->Branch_0,
            d.tx.staging.nodes[parent]->Branch_0,
            at,
            c.tx.staging.nodes[gone].split(page_size as nat).len() as int,
        ),
        d.tx.staging.nodes.contains_key(parent),
        d.tx.staging.nodes[parent] is Branch,
        forall|i: int|
            0 <= i < c.tx.staging.nodes[gone].split(page_size as nat).len() ==> (
            #[trigger] d.tx.staging.nodes[parent]->Branch_0[at + i]).node_id == NodeId::Id(
                (c.tx.staging.next_node_id + i) as u64,
            ) && d.tx.staging.nodes[parent]->Branch_0[at + i].key == c.tx.staging.nodes[gone].split(
                page_size as nat,
            )[i].key_at(0),
        forall|i: int|
            0 <= i < c.tx.staging.nodes[gone].split(page_size as nat).len() ==> (
            #[trigger] c.tx.staging.nodes[gone].split(page_size as nat)[i]).len() > 0,
{
    let n = c.tx.staging.nodes[gone].split(page_size as nat).len() as int;
    lemma_pieces(c.tx.staging.nodes[gone], page_size as nat);
    lemma_split_entries_len(c.tx.staging.nodes[gone], page_size as nat);
}

/// A node is split into one piece at least.
pub proof fn lemma_split_entries_len(node: NodeModel, threshold: nat)
    ensures
        node.split(threshold).len() >= 1,
{
    lemma_pieces(node, threshold);
    match node {
        NodeModel::Leaf(ns) => crate::node_laws::lemma_split_entries(ns, leaf_size_fn(), threshold),
        NodeModel::Branch(ns) => crate::node_laws::lemma_split_entries(
            ns,
            branch_size_fn(),
            threshold,
        ),
    }
}

/// The parent of the node that was split is in rank afterwards where it
/// was.
#[verifier::rlimit(100)]
pub proof fn lemma_parted_parent_ranked(
    c: CommitModel,
    d: CommitModel,
    page_size: u32,
    parent: u64,
    gone: u64,
    at: int,
    h: nat,
    lo: Option<Seq<u8>>,
    hi: Option<Seq<u8>>,
)
    requires
        parted(c, d, page_size, parent, gone, at),
        unique_refs(c.tx.staging),
        c.tx.staging.fresh(),
        ranked(c, NodeId::Id(parent), h, lo, hi, false),
    ensures
        ranked(d, NodeId::Id(parent), h, lo, hi, false),
    decreases h, 3nat,
{
    let st = c.tx.staging;
    let es = st.nodes[parent]->Branch_0;
    let ds = d.tx.staging.nodes[parent]->Branch_0;
    let node = st.nodes[gone];
    let t = page_size as nat;
    let pieces = node.split(t);
    let n = pieces.len() as int;
    let b = st.next_node_id;
    let low = (h - 1) as nat;
    let id = NodeId::Id(parent);
    let l_node = under_lo(es, at, lo);
    let h_node = child_hi(es, at, hi);
    lemma_parted_spliced(c, d, page_size, parent, gone, at);
    assert(load(c, id)->Ok_0.node == NodeModel::Branch(es));
    assert(load(d, id) is Ok && load(d, id)->Ok_0.node == NodeModel::Branch(ds));
    assert(ranked(c, es[at].node_id, low, l_node, h_node, false));
    assert(es[at].node_id == NodeId::Id(gone));
    assert(load(c, NodeId::Id(gone))->Ok_0.node == node);
    assert forall|i: int| 0 <= i < n implies above(l_node, #[trigger] ds[at + i].key) && below(
        ds[at + i].key,
        h_node,
    ) by {
        lemma_piece_keys(c, gone, t, i, low, l_node, h_node);
    }
    assert forall|i: int, j: int| 0 <= i < j < n implies key_lt(
        #[trigger] ds[at + i].key,
        #[trigger] ds[at + j].key,
    ) by {
        lemma_piece_first_keys(c, gone, t, i, j, low, l_node, h_node);
    }
    lemma_spliced_keys(es, ds, at, n, lo, hi);
    assert forall|j: int| 0 <= j < ds.len() implies (((#[trigger] ds[j]).node_id is Address
        ==> exact_entry(d, ds[j])) && ranked(
        d,
        ds[j].node_id,
        low,
        under_lo(ds, j, lo),
        child_hi(ds, j, hi),
        false,
    )) by {
        if at <= j < at + n {
            let i = j - at;
            assert(ds[at + i].node_id == NodeId::Id((b + i) as u64));
            lemma_parted_piece_ranked(c, d, page_size, parent, gone, at, i, low, l_node, h_node);
            assert(under_lo(ds, j, lo) == piece_lo(l_node, i, pieces[i].key_at(0)));
            assert(child_hi(ds, j, hi) == piece_hi(h_node, i, n, pieces[i + 1].key_at(0))) by {
                if i + 1 < n {
                    assert(ds[at + (i + 1)].key == pieces[i + 1].key_at(0));
                } else if at + 1 < es.len() {
                    assert(ds[(at + 1) + n - 1] == es[at + 1]);
                }
            }
        } else {
            let i = if j < at {
                j
            } else {
                j - n + 1
            };
            assert(above(l_node, ds[at + 0].key));
            lemma_spliced_bounds(es, ds, at, n, lo, hi, i);
            lemma_parted_sibling(c, d, page_size, parent, gone, at, i, low, lo, hi);
            lemma_ranked_weaken(
                d,
                es[i].node_id,
                low,
                under_lo(es, i, lo),
                child_hi(es, i, hi),
                false,
                under_lo(ds, j, lo),
                child_hi(ds, j, hi),
                false,
            );
        }
    }
}

/// The first keys of two pieces grow.
pub proof fn lemma_piece_first_keys(
    c: CommitModel,
    gone: u64,
    threshold: nat,
    i: int,
    j: int,
    h: nat,
    lo: Option<Seq<u8>>,
    hi: Option<Seq<u8>>,
)
    requires
        ranked(c, NodeId::Id(gone), h, lo, hi, false),
        0 <= i < j < load(c, NodeId::Id(gone))->Ok_0.node.split(threshold).len(),
        forall|p: int|
            0 <= p < load(c, NodeId::Id(gone))->Ok_0.node.split(threshold).len() ==> (
            #[trigger] load(c, NodeId::Id(gone))->Ok_0.node.split(threshold)[p]).len() > 0,
    ensures
        key_lt(
            load(c, NodeId::Id(gone))->Ok_0.node.split(threshold)[i].key_at(0),
            load(c, NodeId::Id(gone))->Ok_0.node.split(threshold)[j].key_at(0),
        ),
{
    let node = load(c, NodeId::Id(gone))->Ok_0.node;
    let pieces = node.split(threshold);
    lemma_piece(node, threshold, i);
    lemma_piece(node, threshold, j);
    lemma_piece_order(node, threshold, i, j);
    lemma_ranked_keys(c, NodeId::Id(gone), h, lo, hi);
    assert(pieces[i].len() > 0 && pieces[j].len() > 0);
    assert(pieces[i].key_at(0) == node.key_at(piece_start(node, threshold, i) + 0));
    assert(pieces[j].key_at(0) == node.key_at(piece_start(node, threshold, j) + 0));
    assert(key_lt(
        node.key_at(piece_start(node, threshold, i)),
        node.key_at(piece_start(node, threshold, j)),
    ));
}

/// An entry of the parent beside the node that was split refers to a
/// tree that is in rank afterwards where it was, and is exact as before.
pub proof fn lemma_parted_sibling(
    c: CommitModel,
    d: CommitModel,
    page_size: u32,
    parent: u64,
    gone: u64,
    at: int,
    i: int,
    low: nat,
    lo: Option<Seq<u8>>,
    hi: Option<Seq<u8>>,
)
    requires
        parted(c, d, page_size, parent, gone, at),
        unique_refs(c.tx.staging),
        c.tx.staging.fresh(),
        ranked(c, NodeId::Id(parent), low + 1, lo, hi, false),
        c.tx.staging.nodes[parent] is Branch,
        0 <= i < c.tx.staging.nodes[parent].len(),
        i != at,
    ensures
        ({
            let es = c.tx.staging.nodes[parent]->Branch_0;
            &&& es[i].node_id is Address ==> exact_entry(d, es[i])
            &&& ranked(d, es[i].node_id, low, under_lo(es, i, lo), child_hi(es, i, hi), false)
        }),
    decreases low, 5nat,
{
    let es = c.tx.staging.nodes[parent]->Branch_0;
    lemma_child_of(c, parent, i, low, lo, hi);
    lemma_parted_entry(c, d, page_size, parent, gone, at, parent, i);
    if es[i].node_id is Address {
        lemma_parted_exact(c, d, page_size, parent, gone, at, es[i]);
    }
    lemma_parted_ranked(
        c,
        d,
        page_size,
        parent,
        gone,
        at,
        es[i].node_id,
        low,
        under_lo(es, i, lo),
        child_hi(es, i, hi),
    );
}

/// A tree that was in rank before a node was split is so afterwards,
/// where its root is not the node that was split.
pub proof fn lemma_parted_ranked(
    c: CommitModel,
    d: CommitModel,
    page_size: u32,
    parent: u64,
    gone: u64,
    at: int,
    id: NodeId,
    h: nat,
    lo: Option<Seq<u8>>,
    hi: Option<Seq<u8>>,
)
    requires
        parted(c, d, page_size, parent, gone, at),
        unique_refs(c.tx.staging),
        c.tx.staging.fresh(),
        id != NodeId::Id(gone),
        ranked(c, id, h, lo, hi, false),
    ensures
        ranked(d, id, h, lo, hi, false),
    decreases h, 4nat,
{
    let st = c.tx.staging;
    let b = st.next_node_id;
    let low = (h - 1) as nat;
    if id == NodeId::Id(parent) {
        lemma_parted_parent_ranked(c, d, page_size, parent, gone, at, h, lo, hi);
    } else {
        match id {
            NodeId::Address(a) => {
                lemma_file_children(c, a);
                assert(load(d, id) == load(c, id));
            },
            NodeId::Id(x) => {
                assert(st.nodes.contains_key(x));
                assert(x < b);
                assert(d.tx.staging.nodes.contains_key(x));
                assert(d.tx.staging.nodes[x] == st.nodes[x]);
            },
        }
        if let NodeModel::Branch(cs) = load(c, id)->Ok_0.node {
            assert forall|j: int| 0 <= j < cs.len() implies (((#[trigger] cs[j]).node_id is Address
                ==> exact_entry(d, cs[j])) && ranked(
                d,
                cs[j].node_id,
                low,
                under_lo(cs, j, lo),
                child_hi(cs, j, hi),
                false,
            )) by {
                if let NodeId::Id(x) = id {
                    assert(is_entry(st, x, j));
                    assert(is_entry(st, parent, at));
                    if cs[j].node_id == NodeId::Id(gone) {
                        lemma_only_ref(c.tx, x, j, parent, at);
                    }
                }
                if cs[j].node_id is Address {
                    assert(exact_entry(c, cs[j]));
                    assert(load(d, cs[j].node_id) == load(c, cs[j].node_id));
                }
                lemma_parted_ranked(
                    c,
                    d,
                    page_size,
                    parent,
                    gone,
                    at,
                    cs[j].node_id,
                    low,
                    under_lo(cs, j, lo),
                    child_hi(cs, j, hi),
                );
            }
        }
    }
}

/// A tree that was in rank before a new root was put above the root is
/// so afterwards.
pub proof fn lemma_crowned_ranked(
    c: CommitModel,
    d: CommitModel,
    root: u64,
    id: NodeId,
    h: nat,
    lo: Option<Seq<u8>>,
    hi: Option<Seq<u8>>,
)
    requires
        crowned(c, d, root),
        c.tx.staging.fresh(),
        ranked(c, id, h, lo, hi, false),
    ensures
        ranked(d, id, h, lo, hi, false),
    decreases h,
{
    let low = (h - 1) as nat;
    match id {
        NodeId::Address(a) => {
            assert(load(d, id) == load(c, id));
        },
        NodeId::Id(x) => {
            assert(c.tx.staging.nodes.contains_key(x));
            assert(d.tx.staging.nodes.dom().contains(x));
            assert(d.tx.staging.nodes[x] == c.tx.staging.nodes[x]);
        },
    }
    if let NodeModel::Branch(cs) = load(c, id)->Ok_0.node {
        assert forall|j: int| 0 <= j < cs.len() implies (((#[trigger] cs[j]).node_id is Address
            ==> exact_entry(d, cs[j])) && ranked(
            d,
            cs[j].node_id,
            low,
            under_lo(cs, j, lo),
            child_hi(cs, j, hi),
            false,
        )) by {
            if cs[j].node_id is Address {
                assert(exact_entry(c, cs[j]));
                assert(load(d, cs[j].node_id) == load(c, cs[j].node_id));
            }
            lemma_crowned_ranked(
                c,
                d,
                root,
                cs[j].node_id,
                low,
                under_lo(cs, j, lo),
                child_hi(cs, j, hi),
            );
        }
    }
}

/// Splitting a node keeps the tree in rank.
pub proof fn lemma_split_node_ranks(c: CommitModel, page_size: u32, node_id: u64, node_index: int)
    requires
        split_node(c.tx, page_size, node_id, node_index) is Ok,
    ensures
        rank_on(
            c,
            CommitModel { tx: split_node(c.tx, page_size, node_id, node_index)->Ok_0.0, ..c },
        ),
{
    let st = c.tx;
    let (st2, _) = split_node(st, page_size, node_id, node_index)->Ok_0;
    let d = CommitModel { tx: st2, ..c };
    if sane(st) && well_ranked(c) {
        let h = choose|h: nat| ranked(c, c.tx.root, h, None, None, false);
        if st.staging.nodes[node_id].split(page_size as nat).len() == 1 {
            lemma_split_one(c, page_size, node_id, node_index);
            assert(d == c);
        } else if st.staging.parent.contains_key(node_id) {
            let parent_id = st.staging.parent[node_id];
            lemma_split_inside(c, page_size, node_id, node_index);
            lemma_parted_ranked(
                c,
                d,
                page_size,
                parent_id,
                node_id,
                node_index,
                c.tx.root,
                h,
                None,
                None,
            );
        } else {
            let b = st.staging.next_node_id;
            let mid = crown_of(c, node_id);
            lemma_split_root(c, page_size, node_id, node_index);
            crate::split_law::lemma_crowned(c, mid, page_size, node_id);
            lemma_crowned_ranked(c, mid, node_id, c.tx.root, h, None, None);
            let es = mid.tx.staging.nodes[b]->Branch_0;
            assert(load(mid, NodeId::Id(b))->Ok_0.node == NodeModel::Branch(es));
            assert(es.len() == 1);
            assert(ranked(mid, NodeId::Id(b), h + 1, None, None, false)) by {
                assert(((h + 1) as nat - 1) as nat == h);
                assert forall|j: int| 0 <= j < es.len() implies ranked(
                    mid,
                    (#[trigger] es[j]).node_id,
                    ((h + 1) as nat - 1) as nat,
                    under_lo(es, j, None),
                    child_hi(es, j, None),
                    false,
                ) by {}
            }
            lemma_parted_ranked(
                mid,
                d,
                page_size,
                b,
                node_id,
                0,
                mid.tx.root,
                h + 1,
                None,
                None,
            );
        }
    }
}

/// Splitting below the staged children of a node keeps the tree in rank.
pub proof fn lemma_split_children_ranks(
    c: CommitModel,
    page_size: u32,
    node_id: u64,
    from: int,
    depth: nat,
    measure: nat,
)
    requires
        split_children(c.tx, page_size, node_id, from, depth, measure) is Ok,
    ensures
        rank_on(
            c,
            CommitModel {
                tx: split_children(c.tx, page_size, node_id, from, depth, measure)->Ok_0,
                ..c
            },
        ),
    decreases depth, 0nat, measure,
{
    match next_dirty(c.tx.staging.nodes[node_id], from) {
        None => {},
        Some((child, index)) => {
            lemma_traverse_split_ranks(c, page_size, child, index, (depth - 1) as nat);
            lemma_traverse_split(c, page_size, child, index, (depth - 1) as nat);
            let (after, count) = traverse_split(
                c.tx,
                page_size,
                child,
                index,
                (depth - 1) as nat,
            )->Ok_0;
            let next_from = index + count;
            let left = after.staging.nodes[node_id].len() - next_from;
            let c1 = CommitModel { tx: after, ..c };
            lemma_split_children_ranks(c1, page_size, node_id, next_from, depth, left as nat);
            lemma_passed_up_sane(c, c1, page_size);
        },
    }
}

/// What is passed up leaves the staged nodes in order.
pub proof fn lemma_passed_up_sane(c: CommitModel, d: CommitModel, page_size: u32)
    requires
        passed_up(c, d, page_size),
    ensures
        sane(c.tx) ==> sane(d.tx),
{
    let g = choose|g: nat| passed_on(c, d, page_size, g);
    assert(passed_on(c, d, page_size, g));
}

/// Splitting in the staged tree under a node keeps the tree in rank.
pub proof fn lemma_traverse_split_ranks(
    c: CommitModel,
    page_size: u32,
    node_id: u64,
    node_index: int,
    depth: nat,
)
    requires
        traverse_split(c.tx, page_size, node_id, node_index, depth) is Ok,
    ensures
        rank_on(
            c,
            CommitModel {
                tx: traverse_split(c.tx, page_size, node_id, node_index, depth)->Ok_0.0,
                ..c
            },
        ),
    decreases depth, 1nat, 0nat,
{
    lemma_split_children_ranks(c, page_size, node_id, 0, depth, c.tx.staging.nodes[node_id].len());
    lemma_split_children(c, page_size, node_id, 0, depth, c.tx.staging.nodes[node_id].len());
    let after = split_children(
        c.tx,
        page_size,
        node_id,
        0,
        depth,
        c.tx.staging.nodes[node_id].len(),
    )->Ok_0;
    let c1 = CommitModel { tx: after, ..c };
    lemma_passed_up_sane(c, c1, page_size);
    if split_candidate(after.staging.nodes[node_id], page_size) {
        lemma_split_node_ranks(c1, page_size, node_id, node_index);
    }
}

/// Splitting in the staged tree keeps the tree in rank.
pub proof fn lemma_split_all_ranks(c: CommitModel, page_size: u32, rounds: nat)
    requires
        split_all(c.tx, page_size, rounds) is Ok,
    ensures
        rank_on(c, CommitModel { tx: split_all(c.tx, page_size, rounds)->Ok_0, ..c }),
    decreases rounds,
{
    match c.tx.root {
        NodeId::Address(_) => {},
        NodeId::Id(id) => {
            lemma_traverse_split_ranks(c, page_size, id, 0, 64);
            lemma_traverse_split(c, page_size, id, 0, 64);
            let (after, count) = traverse_split(c.tx, page_size, id, 0, 64)->Ok_0;
            let c1 = CommitModel { tx: after, ..c };
            lemma_passed_up_sane(c, c1, page_size);
            if count >= 2 {
                lemma_split_all_ranks(c1, page_size, (rounds - 1) as nat);
            }
        },
    }
}

} // verus!
