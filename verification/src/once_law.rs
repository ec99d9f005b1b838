use crate::key::{
    key_le, key_lt, lemma_key_lt_le_transitive, lemma_key_lt_transitive, lemma_key_order_equal,
    lemma_key_order_flip,
};
use crate::node::{BranchEntry, NodeId, NodeModel};
use crate::node_laws::keys_sorted;
use crate::rank::{exact_entry, lemma_within, ranked, under_lo};
use crate::tree::{above, below, branch_keys, child_hi};
use crate::write_law::{kept, load};
use crate::write_model::CommitModel;
use vstd::prelude::*;

verus! {

/// Whether `path` is a way down the tree under `id` while a commit is at
/// `c`: every index of it is that of an entry of the branch that the way
/// has come to.
pub open spec fn walks(c: CommitModel, id: NodeId, path: Seq<int>) -> bool
    decreases path.len(),
{
    path.len() == 0 || (load(c, id) matches Ok(n) && n.node matches NodeModel::Branch(es) && 0
        <= path[0] < es.len() && walks(c, es[path[0]].node_id, path.skip(1)))
}

/// The last entry that the way `path` down the tree under `id` follows.
pub open spec fn last_entry(c: CommitModel, id: NodeId, path: Seq<int>) -> BranchEntry
    decreases path.len(),
{
    let e = load(c, id)->Ok_0.node->Branch_0[path[0]];
    if path.len() <= 1 {
        e
    } else {
        last_entry(c, e.node_id, path.skip(1))
    }
}

/// The node that the way `path` down the tree under `id` ends at.
pub open spec fn end_of(c: CommitModel, id: NodeId, path: Seq<int>) -> NodeId {
    if path.len() == 0 {
        id
    } else {
        last_entry(c, id, path).node_id
    }
}

/// Whether the tree under `id` is all in the file and has its leaves
/// `height` levels down, with an entry in every branch.
pub open spec fn stands(c: CommitModel, id: NodeId, height: nat) -> bool
    decreases height,
{
    id is Address && match load(c, id) {
        Err(_) => false,
        Ok(n) => match n.node {
            NodeModel::Leaf(_) => height == 0,
            NodeModel::Branch(es) => height > 0 && es.len() > 0 && forall|j: int|
                0 <= j < es.len() ==> stands(c, (#[trigger] es[j]).node_id, (height - 1) as nat),
        },
    }
}

/// A tree in the file that is in good keeping and in rank has its leaves
/// at one depth and an entry in every branch.
pub proof fn lemma_ranked_stands(
    c: CommitModel,
    page_size: u32,
    id: NodeId,
    height: nat,
    lo: Option<Seq<u8>>,
    hi: Option<Seq<u8>>,
    tight: bool,
)
    requires
        id is Address,
        kept(c, page_size, id, height),
        ranked(c, id, height, lo, hi, tight),
    ensures
        stands(c, id, height),
    decreases height,
{
    let n = load(c, id)->Ok_0;
    if let NodeModel::Branch(es) = n.node {
        assert forall|j: int| 0 <= j < es.len() implies stands(
            c,
            (#[trigger] es[j]).node_id,
            (height - 1) as nat,
        ) by {
            assert(es[j].node_id is Address);
            lemma_ranked_stands(
                c,
                page_size,
                es[j].node_id,
                (height - 1) as nat,
                under_lo(es, j, lo),
                child_hi(es, j, hi),
                tight,
            );
        }
    }
}

/// The leaves of a tree stand at one depth only.
pub proof fn lemma_stands_once(c: CommitModel, id: NodeId, h1: nat, h2: nat)
    requires
        stands(c, id, h1),
        stands(c, id, h2),
    ensures
        h1 == h2,
    decreases h1,
{
    let n = load(c, id)->Ok_0;
    if let NodeModel::Branch(es) = n.node {
        assert(stands(c, es[0].node_id, (h1 - 1) as nat));
        assert(stands(c, es[0].node_id, (h2 - 1) as nat));
        lemma_stands_once(c, es[0].node_id, (h1 - 1) as nat, (h2 - 1) as nat);
    }
}

/// A way down a tree that stands ends no deeper than the leaves, at a
/// tree that stands, as many levels lower as the way is long.
pub proof fn lemma_stands_walk(c: CommitModel, id: NodeId, height: nat, path: Seq<int>)
    requires
        stands(c, id, height),
        walks(c, id, path),
    ensures
        path.len() <= height,
        stands(c, end_of(c, id, path), (height - path.len()) as nat),
    decreases path.len(),
{
    if path.len() > 0 {
        let es = load(c, id)->Ok_0.node->Branch_0;
        let child = es[path[0]].node_id;
        assert(stands(c, child, (height - 1) as nat));
        lemma_stands_walk(c, child, (height - 1) as nat, path.skip(1));
        if path.len() > 1 {
            assert(end_of(c, child, path.skip(1)) == end_of(c, id, path));
        } else {
            assert(end_of(c, id, path) == child);
        }
    }
}

/// The last entry of a way down a tree in rank has a key within the
/// bounds of the tree, and where it refers to a node in the file, that
/// node holds an entry and the key is that of its first entry.
pub proof fn lemma_entry_within(
    c: CommitModel,
    id: NodeId,
    height: nat,
    lo: Option<Seq<u8>>,
    hi: Option<Seq<u8>>,
    tight: bool,
    path: Seq<int>,
)
    requires
        ranked(c, id, height, lo, hi, tight),
        walks(c, id, path),
        path.len() >= 1,
    ensures
        above(lo, last_entry(c, id, path).key),
        below(last_entry(c, id, path).key, hi),
        last_entry(c, id, path).node_id is Address ==> exact_entry(c, last_entry(c, id, path)),
    decreases path.len(),
{
    let es = load(c, id)->Ok_0.node->Branch_0;
    let j = path[0];
    if path.len() > 1 {
        let child_lo = under_lo(es, j, lo);
        let child_top = child_hi(es, j, hi);
        lemma_entry_within(
            c,
            es[j].node_id,
            (height - 1) as nat,
            child_lo,
            child_top,
            tight,
            path.skip(1),
        );
        let k = last_entry(c, id, path).key;
        assert(last_entry(c, id, path) == last_entry(c, es[j].node_id, path.skip(1)));
        lemma_bounds_narrow(es, j, lo, hi);
        lemma_within(k, child_lo, child_top, lo, hi);
    }
}

/// The bounds for the keys under an entry of a branch whose keys lie
/// within bounds hold back no less than the bounds of the branch.
pub proof fn lemma_bounds_narrow(
    es: Seq<BranchEntry>,
    j: int,
    lo: Option<Seq<u8>>,
    hi: Option<Seq<u8>>,
)
    requires
        0 <= j < es.len(),
        forall|i: int| 0 <= i < es.len() ==> above(lo, (#[trigger] es[i]).key) && below(es[i].key, hi),
    ensures
        crate::rank::lower(lo, under_lo(es, j, lo)),
        crate::rank::higher(hi, child_hi(es, j, hi)),
{
    assert(above(lo, es[j].key));
    if j + 1 < es.len() {
        assert(below(es[j + 1].key, hi));
    } else if let Some(x) = hi {
        lemma_key_order_equal(x, x);
    }
}

/// Two ways of one length down a tree in rank that differ follow last
/// entries with keys that differ.
pub proof fn lemma_ways_apart(
    c: CommitModel,
    id: NodeId,
    height: nat,
    lo: Option<Seq<u8>>,
    hi: Option<Seq<u8>>,
    tight: bool,
    p: Seq<int>,
    q: Seq<int>,
)
    requires
        ranked(c, id, height, lo, hi, tight),
        walks(c, id, p),
        walks(c, id, q),
        p.len() == q.len(),
        p.len() >= 1,
        p != q,
    ensures
        last_entry(c, id, p).key != last_entry(c, id, q).key,
    decreases p.len(),
{
    let es = load(c, id)->Ok_0.node->Branch_0;
    let i = p[0];
    let j = q[0];
    if i == j {
        if p.len() == 1 {
            assert(p =~= q);
        } else {
            let ps = p.skip(1);
            let qs = q.skip(1);
            if ps == qs {
                assert forall|k: int| 0 <= k < p.len() implies p[k] == q[k] by {
                    if k > 0 {
                        assert(p[k] == ps[k - 1]);
                        assert(q[k] == qs[k - 1]);
                    }
                }
                assert(p =~= q);
            }
            let child = es[i].node_id;
            assert(ranked(
                c,
                child,
                (height - 1) as nat,
                under_lo(es, i, lo),
                child_hi(es, i, hi),
                tight,
            ));
            assert(walks(c, child, ps));
            assert(walks(c, child, qs));
            lemma_ways_apart(
                c,
                child,
                (height - 1) as nat,
                under_lo(es, i, lo),
                child_hi(es, i, hi),
                tight,
                ps,
                qs,
            );
            assert(last_entry(c, id, p) == last_entry(c, child, ps));
            assert(last_entry(c, id, q) == last_entry(c, child, qs));
        }
    } else if i < j {
        lemma_branches_apart(c, id, height, lo, hi, tight, p, q);
        lemma_key_order_equal(last_entry(c, id, p).key, last_entry(c, id, q).key);
    } else {
        lemma_branches_apart(c, id, height, lo, hi, tight, q, p);
        lemma_key_order_equal(last_entry(c, id, q).key, last_entry(c, id, p).key);
    }
}

/// Two ways of one length down a tree in rank, the first through an
/// earlier entry of the root than the second, follow last entries of
/// which the first has the smaller key.
pub proof fn lemma_branches_apart(
    c: CommitModel,
    id: NodeId,
    height: nat,
    lo: Option<Seq<u8>>,
    hi: Option<Seq<u8>>,
    tight: bool,
    p: Seq<int>,
    q: Seq<int>,
)
    requires
        ranked(c, id, height, lo, hi, tight),
        walks(c, id, p),
        walks(c, id, q),
        p.len() == q.len(),
        p.len() >= 1,
        p[0] < q[0],
    ensures
        key_lt(last_entry(c, id, p).key, last_entry(c, id, q).key),
{
    let es = load(c, id)->Ok_0.node->Branch_0;
    let i = p[0];
    let j = q[0];
    let kp = last_entry(c, id, p).key;
    let kq = last_entry(c, id, q).key;
    let keys = branch_keys(es);
    assert(keys_sorted(keys));
    assert(keys[i] == es[i].key && keys[j] == es[j].key && keys[i + 1] == es[i + 1].key);
    if p.len() == 1 {
        assert(key_lt(keys[i], keys[j]));
    } else {
        lemma_entry_within(
            c,
            es[i].node_id,
            (height - 1) as nat,
            under_lo(es, i, lo),
            child_hi(es, i, hi),
            tight,
            p.skip(1),
        );
        lemma_entry_within(
            c,
            es[j].node_id,
            (height - 1) as nat,
            under_lo(es, j, lo),
            child_hi(es, j, hi),
            tight,
            q.skip(1),
        );
        assert(kp == last_entry(c, es[i].node_id, p.skip(1)).key);
        assert(kq == last_entry(c, es[j].node_id, q.skip(1)).key);
        assert(key_lt(kp, es[i + 1].key));
        assert(key_le(es[j].key, kq));
        if i + 1 < j {
            assert(key_lt(keys[i + 1], keys[j]));
            lemma_key_lt_transitive(kp, es[i + 1].key, es[j].key);
        }
        lemma_key_lt_le_transitive(kp, es[j].key, kq);
    }
}

/// No page holds two nodes of a snapshot. In a tree in the file that is
/// in good keeping and in rank, two ways down from the root that end at
/// the same page are the same way.
pub proof fn lemma_no_page_twice(
    c: CommitModel,
    page_size: u32,
    root: NodeId,
    height: nat,
    lo: Option<Seq<u8>>,
    hi: Option<Seq<u8>>,
    tight: bool,
    p: Seq<int>,
    q: Seq<int>,
)
    requires
        root is Address,
        kept(c, page_size, root, height),
        ranked(c, root, height, lo, hi, tight),
        walks(c, root, p),
        walks(c, root, q),
        end_of(c, root, p) == end_of(c, root, q),
    ensures
        p == q,
{
    lemma_ranked_stands(c, page_size, root, height, lo, hi, tight);
    lemma_stands_walk(c, root, height, p);
    lemma_stands_walk(c, root, height, q);
    lemma_stands_once(
        c,
        end_of(c, root, p),
        (height - p.len()) as nat,
        (height - q.len()) as nat,
    );
    if p.len() == 0 {
        assert(p =~= q);
    } else if p != q {
        lemma_entry_within(c, root, height, lo, hi, tight, p);
        lemma_entry_within(c, root, height, lo, hi, tight, q);
        lemma_ways_apart(c, root, height, lo, hi, tight, p, q);
        lemma_key_order_flip(last_entry(c, root, p).key, last_entry(c, root, q).key);
    }
}

} // verus!
