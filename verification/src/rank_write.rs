use crate::commit_law::{goes_by, lemma_node_written_advances, lemma_write_tree_advances};
use crate::key::{
    key_lt, lemma_key_lt_le_transitive, lemma_key_lt_transitive, lemma_key_order_equal,
};
use crate::merge::{merge_all, with_node};
use crate::node::{BranchEntry, next_dirty, NodeId, NodeModel};
use crate::rank::{branch_first, exact_entry, lemma_ranked_weaken, ranked, under_lo};
use crate::split::split_all;
use crate::tree::{above, below, branch_keys, child_hi, leaf_keys};
use crate::tx::TxModel;
use crate::write_law::{
    carried, kept, lemma_node_written_keeps, lemma_repointed_keeps, lemma_write_tree_keeps,
    lemma_written_reads, load, same_held, spared, tidy,
};
use crate::write_model::{commit_result, CommitModel, node_written, write_children, write_tree};
use vstd::prelude::*;

verus! {

/// A node of a tree in good keeping is read the same after writing that
/// spares what was not writable and leaves the staged nodes as they are.
pub proof fn lemma_spared_load(c: CommitModel, d: CommitModel, page_size: u32, id: NodeId, h: nat)
    requires
        page_size > 0,
        spared(c, d, page_size as int),
        d.tx.staging == c.tx.staging,
        kept(c, page_size, id, h),
    ensures
        load(d, id) is Ok,
        load(d, id)->Ok_0.node == load(c, id)->Ok_0.node,
{
    let n = load(c, id)->Ok_0.node;
    let ps = page_size as nat;
    if let NodeId::Address(a) = id {
        let len = n.bytes(ps).len() as int;
        crate::commit_law::lemma_node_bytes_len(n, ps);
        assert forall|i: int| a <= i < a + len implies d.image[i] == c.image[i] by {
            assert(!crate::commit_law::writable(c.writer, page_size as int, i));
        }
        assert(d.image.subrange(a as int, a + len) =~= c.image.subrange(a as int, a + len));
        lemma_written_reads(c.image, a as int, n, ps);
        lemma_written_reads(d.image, a as int, n, ps);
    }
}

/// Writing that spares what was not writable, and leaves the staged
/// nodes as they are, leaves every tree in good keeping in rank.
pub proof fn lemma_written_ranked(
    c: CommitModel,
    d: CommitModel,
    page_size: u32,
    id: NodeId,
    h: nat,
    lo: Option<Seq<u8>>,
    hi: Option<Seq<u8>>,
    tight: bool,
)
    requires
        page_size > 0,
        spared(c, d, page_size as int),
        d.tx.staging == c.tx.staging,
        kept(c, page_size, id, h),
        ranked(c, id, h, lo, hi, tight),
    ensures
        ranked(d, id, h, lo, hi, tight),
    decreases h,
{
    lemma_spared_load(c, d, page_size, id, h);
    if let NodeModel::Branch(es) = load(c, id)->Ok_0.node {
        let low = (h - 1) as nat;
        assert forall|j: int| 0 <= j < es.len() implies (((#[trigger] es[j]).node_id is Address
            ==> exact_entry(d, es[j])) && (tight ==> branch_first(d, es[j])) && ranked(
            d,
            es[j].node_id,
            low,
            under_lo(es, j, lo),
            child_hi(es, j, hi),
            tight,
        )) by {
            assert(kept(c, page_size, es[j].node_id, low));
            lemma_spared_load(c, d, page_size, es[j].node_id, low);
            lemma_written_ranked(
                c,
                d,
                page_size,
                es[j].node_id,
                low,
                under_lo(es, j, lo),
                child_hi(es, j, hi),
                tight,
            );
        }
    }
}

/// Whether at `s` the node that `entry` refers to stands in rank for the
/// node `x`: where the tree under `x` is in rank, the tree under the
/// node of `entry` is, with the key of `entry` as the bound from below
/// where there was one; the key lies within the bounds; and `entry` has
/// the first key of its node, which holds an entry.
pub open spec fn ranks_for(s: CommitModel, x: NodeId, entry: BranchEntry) -> bool {
    forall|h: nat, lo: Option<Seq<u8>>, hi: Option<Seq<u8>>| #[trigger]
        ranked(s, x, h, lo, hi, false) ==> {
            &&& ranked(
                s,
                entry.node_id,
                h,
                if lo is Some {
                    Some(entry.key)
                } else {
                    None
                },
                hi,
                false,
            )
            &&& above(lo, entry.key)
            &&& below(entry.key, hi)
            &&& exact_entry(s, entry)
        }
}

/// Whether every tree that is in good keeping and in rank at `c` is in
/// rank at `d`.
pub open spec fn carried_rank(c: CommitModel, d: CommitModel, page_size: u32) -> bool {
    forall|id: NodeId, h: nat, lo: Option<Seq<u8>>, hi: Option<Seq<u8>>| #[trigger]
        ranked(c, id, h, lo, hi, false) && kept(c, page_size, id, h) ==> ranked(
            d,
            id,
            h,
            lo,
            hi,
            false,
        )
}

/// Pointing an entry of a staged branch at a node in the file that
/// stands in rank for the node it pointed at, and giving it the first key
/// of that node, leaves every tree in rank.
pub proof fn lemma_repointed_ranked(
    s: CommitModel,
    node_id: u64,
    index: int,
    entry: BranchEntry,
    id: NodeId,
    h: nat,
    lo: Option<Seq<u8>>,
    hi: Option<Seq<u8>>,
)
    requires
        s.tx.staging.nodes.contains_key(node_id),
        s.tx.staging.nodes[node_id] is Branch,
        0 <= index < s.tx.staging.nodes[node_id].len(),
        entry.node_id is Address,
        ranks_for(s, s.tx.staging.nodes[node_id]->Branch_0[index].node_id, entry),
        ranked(s, id, h, lo, hi, false),
    ensures
        ranked(
            CommitModel {
                tx: with_node(
                    s.tx,
                    node_id,
                    NodeModel::Branch(
                        s.tx.staging.nodes[node_id]->Branch_0.update(index, entry),
                    ),
                ),
                ..s
            },
            id,
            h,
            lo,
            hi,
            false,
        ),
    decreases h,
{
    let es = s.tx.staging.nodes[node_id]->Branch_0;
    let after = es.update(index, entry);
    let next = CommitModel { tx: with_node(s.tx, node_id, NodeModel::Branch(after)), ..s };
    let low = (h - 1) as nat;
    let n = load(s, id)->Ok_0.node;
    if id == NodeId::Id(node_id) {
        assert(load(next, id)->Ok_0.node == NodeModel::Branch(after));
        let old_child = es[index].node_id;
        let lc = under_lo(es, index, lo);
        let uc = child_hi(es, index, hi);
        assert(ranked(s, old_child, low, lc, uc, false));
        let k = entry.key;
        assert(above(lc, k) && below(k, uc) && exact_entry(s, entry));
        lemma_key_order_equal(k, k);
        assert forall|a: int, b: int| 0 <= a < b < after.len() implies key_lt(
            branch_keys(after)[a],
            branch_keys(after)[b],
        ) by {
            assert(key_lt(branch_keys(es)[a], branch_keys(es)[b]));
            if a == index {
                assert(key_lt(branch_keys(es)[index + 1], branch_keys(es)[b]) || b == index + 1);
                if b != index + 1 {
                    lemma_key_lt_transitive(k, es[index + 1].key, es[b].key);
                }
            } else if b == index {
                assert(lc == Some(es[index].key));
                lemma_key_lt_le_transitive(es[a].key, es[index].key, k);
            }
        }
        assert(above(lo, k) && below(k, hi)) by {
            assert(above(lo, es[index].key) && below(es[index].key, hi));
            if lo is Some {
                crate::tree::lemma_above_trans(lo, es[index].key, k);
            }
            if index + 1 < es.len() {
                assert(below(es[index + 1].key, hi));
                crate::tree::lemma_below_trans(k, es[index + 1].key, hi);
            }
        }
        assert forall|j: int| 0 <= j < after.len() implies above(lo, (#[trigger] after[j]).key)
            && below(after[j].key, hi) by {
            if j != index {
                assert(after[j] == es[j]);
            }
        }
        assert forall|j: int| 0 <= j < after.len() implies (((#[trigger] after[j]).node_id is Address
            ==> exact_entry(next, after[j])) && ranked(
            next,
            after[j].node_id,
            low,
            under_lo(after, j, lo),
            child_hi(after, j, hi),
            false,
        )) by {
            if j == index {
                assert(load(next, entry.node_id) == load(s, entry.node_id));
                lemma_repointed_ranked(
                    s,
                    node_id,
                    index,
                    entry,
                    entry.node_id,
                    low,
                    under_lo(after, j, lo),
                    uc,
                );
            } else {
                assert(after[j] == es[j]);
                assert(ranked(s, es[j].node_id, low, under_lo(es, j, lo), child_hi(es, j, hi), false));
                if es[j].node_id is Address {
                    assert(exact_entry(s, es[j]));
                    assert(load(next, es[j].node_id) == load(s, es[j].node_id));
                }
                if j == index - 1 {
                    assert(lc == Some(es[index].key));
                    lemma_key_order_equal(es[j].key, es[j].key);
                    lemma_ranked_weaken(
                        s,
                        es[j].node_id,
                        low,
                        under_lo(es, j, lo),
                        child_hi(es, j, hi),
                        false,
                        under_lo(after, j, lo),
                        child_hi(after, j, hi),
                        false,
                    );
                }
                lemma_repointed_ranked(
                    s,
                    node_id,
                    index,
                    entry,
                    es[j].node_id,
                    low,
                    under_lo(after, j, lo),
                    child_hi(after, j, hi),
                );
            }
        }
    } else {
        assert(load(next, id) == load(s, id));
        if let NodeModel::Branch(cs) = n {
            assert forall|j: int| 0 <= j < cs.len() implies (((#[trigger] cs[j]).node_id is Address
                ==> exact_entry(next, cs[j])) && ranked(
                next,
                cs[j].node_id,
                low,
                under_lo(cs, j, lo),
                child_hi(cs, j, hi),
                false,
            )) by {
                if cs[j].node_id is Address {
                    assert(exact_entry(s, cs[j]));
                    assert(load(next, cs[j].node_id) == load(s, cs[j].node_id));
                }
                lemma_repointed_ranked(
                    s,
                    node_id,
                    index,
                    entry,
                    cs[j].node_id,
                    low,
                    under_lo(cs, j, lo),
                    child_hi(cs, j, hi),
                );
            }
        }
    }
}

/// A tree in rank that holds an entry is in rank with its first key as
/// the bound from below, and its first key lies within the bounds.
pub proof fn lemma_ranked_tighten(
    c: CommitModel,
    id: NodeId,
    h: nat,
    lo: Option<Seq<u8>>,
    hi: Option<Seq<u8>>,
)
    requires
        ranked(c, id, h, lo, hi, false),
        load(c, id)->Ok_0.node.len() > 0,
    ensures
        above(lo, load(c, id)->Ok_0.node.key_at(0)),
        below(load(c, id)->Ok_0.node.key_at(0), hi),
        lo is Some ==> ranked(c, id, h, Some(load(c, id)->Ok_0.node.key_at(0)), hi, false),
{
    let n = load(c, id)->Ok_0.node;
    let first = n.key_at(0);
    lemma_key_order_equal(first, first);
    match n {
        NodeModel::Leaf(es) => {
            assert(first == es[0].key);
            assert forall|j: int| 0 <= j < es.len() implies above(
                Some(first),
                (#[trigger] es[j]).key,
            ) by {
                if j > 0 {
                    assert(key_lt(leaf_keys(es)[0], leaf_keys(es)[j]));
                }
            }
        },
        NodeModel::Branch(es) => {
            assert(first == es[0].key);
            assert forall|j: int| 0 <= j < es.len() implies above(
                Some(first),
                (#[trigger] es[j]).key,
            ) by {
                if j > 0 {
                    assert(key_lt(branch_keys(es)[0], branch_keys(es)[j]));
                }
            }
            if lo is Some {
                assert forall|j: int| 0 <= j < es.len() implies ranked(
                    c,
                    (#[trigger] es[j]).node_id,
                    (h - 1) as nat,
                    under_lo(es, j, Some(first)),
                    child_hi(es, j, hi),
                    false,
                ) by {
                    assert(under_lo(es, j, Some(first)) == under_lo(es, j, lo));
                }
            }
        },
    }
}

/// Whether at `d` the tree under `y` is in rank wherever the tree under
/// `x` is.
pub open spec fn in_rank_for(d: CommitModel, y: NodeId, x: NodeId) -> bool {
    forall|h: nat, lo: Option<Seq<u8>>, hi: Option<Seq<u8>>| #[trigger]
        ranked(d, x, h, lo, hi, false) ==> ranked(d, y, h, lo, hi, false)
}

/// Trees carried in rank from `c` to `d` and from `d` to `e` are carried
/// in rank from `c` to `e`.
pub proof fn lemma_carried_rank_trans(c: CommitModel, d: CommitModel, e: CommitModel, page_size: u32)
    requires
        carried_rank(c, d, page_size),
        carried(c, d, page_size),
        carried_rank(d, e, page_size),
    ensures
        carried_rank(c, e, page_size),
{
    assert forall|id: NodeId, h: nat, lo: Option<Seq<u8>>, hi: Option<Seq<u8>>| #[trigger]
        ranked(c, id, h, lo, hi, false) && kept(c, page_size, id, h) implies ranked(
        e,
        id,
        h,
        lo,
        hi,
        false,
    ) by {
        assert(ranked(d, id, h, lo, hi, false));
        assert(kept(d, page_size, id, h));
    }
}

/// What writing a staged node means for rank: every tree in good keeping
/// stays in rank; the node in the file is in rank wherever the staged node
/// is; and where the node holds an entry, the node in the file stands in
/// rank for it under its first key.
pub open spec fn rank_written(
    c: CommitModel,
    d: CommitModel,
    page_size: u32,
    node_id: u64,
    address: u64,
    key: Seq<u8>,
) -> bool {
    &&& carried_rank(c, d, page_size)
    &&& in_rank_for(d, NodeId::Address(address), NodeId::Id(node_id))
    &&& d.tx.staging.nodes.contains_key(node_id)
    &&& d.tx.staging.nodes[node_id].len() > 0 ==> ranks_for(
        d,
        NodeId::Id(node_id),
        BranchEntry { key, node_id: NodeId::Address(address) },
    )
}

/// Writing a staged node to pages of its own keeps rank.
pub proof fn lemma_node_written_ranks(
    c: CommitModel,
    page_size: u32,
    transaction_id: u64,
    node_id: u64,
)
    requires
        tidy(c.writer, page_size as int),
        node_written(c, page_size, transaction_id, node_id) is Ok,
    ensures
        ({
            let (d, address, key) = node_written(c, page_size, transaction_id, node_id)->Ok_0;
            rank_written(c, d, page_size, node_id, address, key)
        }),
{
    let (d, address, key) = node_written(c, page_size, transaction_id, node_id)->Ok_0;
    let node = c.tx.staging.nodes[node_id];
    lemma_node_written_advances(c, page_size, transaction_id, node_id);
    lemma_node_written_keeps(c, page_size, transaction_id, node_id);
    assert forall|id: NodeId, h: nat, lo: Option<Seq<u8>>, hi: Option<Seq<u8>>| #[trigger]
        ranked(c, id, h, lo, hi, false) && kept(c, page_size, id, h) implies ranked(
        d,
        id,
        h,
        lo,
        hi,
        false,
    ) by {
        lemma_written_ranked(c, d, page_size, id, h, lo, hi, false);
    }
    let x = NodeId::Id(node_id);
    let y = NodeId::Address(address);
    let entry = BranchEntry { key, node_id: y };
    // The node in the file is the staged node.
    assert(load(d, y) is Ok && load(d, y)->Ok_0.node == node) by {
        let ps = page_size as nat;
        let (_, grown, _) = crate::write_model::taken(
            c.writer,
            c.image,
            page_size,
            transaction_id,
            crate::node::saturate(node.size()),
        )->Ok_0;
        let bytes = node.bytes(ps);
        assert(d.image.subrange(address as int, address + bytes.len()) =~= bytes);
        lemma_written_reads(d.image, address as int, node, ps);
    }
    assert(load(d, x)->Ok_0.node == node);
    assert forall|h: nat, lo: Option<Seq<u8>>, hi: Option<Seq<u8>>| #[trigger]
        ranked(d, x, h, lo, hi, false) implies ranked(d, y, h, lo, hi, false) by {}
    if node.len() > 0 {
        assert forall|h: nat, lo: Option<Seq<u8>>, hi: Option<Seq<u8>>| #[trigger]
            ranked(d, x, h, lo, hi, false) implies ranked(
            d,
            entry.node_id,
            h,
            if lo is Some {
                Some(entry.key)
            } else {
                None
            },
            hi,
            false,
        ) && above(lo, entry.key) && below(entry.key, hi) && exact_entry(d, entry) by {
            assert(ranked(d, y, h, lo, hi, false));
            lemma_ranked_tighten(d, y, h, lo, hi);
        }
    }
}

/// Writing the staged children of a node and then the node keeps rank.
pub proof fn lemma_write_children_ranks(
    c: CommitModel,
    page_size: u32,
    transaction_id: u64,
    node_id: u64,
    from: int,
    depth: nat,
    measure: nat,
)
    requires
        tidy(c.writer, page_size as int),
        write_children(c, page_size, transaction_id, node_id, from, depth, measure) is Ok,
    ensures
        ({
            let (d, address, key) = write_children(
                c,
                page_size,
                transaction_id,
                node_id,
                from,
                depth,
                measure,
            )->Ok_0;
            rank_written(c, d, page_size, node_id, address, key)
        }),
    decreases depth, 0nat, measure,
{
    match next_dirty(c.tx.staging.nodes[node_id], from) {
        None => {
            lemma_node_written_ranks(c, page_size, transaction_id, node_id);
        },
        Some((child, index)) => {
            lemma_write_tree_ranks(c, page_size, transaction_id, child, (depth - 1) as nat);
            lemma_write_tree_keeps(c, page_size, transaction_id, child, (depth - 1) as nat);
            let (after, address, key) = write_tree(
                c,
                page_size,
                transaction_id,
                child,
                (depth - 1) as nat,
            )->Ok_0;
            let es = after.tx.staging.nodes[node_id]->Branch_0;
            let left = es.len() - (index + 1);
            let entry = BranchEntry { key, node_id: NodeId::Address(address) };
            let next = CommitModel {
                tx: with_node(after.tx, node_id, NodeModel::Branch(es.update(index, entry))),
                ..after
            };
            assert(ranks_for(after, es[index].node_id, entry));
            assert forall|id: NodeId, h: nat, lo: Option<Seq<u8>>, hi: Option<Seq<u8>>| #[trigger]
                ranked(after, id, h, lo, hi, false) && kept(after, page_size, id, h) implies ranked(
                next,
                id,
                h,
                lo,
                hi,
                false,
            ) by {
                lemma_repointed_ranked(after, node_id, index, entry, id, h, lo, hi);
            }
            assert forall|id: NodeId, h: nat| #[trigger] kept(after, page_size, id, h) implies kept(
                next,
                page_size,
                id,
                h,
            ) && same_held(after, id, next, id, h) by {
                lemma_repointed_keeps(after, page_size, node_id, index, entry, id, h);
            }
            lemma_write_children_ranks(
                next,
                page_size,
                transaction_id,
                node_id,
                index + 1,
                depth,
                left as nat,
            );
            let (d, _, _) = write_children(
                next,
                page_size,
                transaction_id,
                node_id,
                index + 1,
                depth,
                left as nat,
            )->Ok_0;
            lemma_carried_rank_trans(c, after, next, page_size);
            crate::write_law::lemma_carried_trans(c, after, next, page_size);
            lemma_carried_rank_trans(c, next, d, page_size);
        },
    }
}

/// Writing a staged tree keeps rank.
pub proof fn lemma_write_tree_ranks(
    c: CommitModel,
    page_size: u32,
    transaction_id: u64,
    node_id: u64,
    depth: nat,
)
    requires
        tidy(c.writer, page_size as int),
        write_tree(c, page_size, transaction_id, node_id, depth) is Ok,
    ensures
        ({
            let (d, address, key) = write_tree(c, page_size, transaction_id, node_id, depth)->Ok_0;
            rank_written(c, d, page_size, node_id, address, key)
        }),
    decreases depth, 1nat, 0nat,
{
    lemma_write_children_ranks(
        c,
        page_size,
        transaction_id,
        node_id,
        0,
        depth,
        c.tx.staging.nodes[node_id].len(),
    );
}

/// A commit keeps rank when the staged tree has been rebalanced: where
/// the rebalanced tree, with a staged root, is in good keeping and in
/// rank, the tree under the root that the new meta record names is in
/// rank, with as many levels.
pub proof fn lemma_commit_ranks(c: CommitModel, page_size: u32, transaction_id: u64, height: nat)
    requires
        goes_by(c.writer, c.image),
        tidy(c.writer, page_size as int),
        commit_result(c, page_size, transaction_id) is Ok,
        ({
            let balanced = split_all(
                merge_all(c.tx, c.image, page_size)->Ok_0,
                page_size,
                64,
            )->Ok_0;
            let begun = CommitModel { tx: balanced, ..c };
            &&& balanced.root is Id
            &&& kept(begun, page_size, balanced.root, height)
            &&& ranked(begun, balanced.root, height, None, None, false)
        }),
    ensures
        ranked(
            commit_result(c, page_size, transaction_id)->Ok_0,
            NodeId::Address(commit_result(c, page_size, transaction_id)->Ok_0.writer.meta().root_node),
            height,
            None,
            None,
            false,
        ),
{
    let ps = page_size as int;
    let d = commit_result(c, page_size, transaction_id)->Ok_0;
    let merged = merge_all(c.tx, c.image, page_size)->Ok_0;
    let balanced = split_all(merged, page_size, 64)->Ok_0;
    let begun = CommitModel { tx: balanced, ..c };
    let id = balanced.root->Id_0;
    lemma_write_tree_advances(begun, page_size, transaction_id, id, 64);
    lemma_write_tree_keeps(begun, page_size, transaction_id, id, 64);
    lemma_write_tree_ranks(begun, page_size, transaction_id, id, 64);
    let (written, root, key) = write_tree(begun, page_size, transaction_id, id, 64)->Ok_0;
    let rooted = CommitModel {
        tx: TxModel { root: NodeId::Address(root), ..written.tx },
        ..written
    };
    let x = NodeId::Id(id);
    let y = NodeId::Address(root);
    assert(ranked(written, x, height, None, None, false));
    assert(ranked(written, y, height, None, None, false));
    assert(kept(written, page_size, x, height));
    assert(kept(written, page_size, y, height));
    lemma_same_loads(written, rooted, page_size, y, height, None, None);
    crate::write_law::lemma_written_keeps(written, rooted, page_size, y, height);
    crate::commit_law::lemma_advanced_keeps_metas(begun, written, ps);
    crate::write_law::lemma_meta_written_keeps(rooted, page_size, transaction_id);
    crate::commit_law::lemma_meta_written(rooted, page_size, transaction_id);
    lemma_written_ranked(rooted, d, page_size, y, height, None, None, false);
}

/// A tree in good keeping that is in rank is so for a commit that holds
/// the same file, the same staged nodes and the same for the writer.
pub proof fn lemma_same_loads(
    c: CommitModel,
    d: CommitModel,
    page_size: u32,
    id: NodeId,
    h: nat,
    lo: Option<Seq<u8>>,
    hi: Option<Seq<u8>>,
)
    requires
        page_size > 0,
        d.image == c.image,
        d.writer == c.writer,
        d.tx.staging == c.tx.staging,
        kept(c, page_size, id, h),
        ranked(c, id, h, lo, hi, false),
    ensures
        ranked(d, id, h, lo, hi, false),
{
    assert(spared(c, d, page_size as int));
    lemma_written_ranked(c, d, page_size, id, h, lo, hi, false);
}

} // verus!
