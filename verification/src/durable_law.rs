use crate::commit_law::{goes_by, lemma_commit_writes, opens_at};
use crate::database::{initial_metas, is_initial, lemma_empty_leaf};
use crate::error::Error;
use crate::key::{key_lt, lemma_key_lt_le_transitive, lemma_key_order_equal};
use crate::merge::merge_all;
use crate::merge_law::{lemma_merge_all, passed_on, root_free, sane};
use crate::node::{NodeId, NodeModel};
use crate::rank::{lemma_ranked_held, lemma_ranked_ordered, lemma_ranked_weaken, ranked};
use crate::rank_merge::{lemma_merge_all_ranks, well_ranked};
use crate::rank_split::lemma_split_all_ranks;
use crate::rank_update::lemma_update_ranks;
use crate::rank_write::lemma_commit_ranks;
use crate::reader::NodeReader;
use crate::seek_law::{holds, lemma_lookup_finds};
use crate::spine::lemma_holds_in_tree;
use crate::split::split_all;
use crate::split_law::lemma_split_all;
use crate::staging::Staged;
use crate::store::NodeManager;
use crate::tree::{branch_keys, child_hi, child_lo, leaf_keys, lemma_tree_bounds, ordered_tree};
use crate::tx::{lookup, TxModel};
use crate::tx_law::{lemma_new_transaction_sound, lemma_update_correct, sound_tx};
use crate::update::{Change, update_result};
use crate::update_keeps::{lemma_update_keeps, reads};
use crate::write_law::{
    held, kept, lemma_commit_keeps, lemma_file_holds, lemma_staged_holds, load, same_held, tidy,
};
use crate::write_model::{commit_result, CommitModel};
use vstd::prelude::*;

verus! {

/// What a commit makes lasting. Where the tree of the transaction, with
/// a staged root, was in good keeping and held a value under a key, the
/// file opens at the transaction after the commit, and the tree under the
/// root that its meta record names is in good keeping, all in the file,
/// and holds the value under the key.
pub proof fn lemma_commit_is_durable(
    c: CommitModel,
    page_size: u32,
    transaction_id: u64,
    height: nat,
    key: Seq<u8>,
    value: Seq<u8>,
) -> (levels: nat)
    requires
        goes_by(c.writer, c.image),
        tidy(c.writer, page_size as int),
        sane(c.tx),
        c.tx.root is Id,
        kept(c, page_size, c.tx.root, height),
        held(c, c.tx.root, height, key, value),
        commit_result(c, page_size, transaction_id) is Ok,
    ensures
        ({
            let d = commit_result(c, page_size, transaction_id)->Ok_0;
            let root = NodeId::Address(d.writer.meta().root_node);
            &&& opens_at(d.writer, d.image)
            &&& d.writer.meta().transaction_id == transaction_id
            &&& kept(d, page_size, root, levels)
            &&& held(d, root, levels, key, value)
        }),
{
    let d = commit_result(c, page_size, transaction_id)->Ok_0;
    let merged = merge_all(c.tx, c.image, page_size)->Ok_0;
    let balanced = split_all(merged, page_size, 64)->Ok_0;
    let c1 = CommitModel { tx: merged, ..c };
    let begun = CommitModel { tx: balanced, ..c };
    lemma_merge_all(c, page_size);
    lemma_split_all(c1, page_size, 64);
    let grow = choose|g: nat| passed_on(c1, begun, page_size, g);
    let levels = height + grow;
    assert(held(c1, merged.root, height + 0, key, value));
    assert(kept(c1, page_size, merged.root, height + 0));
    assert(held(begun, balanced.root, height + grow, key, value));
    assert(kept(begun, page_size, balanced.root, height + grow));
    lemma_commit_keeps(c, page_size, transaction_id);
    lemma_commit_writes(c, page_size, transaction_id);
    let root = NodeId::Address(d.writer.meta().root_node);
    assert(kept(d, page_size, root, levels));
    assert(same_held(begun, balanced.root, d, root, levels));
    assert(held(begun, balanced.root, levels, key, value) == held(d, root, levels, key, value));
    levels
}

/// A value that was put is in the file after the commit. Where a value
/// is put under a key in a sound tree that is in good keeping, and the
/// transaction is committed, the file opens at the transaction, and the
/// tree under the root that its meta record names holds the value under
/// the key for a reader of the file.
pub proof fn lemma_put_is_durable(
    r: &Staged,
    r2: &Staged,
    file: &NodeManager,
    c: CommitModel,
    st2: TxModel,
    page_size: u32,
    transaction_id: u64,
    height: nat,
    key: Seq<u8>,
    value: Seq<u8>,
) -> (levels: nat)
    requires
        reads(r, c),
        sound_tx(r, c.tx, height),
        root_free(c.tx),
        c.tx.root matches NodeId::Id(x) ==> c.tx.staging.nodes.contains_key(x),
        kept(c, page_size, c.tx.root, height),
        goes_by(c.writer, c.image),
        tidy(c.writer, page_size as int),
        r2.staging@ == st2.staging,
        r2.store@ == r.store@,
        update_result(r, c.tx, Change::Put(key, value)) == Ok::<TxModel, Error>(st2),
        commit_result(CommitModel { tx: st2, ..c }, page_size, transaction_id) is Ok,
        file@ == commit_result(CommitModel { tx: st2, ..c }, page_size, transaction_id)->Ok_0.image,
    ensures
        ({
            let d = commit_result(CommitModel { tx: st2, ..c }, page_size, transaction_id)->Ok_0;
            &&& opens_at(d.writer, d.image)
            &&& d.writer.meta().transaction_id == transaction_id
            &&& holds(file, NodeId::Address(d.writer.meta().root_node), levels, key, value)
        }),
{
    let change = Change::Put(key, value);
    let c2 = CommitModel { tx: st2, ..c };
    let d = commit_result(c2, page_size, transaction_id)->Ok_0;
    lemma_update_correct(r, r2, c.tx, st2, height, change);
    assert(holds(r2, st2.root, height, key, value));
    lemma_staged_holds(r2, c2, st2.root, height, key, value);
    lemma_update_keeps(r, r2, c, st2, page_size, height, change);
    let levels = lemma_commit_is_durable(c2, page_size, transaction_id, height, key, value);
    lemma_file_holds(file, d, page_size, d.writer.meta().root_node, levels, key, value);
    levels
}

/// The first write transaction on a new database starts from what the
/// laws of a commit ask for: the writer goes by the file, the pages that
/// it can hand out are in order, the staged nodes are in order, and the
/// tree, a leaf without entries, is a sound tree in good keeping.
pub proof fn lemma_new_database_ready(r: &Staged, c: CommitModel, page_size: u32)
    requires
        page_size >= 128,
        reads(r, c),
        is_initial(c.image, page_size),
        c.writer.metas.len() == 2,
        c.writer.metas[0] == initial_metas(page_size).0,
        c.writer.metas[1] == initial_metas(page_size).1,
        c.writer.free_list.free == Set::<u64>::empty(),
        c.writer.free_list.pending_free == Map::<u64, Set<u64>>::empty(),
        c.writer.free_list.pending_allocated == Set::<u64>::empty(),
        c.tx.staging.nodes == Map::<u64, NodeModel>::empty(),
        c.tx.root == NodeId::Address(initial_metas(page_size).1.root_node),
    ensures
        goes_by(c.writer, c.image),
        tidy(c.writer, page_size as int),
        sane(c.tx),
        root_free(c.tx),
        sound_tx(r, c.tx, 0),
        kept(c, page_size, c.tx.root, 0),
        ranked(c, c.tx.root, 0, None, None, true),
{
    let ps = page_size as int;
    let root = initial_metas(page_size).1.root_node;
    crate::commit_law::lemma_new_goes_by(c.writer, c.image, page_size);
    crate::commit::lemma_pages_for(2048, ps);
    lemma_empty_leaf(page_size as nat);
    assert(c.writer.meta() == initial_metas(page_size).1);
    assert(root + page_size == c.writer.meta().end_address);
    assert(root >= 2048);
    let leaf = NodeModel::Leaf(Seq::empty());
    crate::write_law::lemma_written_reads(c.image, root as int, leaf, page_size as nat);
    assert(leaf.size() == 18) by {
        crate::commit_law::lemma_node_bytes_len(leaf, page_size as nat);
    }
    assert(ordered_tree(r.store, c.tx.root, 0, None, None)) by {
        assert(r.store.loaded(c.tx.root) == crate::write_law::load(c, c.tx.root));
    }
    lemma_new_transaction_sound(r, c.tx, 0);
}

/// A search tree holds one value at most under a key.
#[verifier::rlimit(100)]
pub proof fn lemma_holds_unique<R: NodeReader>(
    r: &R,
    id: NodeId,
    height: nat,
    lo: Option<Seq<u8>>,
    hi: Option<Seq<u8>>,
    k: Seq<u8>,
    v1: Seq<u8>,
    v2: Seq<u8>,
)
    requires
        ordered_tree(r, id, height, lo, hi),
        holds(r, id, height, k, v1),
        holds(r, id, height, k, v2),
    ensures
        v1 == v2,
    decreases height,
{
    let n = r.loaded(id)->Ok_0;
    lemma_key_order_equal(k, k);
    match n.node {
        NodeModel::Leaf(es) => {
            let i = choose|i: int|
                0 <= i < es.len() && (#[trigger] es[i]).key == k && es[i].value == v1;
            let j = choose|j: int|
                0 <= j < es.len() && (#[trigger] es[j]).key == k && es[j].value == v2;
            if i < j {
                assert(key_lt(leaf_keys(es)[i], leaf_keys(es)[j]));
            }
            if j < i {
                assert(key_lt(leaf_keys(es)[j], leaf_keys(es)[i]));
            }
        },
        NodeModel::Branch(es) => {
            let low = (height - 1) as nat;
            let i = choose|i: int| 0 <= i < es.len() && holds(r, (#[trigger] es[i]).node_id, low, k, v1);
            let j = choose|j: int| 0 <= j < es.len() && holds(r, (#[trigger] es[j]).node_id, low, k, v2);
            lemma_holds_in_tree(r, es[i].node_id, low, k, v1);
            lemma_holds_in_tree(r, es[j].node_id, low, k, v2);
            lemma_tree_bounds(r, es[i].node_id, low, child_lo(es, i, lo), child_hi(es, i, hi), k);
            lemma_tree_bounds(r, es[j].node_id, low, child_lo(es, j, lo), child_hi(es, j, hi), k);
            if i < j {
                if i + 1 < j {
                    assert(key_lt(branch_keys(es)[i + 1], branch_keys(es)[j]));
                    crate::key::lemma_key_lt_transitive(k, es[i + 1].key, es[j].key);
                }
                lemma_key_lt_le_transitive(k, es[j].key, k);
            }
            if j < i {
                if j + 1 < i {
                    assert(key_lt(branch_keys(es)[j + 1], branch_keys(es)[i]));
                    crate::key::lemma_key_lt_transitive(k, es[j + 1].key, es[i].key);
                }
                lemma_key_lt_le_transitive(k, es[i].key, k);
            }
            lemma_holds_unique(r, es[i].node_id, low, child_lo(es, i, lo), child_hi(es, i, hi), k, v1, v2);
        },
    }
}

/// A tree in rank that is in good keeping with some number of levels
/// allowed is in good keeping with as many levels as it has.
pub proof fn lemma_ranked_kept(
    c: CommitModel,
    page_size: u32,
    id: NodeId,
    height: nat,
    lo: Option<Seq<u8>>,
    hi: Option<Seq<u8>>,
    fuel: nat,
)
    requires
        ranked(c, id, height, lo, hi, false),
        kept(c, page_size, id, fuel),
    ensures
        kept(c, page_size, id, height),
    decreases height,
{
    if let NodeModel::Branch(es) = load(c, id)->Ok_0.node {
        assert forall|j: int| 0 <= j < es.len() implies kept(
            c,
            page_size,
            (#[trigger] es[j]).node_id,
            (height - 1) as nat,
        ) by {
            assert(kept(c, page_size, es[j].node_id, (fuel - 1) as nat));
            lemma_ranked_kept(
                c,
                page_size,
                es[j].node_id,
                (height - 1) as nat,
                crate::rank::under_lo(es, j, lo),
                child_hi(es, j, hi),
                (fuel - 1) as nat,
            );
        }
    }
}

/// What a commit leaves of a tree in rank. Where the tree of the
/// transaction, with a staged root, was in good keeping and in rank and
/// held a value under a key, the tree under the root that the new meta
/// record names is a search tree for a reader of the file, is in rank and
/// in good keeping, and holds the value under the key. So the snapshot
/// that was committed has its leaves at one depth, keys that grow in
/// every node, in every entry of a branch the first key of the node that
/// the entry refers to, no node without entries but the root, and no page
/// that the writer can hand out.
pub proof fn lemma_commit_is_sound(
    file: &NodeManager,
    c: CommitModel,
    page_size: u32,
    transaction_id: u64,
    height: nat,
    key: Seq<u8>,
    value: Seq<u8>,
) -> (levels: nat)
    requires
        goes_by(c.writer, c.image),
        tidy(c.writer, page_size as int),
        sane(c.tx),
        c.tx.root is Id,
        kept(c, page_size, c.tx.root, height),
        ranked(c, c.tx.root, height, None, None, false),
        held(c, c.tx.root, height, key, value),
        commit_result(c, page_size, transaction_id) is Ok,
        file@ == commit_result(c, page_size, transaction_id)->Ok_0.image,
    ensures
        ({
            let d = commit_result(c, page_size, transaction_id)->Ok_0;
            let root = NodeId::Address(d.writer.meta().root_node);
            &&& opens_at(d.writer, d.image)
            &&& d.writer.meta().transaction_id == transaction_id
            &&& kept(d, page_size, root, levels)
            &&& ranked(d, root, levels, None, None, true)
            &&& ordered_tree(file, root, levels, None, None)
            &&& holds(file, root, levels, key, value)
        }),
{
    let d = commit_result(c, page_size, transaction_id)->Ok_0;
    let merged = merge_all(c.tx, c.image, page_size)->Ok_0;
    let balanced = split_all(merged, page_size, 64)->Ok_0;
    let c1 = CommitModel { tx: merged, ..c };
    let begun = CommitModel { tx: balanced, ..c };
    lemma_merge_all(c, page_size);
    lemma_merge_all_ranks(c, page_size);
    lemma_split_all(c1, page_size, 64);
    lemma_split_all_ranks(c1, page_size, 64);
    let grow = choose|g: nat| passed_on(c1, begun, page_size, g);
    assert(held(c1, merged.root, height + 0, key, value));
    assert(kept(c1, page_size, merged.root, height + 0));
    assert(held(begun, balanced.root, height + grow, key, value));
    assert(kept(begun, page_size, balanced.root, height + grow));
    assert(well_ranked(c));
    assert(well_ranked(c1));
    assert(well_ranked(begun));
    let levels = choose|h: nat| ranked(begun, balanced.root, h, None, None, false);
    lemma_ranked_kept(begun, page_size, balanced.root, levels, None, None, height + grow);
    lemma_ranked_held(begun, balanced.root, levels, None, None, false, height + grow, key, value);
    lemma_commit_keeps(c, page_size, transaction_id);
    lemma_commit_writes(c, page_size, transaction_id);
    lemma_commit_ranks(c, page_size, transaction_id, levels);
    let root = NodeId::Address(d.writer.meta().root_node);
    assert(kept(d, page_size, root, levels));
    assert(same_held(begun, balanced.root, d, root, levels));
    assert(held(begun, balanced.root, levels, key, value) == held(d, root, levels, key, value));
    lemma_ranked_ordered(file, d, d.writer.meta().root_node, levels, None, None, false);
    crate::rank::lemma_file_tight(d, d.writer.meta().root_node, levels, None, None);
    lemma_file_holds(file, d, page_size, d.writer.meta().root_node, levels, key, value);
    levels
}

/// A value that was put is found after the commit. Where a value is put
/// under a key in a sound tree that is in rank and in good keeping, and
/// the transaction is committed, the file opens at the transaction, the
/// tree under the root that its meta record names is a search tree, and
/// looking the key up in it, for a reader of the file, finds the value:
/// the look-up gives the value where the tree has 63 levels at most, and
/// gives nothing else wherever it gives an answer.
pub proof fn lemma_put_commit_get(
    r: &Staged,
    r2: &Staged,
    file: &NodeManager,
    c: CommitModel,
    st2: TxModel,
    page_size: u32,
    transaction_id: u64,
    height: nat,
    key: Seq<u8>,
    value: Seq<u8>,
) -> (levels: nat)
    requires
        reads(r, c),
        sound_tx(r, c.tx, height),
        root_free(c.tx),
        c.tx.root matches NodeId::Id(x) ==> c.tx.staging.nodes.contains_key(x),
        kept(c, page_size, c.tx.root, height),
        ranked(c, c.tx.root, height, None, None, true),
        goes_by(c.writer, c.image),
        tidy(c.writer, page_size as int),
        r2.staging@ == st2.staging,
        r2.store@ == r.store@,
        update_result(r, c.tx, Change::Put(key, value)) == Ok::<TxModel, Error>(st2),
        commit_result(CommitModel { tx: st2, ..c }, page_size, transaction_id) is Ok,
        file@ == commit_result(CommitModel { tx: st2, ..c }, page_size, transaction_id)->Ok_0.image,
    ensures
        ({
            let d = commit_result(CommitModel { tx: st2, ..c }, page_size, transaction_id)->Ok_0;
            let root = NodeId::Address(d.writer.meta().root_node);
            &&& opens_at(d.writer, d.image)
            &&& d.writer.meta().transaction_id == transaction_id
            &&& ordered_tree(file, root, levels, None, None)
            &&& kept(d, page_size, root, levels)
            &&& ranked(d, root, levels, None, None, true)
            &&& lookup(file, root, key) matches Ok(found) ==> found == Some(value)
            &&& levels <= 63 ==> lookup(file, root, key) == Ok::<Option<Seq<u8>>, Error>(
                Some(value),
            )
        }),
{
    let change = Change::Put(key, value);
    let c2 = CommitModel { tx: st2, ..c };
    let d = commit_result(c2, page_size, transaction_id)->Ok_0;
    let root = NodeId::Address(d.writer.meta().root_node);
    lemma_update_correct(r, r2, c.tx, st2, height, change);
    assert(holds(r2, st2.root, height, key, value));
    lemma_staged_holds(r2, c2, st2.root, height, key, value);
    lemma_update_keeps(r, r2, c, st2, page_size, height, change);
    lemma_update_ranks(r, r2, c, st2, height, change);
    lemma_ranked_weaken(c2, st2.root, height, None, None, true, None, None, false);
    let levels = lemma_commit_is_sound(file, c2, page_size, transaction_id, height, key, value);
    lemma_lookup_finds(file, root, levels, key);
    if levels <= 63 {
        crate::rank::lemma_ranked_leafy(file, d, d.writer.meta().root_node, levels, true);
        crate::ready_law::lemma_lookup_ok(file, root, levels, key);
    }
    match lookup(file, root, key) {
        Err(_) => {},
        Ok(found) => {
            match found {
                Some(v) => {
                    lemma_holds_unique(file, root, levels, None, None, key, v, value);
                },
                None => {
                    lemma_holds_in_tree(file, root, levels, key, value);
                },
            }
        },
    }
    levels
}

/// The commit of a transaction that has staged nothing succeeds and
/// leaves the file and what the writer holds as they are.
pub proof fn lemma_commit_of_nothing(c: CommitModel, page_size: u32, transaction_id: u64)
    requires
        c.tx.root is Address,
    ensures
        commit_result(c, page_size, transaction_id) == Ok::<CommitModel, Error>(c),
{
}

} // verus!
