use crate::commit_law::{goes_by, lemma_commit_writes, opens_at};
use crate::durable_law::lemma_ranked_kept;
use crate::error::Error;
use crate::merge::merge_all;
use crate::merge_back::{lemma_merge_all_back, passed_back};
use crate::merge_law::{lemma_merge_all, passed_on, root_free, sane};
use crate::node::NodeId;
use crate::once_law::{end_of, lemma_no_page_twice, walks};
use crate::rank::{
    lemma_file_tight, lemma_ranked_held, lemma_ranked_leafy, lemma_ranked_ordered,
    lemma_ranked_weaken, ranked,
};
use crate::rank_merge::{lemma_merge_all_ranks, well_ranked};
use crate::rank_split::lemma_split_all_ranks;
use crate::rank_update::lemma_update_ranks;
use crate::rank_write::lemma_commit_ranks;
use crate::ready_law::lemma_lookup_ok;
use crate::seek_law::{holds, lemma_lookup_finds};
use crate::spine::{lemma_holds_in_tree, put_value};
use crate::split::split_all;
use crate::split_back::lemma_split_all_back;
use crate::split_law::lemma_split_all;
use crate::staging::Staged;
use crate::store::NodeManager;
use crate::tree::{in_tree, ordered_tree};
use crate::tx::{lookup, TxModel};
use crate::tx_law::{lemma_in_tree_holds, lemma_update_correct, sound_tx};
use crate::update::{update_result, Change};
use crate::update_keeps::{lemma_update_keeps, reads};
use crate::write_law::{
    held, kept, lemma_commit_keeps, lemma_file_holds, lemma_staged_holds, same_held, tidy,
};
use crate::write_model::{commit_result, CommitModel};
use vstd::prelude::*;

verus! {

/// Whether a commit at `c` starts from what the laws of a commit ask
/// for and succeeds: the writer goes by the file, the pages that it can
/// hand out are in order, the staged nodes are in order, the root is
/// staged, and the tree is in good keeping and in rank.
pub open spec fn commits(c: CommitModel, page_size: u32, transaction_id: u64, height: nat) -> bool {
    &&& goes_by(c.writer, c.image)
    &&& tidy(c.writer, page_size as int)
    &&& sane(c.tx)
    &&& c.tx.root is Id
    &&& kept(c, page_size, c.tx.root, height)
    &&& ranked(c, c.tx.root, height, None, None, false)
    &&& commit_result(c, page_size, transaction_id) is Ok
}

/// The number of levels of the tree that a commit leaves in the file.
pub open spec fn levels_after(c: CommitModel, page_size: u32) -> nat {
    let balanced = split_all(merge_all(c.tx, c.image, page_size)->Ok_0, page_size, 64)->Ok_0;
    choose|h: nat| ranked(CommitModel { tx: balanced, ..c }, balanced.root, h, None, None, false)
}

/// The tree that a commit leaves in the file: the file opens at the
/// transaction, and the tree under the root that the new meta record
/// names is in good keeping, in rank and a search tree for a reader of
/// the file.
pub proof fn lemma_commit_is_ranked(
    file: &NodeManager,
    c: CommitModel,
    page_size: u32,
    transaction_id: u64,
    height: nat,
)
    requires
        commits(c, page_size, transaction_id, height),
        file@ == commit_result(c, page_size, transaction_id)->Ok_0.image,
    ensures
        ({
            let d = commit_result(c, page_size, transaction_id)->Ok_0;
            let balanced = split_all(merge_all(c.tx, c.image, page_size)->Ok_0, page_size, 64)->Ok_0;
            let begun = CommitModel { tx: balanced, ..c };
            let root = NodeId::Address(d.writer.meta().root_node);
            let levels = levels_after(c, page_size);
            &&& opens_at(d.writer, d.image)
            &&& d.writer.meta().transaction_id == transaction_id
            &&& balanced.root is Id
            &&& ranked(begun, balanced.root, levels, None, None, false)
            &&& kept(begun, page_size, balanced.root, levels)
            &&& kept(d, page_size, root, levels)
            &&& same_held(begun, balanced.root, d, root, levels)
            &&& ranked(d, root, levels, None, None, true)
            &&& ordered_tree(file, root, levels, None, None)
        }),
{
    let d = commit_result(c, page_size, transaction_id)->Ok_0;
    let merged = merge_all(c.tx, c.image, page_size)->Ok_0;
    let balanced = split_all(merged, page_size, 64)->Ok_0;
    let c1 = CommitModel { tx: merged, ..c };
    let begun = CommitModel { tx: balanced, ..c };
    lemma_merge_all(c, page_size);
    lemma_merge_all_ranks(c, page_size);
    lemma_split_all(c1, page_size, 64);
    lemma_split_all_ranks(c1, page_size, 64);
    let grow = choose|g: nat| passed_on(c1, begun, page_size, g);
    assert(kept(c1, page_size, merged.root, height + 0));
    assert(kept(begun, page_size, balanced.root, height + grow));
    assert(well_ranked(c));
    assert(well_ranked(c1));
    assert(well_ranked(begun));
    let levels = levels_after(c, page_size);
    lemma_ranked_kept(begun, page_size, balanced.root, levels, None, None, height + grow);
    lemma_commit_keeps(c, page_size, transaction_id);
    lemma_commit_writes(c, page_size, transaction_id);
    lemma_commit_ranks(c, page_size, transaction_id, levels);
    lemma_ranked_ordered(file, d, d.writer.meta().root_node, levels, None, None, false);
    lemma_file_tight(d, d.writer.meta().root_node, levels, None, None);
}

/// What the tree of the transaction held at a commit, the tree in the
/// file holds afterwards.
pub proof fn lemma_commit_forth(
    c: CommitModel,
    page_size: u32,
    transaction_id: u64,
    height: nat,
    k: Seq<u8>,
    v: Seq<u8>,
)
    requires
        commits(c, page_size, transaction_id, height),
        held(c, c.tx.root, height, k, v),
    ensures
        ({
            let balanced = split_all(merge_all(c.tx, c.image, page_size)->Ok_0, page_size, 64)->Ok_0;
            held(CommitModel { tx: balanced, ..c }, balanced.root, levels_after(c, page_size), k, v)
        }),
{
    let merged = merge_all(c.tx, c.image, page_size)->Ok_0;
    let balanced = split_all(merged, page_size, 64)->Ok_0;
    let c1 = CommitModel { tx: merged, ..c };
    let begun = CommitModel { tx: balanced, ..c };
    lemma_merge_all(c, page_size);
    lemma_merge_all_ranks(c, page_size);
    lemma_split_all(c1, page_size, 64);
    lemma_split_all_ranks(c1, page_size, 64);
    let grow = choose|g: nat| passed_on(c1, begun, page_size, g);
    assert(held(c1, merged.root, height + 0, k, v));
    assert(held(begun, balanced.root, height + grow, k, v));
    assert(well_ranked(c));
    assert(well_ranked(c1));
    assert(well_ranked(begun));
    lemma_ranked_held(
        begun,
        balanced.root,
        levels_after(c, page_size),
        None,
        None,
        false,
        height + grow,
        k,
        v,
    );
}

/// What the rebalanced tree holds at a commit, the tree of the
/// transaction held.
pub proof fn lemma_commit_back(
    c: CommitModel,
    page_size: u32,
    transaction_id: u64,
    height: nat,
    fuel: nat,
    k: Seq<u8>,
    v: Seq<u8>,
)
    requires
        commits(c, page_size, transaction_id, height),
        ({
            let balanced = split_all(merge_all(c.tx, c.image, page_size)->Ok_0, page_size, 64)->Ok_0;
            held(CommitModel { tx: balanced, ..c }, balanced.root, fuel, k, v)
        }),
    ensures
        held(c, c.tx.root, height, k, v),
{
    let merged = merge_all(c.tx, c.image, page_size)->Ok_0;
    let balanced = split_all(merged, page_size, 64)->Ok_0;
    let c1 = CommitModel { tx: merged, ..c };
    let begun = CommitModel { tx: balanced, ..c };
    lemma_merge_all(c, page_size);
    lemma_merge_all_back(c, page_size);
    lemma_split_all_back(c1, page_size, 64);
    let g2 = choose|g: nat| passed_back(c1, begun, g);
    let g1 = choose|g: nat| passed_back(c, c1, g);
    assert(held(c1, merged.root, fuel + g2, k, v));
    assert(held(c, c.tx.root, (fuel + g2) + g1, k, v));
    lemma_ranked_held(c, c.tx.root, height, None, None, false, (fuel + g2) + g1, k, v);
}

/// A commit keeps what the tree holds, no more and no less: the tree
/// under the root that the new meta record names holds a value under a
/// key, for a reader of the file, exactly where the tree of the
/// transaction held it.
pub proof fn lemma_commit_holds_same(
    file: &NodeManager,
    c: CommitModel,
    page_size: u32,
    transaction_id: u64,
    height: nat,
    k: Seq<u8>,
    v: Seq<u8>,
)
    requires
        commits(c, page_size, transaction_id, height),
        file@ == commit_result(c, page_size, transaction_id)->Ok_0.image,
    ensures
        holds(
            file,
            NodeId::Address(commit_result(c, page_size, transaction_id)->Ok_0.writer.meta().root_node),
            levels_after(c, page_size),
            k,
            v,
        ) == held(c, c.tx.root, height, k, v),
{
    let d = commit_result(c, page_size, transaction_id)->Ok_0;
    let balanced = split_all(merge_all(c.tx, c.image, page_size)->Ok_0, page_size, 64)->Ok_0;
    let begun = CommitModel { tx: balanced, ..c };
    let levels = levels_after(c, page_size);
    let address = d.writer.meta().root_node;
    let root = NodeId::Address(address);
    lemma_commit_is_ranked(file, c, page_size, transaction_id, height);
    lemma_file_holds(file, d, page_size, address, levels, k, v);
    assert(held(begun, balanced.root, levels, k, v) == held(d, root, levels, k, v));
    if held(c, c.tx.root, height, k, v) {
        lemma_commit_forth(c, page_size, transaction_id, height, k, v);
    }
    if held(begun, balanced.root, levels, k, v) {
        lemma_commit_back(c, page_size, transaction_id, height, levels, k, v);
    }
}

/// After a commit, looking a key up in the file finds what the
/// transaction held under it: the value that its tree held under the key,
/// or nothing where the key was not in its tree. The look-up succeeds
/// where the tree has 63 levels at most.
pub proof fn lemma_commit_get(
    r: &Staged,
    file: &NodeManager,
    c: CommitModel,
    page_size: u32,
    transaction_id: u64,
    height: nat,
    key: Seq<u8>,
)
    requires
        reads(r, c),
        ordered_tree(r, c.tx.root, height, None, None),
        commits(c, page_size, transaction_id, height),
        file@ == commit_result(c, page_size, transaction_id)->Ok_0.image,
    ensures
        ({
            let d = commit_result(c, page_size, transaction_id)->Ok_0;
            let root = NodeId::Address(d.writer.meta().root_node);
            &&& opens_at(d.writer, d.image)
            &&& lookup(file, root, key) matches Ok(found) ==> match found {
                Some(v) => holds(r, c.tx.root, height, key, v),
                None => !in_tree(r, c.tx.root, height, key),
            }
            &&& levels_after(c, page_size) <= 63 ==> lookup(file, root, key) is Ok
        }),
{
    let d = commit_result(c, page_size, transaction_id)->Ok_0;
    let address = d.writer.meta().root_node;
    let root = NodeId::Address(address);
    let levels = levels_after(c, page_size);
    lemma_commit_is_ranked(file, c, page_size, transaction_id, height);
    lemma_lookup_finds(file, root, levels, key);
    if levels <= 63 {
        lemma_ranked_leafy(file, d, address, levels, true);
        lemma_lookup_ok(file, root, levels, key);
    }
    match lookup(file, root, key) {
        Err(_) => {},
        Ok(found) => {
            match found {
                Some(v) => {
                    lemma_commit_holds_same(file, c, page_size, transaction_id, height, key, v);
                    lemma_staged_holds(r, c, c.tx.root, height, key, v);
                },
                None => {
                    if in_tree(r, c.tx.root, height, key) {
                        lemma_in_tree_holds(r, c.tx.root, height, key);
                        let v = choose|v: Seq<u8>| #[trigger] holds(r, c.tx.root, height, key, v);
                        lemma_staged_holds(r, c, c.tx.root, height, key, v);
                        lemma_commit_holds_same(file, c, page_size, transaction_id, height, key, v);
                        lemma_holds_in_tree(file, root, levels, key, v);
                    }
                },
            }
        },
    }
}

/// After an update and a commit, looking any key up in the file finds
/// what the update left: under the key of the update the value that was
/// put, or nothing where the key was taken out; under every other key
/// the value that the tree held before the update, or nothing where it
/// held nothing under it. The look-up succeeds where the tree has 63
/// levels at most.
pub proof fn lemma_update_commit_get(
    r: &Staged,
    r2: &Staged,
    file: &NodeManager,
    c: CommitModel,
    st2: TxModel,
    page_size: u32,
    transaction_id: u64,
    height: nat,
    change: Change,
    key: Seq<u8>,
)
    requires
        reads(r, c),
        sound_tx(r, c.tx, height),
        root_free(c.tx),
        c.tx.root matches NodeId::Id(x) ==> c.tx.staging.nodes.contains_key(x),
        kept(c, page_size, c.tx.root, height),
        ranked(c, c.tx.root, height, None, None, true),
        goes_by(c.writer, c.image),
        tidy(c.writer, page_size as int),
        r2.staging@ == st2.staging,
        r2.store@ == r.store@,
        update_result(r, c.tx, change) == Ok::<TxModel, Error>(st2),
        st2.root is Id,
        commit_result(CommitModel { tx: st2, ..c }, page_size, transaction_id) is Ok,
        file@ == commit_result(CommitModel { tx: st2, ..c }, page_size, transaction_id)->Ok_0.image,
    ensures
        ({
            let c2 = CommitModel { tx: st2, ..c };
            let d = commit_result(c2, page_size, transaction_id)->Ok_0;
            let root = NodeId::Address(d.writer.meta().root_node);
            &&& opens_at(d.writer, d.image)
            &&& lookup(file, root, key) matches Ok(found) ==> if key == change.key() {
                found == put_value(change)
            } else {
                match found {
                    Some(v) => holds(r, c.tx.root, height, key, v),
                    None => !in_tree(r, c.tx.root, height, key),
                }
            }
            &&& levels_after(c2, page_size) <= 63 ==> lookup(file, root, key) is Ok
        }),
{
    let c2 = CommitModel { tx: st2, ..c };
    let d = commit_result(c2, page_size, transaction_id)->Ok_0;
    let root = NodeId::Address(d.writer.meta().root_node);
    lemma_update_correct(r, r2, c.tx, st2, height, change);
    lemma_update_keeps(r, r2, c, st2, page_size, height, change);
    lemma_update_ranks(r, r2, c, st2, height, change);
    lemma_ranked_weaken(c2, st2.root, height, None, None, true, None, None, false);
    lemma_commit_get(r2, file, c2, page_size, transaction_id, height, key);
    match lookup(file, root, key) {
        Err(_) => {},
        Ok(found) => {
            match found {
                Some(v) => {
                    assert(holds(r2, st2.root, height, key, v));
                },
                None => {
                    if key == change.key() {
                        if let Change::Put(_, value) = change {
                            assert(holds(r2, st2.root, height, key, value));
                            lemma_holds_in_tree(r2, st2.root, height, key, value);
                        }
                    } else if in_tree(r, c.tx.root, height, key) {
                        lemma_in_tree_holds(r, c.tx.root, height, key);
                        let v = choose|v: Seq<u8>| #[trigger] holds(r, c.tx.root, height, key, v);
                        assert(holds(r2, st2.root, height, key, v));
                        lemma_holds_in_tree(r2, st2.root, height, key, v);
                    }
                },
            }
        },
    }
}

/// No page holds two nodes of the snapshot that a commit leaves: two
/// ways down from the root that the new meta record names that end at
/// the same page are the same way.
pub proof fn lemma_commit_no_page_twice(
    file: &NodeManager,
    c: CommitModel,
    page_size: u32,
    transaction_id: u64,
    height: nat,
    p: Seq<int>,
    q: Seq<int>,
)
    requires
        commits(c, page_size, transaction_id, height),
        file@ == commit_result(c, page_size, transaction_id)->Ok_0.image,
        ({
            let d = commit_result(c, page_size, transaction_id)->Ok_0;
            let root = NodeId::Address(d.writer.meta().root_node);
            &&& walks(d, root, p)
            &&& walks(d, root, q)
            &&& end_of(d, root, p) == end_of(d, root, q)
        }),
    ensures
        p == q,
{
    let d = commit_result(c, page_size, transaction_id)->Ok_0;
    let root = NodeId::Address(d.writer.meta().root_node);
    lemma_commit_is_ranked(file, c, page_size, transaction_id, height);
    lemma_no_page_twice(d, page_size, root, levels_after(c, page_size), None, None, true, p, q);
}

} // verus!
