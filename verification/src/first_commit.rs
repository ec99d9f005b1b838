use crate::commit_exact::{lemma_commit_is_ranked, lemma_update_commit_get, levels_after};
use crate::commit_law::{goes_by, opens_at};
use crate::database::{after_release, initial_metas, is_initial};
use crate::free_list::FreeListModel;
use crate::durable_law::lemma_new_database_ready;
use crate::error::Error;
use crate::leaf_commit::{lemma_leaf_commit_succeeds, list_bytes, retirable, retiring, roomy};
use crate::merge::merge_all;
use crate::merge_law::root_free;
use crate::node::{LeafEntry, NodeId, NodeModel};
use crate::node_codec::NodeHeader;
use crate::rank::{lemma_ranked_weaken, ranked};
use crate::rank_update::lemma_update_ranks;
use crate::reader::{Loaded, NodeReader};
use crate::ready_law::lemma_update_ok;
use crate::split::split_all;
use crate::staging::{Staged, StagingModel};
use crate::store::NodeManager;
use crate::tx::{locate_leaf, lookup, TxModel};
use crate::tx_law::{lemma_update_path, sound_tx};
use crate::update::{
    cloned_levels, staged_change, update_result, with_copies, Change, PlanModel,
};
use crate::update_keeps::{lemma_update_keeps, reads};
use crate::update_law::plan_for;
use crate::write_law::{kept, lemma_written_reads, tidy};
use crate::write_model::{commit_result, CommitModel};
use vstd::prelude::*;

verus! {

/// Whether a commit at `c` is at the start of the first write
/// transaction on a new database with pages of `page_size` bytes: the
/// file is that of a new database, the writer holds its two meta records
/// and a free list without pages, written on the first page, and the
/// transaction has staged nothing.
pub open spec fn at_first(c: CommitModel, page_size: u32) -> bool {
    &&& is_initial(c.image, page_size)
    &&& c.writer.metas.len() == 2
    &&& c.writer.metas[0] == initial_metas(page_size).0
    &&& c.writer.metas[1] == initial_metas(page_size).1
    &&& c.writer.free_list.free == Set::<u64>::empty()
    &&& c.writer.free_list.pending_free == Map::<u64, Set<u64>>::empty()
    &&& c.writer.free_list.pending_allocated == Set::<u64>::empty()
    &&& c.writer.free_list_node_address == initial_metas(page_size).0.free_list_node
    &&& c.writer.free_list_header.overflow_len == 0
    &&& c.tx.staging.nodes == Map::<u64, NodeModel>::empty()
    &&& c.tx.staging.parent == Map::<u64, u64>::empty()
    &&& c.tx.staging.next_node_id + 64 < u64::MAX
    &&& c.tx.pending == Seq::<(u64, NodeHeader)>::empty()
    &&& c.tx.root == NodeId::Address(initial_metas(page_size).1.root_node)
}

/// A write transaction that begins on a new database is its first: where
/// the database is new, the free list of the writer is what releasing the
/// retired pages left of a free list without pages, and the transaction
/// has staged nothing and has given out no number, a commit at `c` is at
/// the start of the first write transaction.
pub proof fn lemma_begun_at_first(
    c: CommitModel,
    page_size: u32,
    before: FreeListModel,
    readers: Set<u64>,
)
    requires
        is_initial(c.image, page_size),
        c.writer.metas.len() == 2,
        c.writer.metas[0] == initial_metas(page_size).0,
        c.writer.metas[1] == initial_metas(page_size).1,
        before.free == Set::<u64>::empty(),
        before.pending_free == Map::<u64, Set<u64>>::empty(),
        before.pending_allocated == Set::<u64>::empty(),
        c.writer.free_list == after_release(before, readers),
        c.writer.free_list_node_address == initial_metas(page_size).0.free_list_node,
        c.writer.free_list_header.overflow_len == 0,
        c.tx.staging.nodes == Map::<u64, NodeModel>::empty(),
        c.tx.staging.parent == Map::<u64, u64>::empty(),
        c.tx.staging.next_node_id == 1,
        c.tx.pending.len() == 0,
        c.tx.root == NodeId::Address(initial_metas(page_size).1.root_node),
    ensures
        at_first(c, page_size),
{
    let (min_tx, max_tx) = crate::database::reader_range(readers);
    assert(before.releasable(min_tx, max_tx) =~= Set::<u64>::empty()) by {
        assert forall|a: u64| !before.releasable(min_tx, max_tx).contains(a) by {
            if before.releasable(min_tx, max_tx).contains(a) {
                let t = choose|t: u64| #[trigger]
                    before.bucket(t).contains(a) && before.may_release(t, a, min_tx, max_tx);
                assert(before.bucket(t).contains(a));
            }
        }
    }
    assert(c.writer.free_list.free =~= Set::<u64>::empty());
    assert(c.writer.free_list.pending_free =~= Map::<u64, Set<u64>>::empty()) by {
        assert forall|t: u64| !c.writer.free_list.pending_free.contains_key(t) by {
            if c.writer.free_list.pending_free.contains_key(t) {
                let a = choose|a: u64| before.kept(t, min_tx, max_tx).contains(a);
                assert(before.bucket(t).contains(a));
            }
        }
    }
    assert(c.tx.pending =~= Seq::<(u64, NodeHeader)>::empty());
}

/// The transaction after the first put on a new database: the leaf with
/// the entry that was put is staged under the next number and is the
/// root, and the page of the root before is put down to be retired.
pub open spec fn first_put(c: CommitModel, page_size: u32, key: Seq<u8>, value: Seq<u8>) -> TxModel {
    let leaf = c.tx.staging.next_node_id;
    TxModel {
        root: NodeId::Id(leaf),
        pending: Seq::<(u64, NodeHeader)>::empty().push(
            (
                initial_metas(page_size).1.root_node,
                NodeModel::Leaf(Seq::empty()).header(page_size as nat),
            ),
        ),
        staging: StagingModel {
            nodes: c.tx.staging.nodes.insert(
                leaf,
                NodeModel::Leaf(Seq::<LeafEntry>::empty().insert(0, LeafEntry { key, value })),
            ),
            next_node_id: (leaf + 1) as u64,
            ..c.tx.staging
        },
    }
}

/// The path of the first update on a new database is the root, a leaf
/// without entries that was read from the file.
pub proof fn lemma_first_path(r: &Staged, c: CommitModel, page_size: u32, key: Seq<u8>)
    requires
        page_size >= 128,
        reads(r, c),
        at_first(c, page_size),
        locate_leaf(r, c.tx.root, key) is Ok,
    ensures
        ({
            let plan = plan_for(locate_leaf(r, c.tx.root, key)->Ok_0);
            &&& plan.len() == 1
            &&& plan[0].index == 0
            &&& plan[0].node_id == c.tx.root
            &&& plan[0].loaded == Some(
                (
                    NodeModel::Leaf(Seq::empty()).header(page_size as nat),
                    NodeModel::Leaf(Seq::empty()),
                ),
            )
        }),
{
    let root = initial_metas(page_size).1.root_node;
    let empty = NodeModel::Leaf(Seq::empty());
    lemma_new_database_ready(r, c, page_size);
    lemma_update_path(r, c.tx, 0, key);
    let path = locate_leaf(r, c.tx.root, key)->Ok_0;
    crate::database::lemma_empty_leaf(page_size as nat);
    lemma_written_reads(c.image, root as int, empty, page_size as nat);
    let header = empty.header(page_size as nat);
    assert(r.loaded(c.tx.root) == Ok::<Loaded, Error>(Loaded { header: Some(header), node: empty }));
    assert(path.len() == 1) by {
        if path.len() > 1 {
            assert(path[0].node.node is Branch);
        }
    }
    assert(path[0].node == Loaded { header: Some(header), node: empty });
    assert(path.last() == path[0]);
    crate::path::lemma_search_bounds(path[0].node.node.keys(), key, 0, 0);
}

/// The first put on a new database succeeds, and stages the leaf with
/// the entry as the root.
pub proof fn lemma_first_put(
    r: &Staged,
    c: CommitModel,
    page_size: u32,
    key: Seq<u8>,
    value: Seq<u8>,
)
    requires
        page_size >= 128,
        reads(r, c),
        at_first(c, page_size),
        key.len() <= u16::MAX,
        value.len() <= u32::MAX,
    ensures
        update_result(r, c.tx, Change::Put(key, value)) == Ok::<TxModel, Error>(
            first_put(c, page_size, key, value),
        ),
{
    let change = Change::Put(key, value);
    lemma_new_database_ready(r, c, page_size);
    lemma_update_ok(r, c.tx, 0, change);
    lemma_first_path(r, c, page_size, key);
    let plan = plan_for(locate_leaf(r, c.tx.root, key)->Ok_0);
    assert(update_result(r, c.tx, change) == staged_change(c.tx, plan, change));
    lemma_first_staged(c, page_size, plan, key, value);
}

/// What staging the first put on a new database leaves.
proof fn lemma_first_staged(
    c: CommitModel,
    page_size: u32,
    plan: Seq<PlanModel>,
    key: Seq<u8>,
    value: Seq<u8>,
)
    requires
        at_first(c, page_size),
        plan.len() == 1,
        plan[0].index == 0,
        plan[0].node_id == c.tx.root,
        plan[0].loaded == Some(
            (NodeModel::Leaf(Seq::empty()).header(page_size as nat), NodeModel::Leaf(Seq::empty())),
        ),
        staged_change(c.tx, plan, Change::Put(key, value)) is Ok,
    ensures
        staged_change(c.tx, plan, Change::Put(key, value)) == Ok::<TxModel, Error>(
            first_put(c, page_size, key, value),
        ),
{
    let change = Change::Put(key, value);
    assert(plan.last() == plan[0]);
    assert(plan.drop_last().len() == 0);
    assert(cloned_levels(plan) == 1) by {
        assert(cloned_levels(plan.drop_last()) == 0);
    }
    reveal(staged_change);
    reveal(with_copies);
    let st2 = staged_change(c.tx, plan, change)->Ok_0;
    let goal = first_put(c, page_size, key, value);
    assert(change.apply(Seq::<LeafEntry>::empty(), 0) == Seq::<LeafEntry>::empty().insert(
        0,
        LeafEntry { key, value },
    ));
    assert(st2.root == goal.root);
    assert(st2.pending == goal.pending);
    assert(st2.staging.nodes == goal.staging.nodes);
    assert(st2.staging.parent == goal.staging.parent);
    assert(st2.staging.next_node_id == goal.staging.next_node_id);
}

/// The first put on a new database and its commit succeed. Where a value
/// is put under a key in the first write transaction on a new database,
/// both short enough to be stored, and the file with four more pages,
/// the key and the value is no longer than a length can tell, the put
/// succeeds, and so does the commit of the transaction.
pub proof fn lemma_first_put_commits(
    r: &Staged,
    c: CommitModel,
    page_size: u32,
    transaction_id: u64,
    key: Seq<u8>,
    value: Seq<u8>,
)
    requires
        page_size >= 128,
        reads(r, c),
        at_first(c, page_size),
        key.len() <= u16::MAX,
        value.len() <= u32::MAX,
        transaction_id >= 2,
        c.image.len() + 4 * page_size + key.len() + value.len() + 128 <= usize::MAX,
        c.image.len() + 4 * page_size + key.len() + value.len() + 128 <= u64::MAX,
        0x8000_0000 + page_size <= usize::MAX,
    ensures
        update_result(r, c.tx, Change::Put(key, value)) is Ok,
        commit_result(
            CommitModel { tx: update_result(r, c.tx, Change::Put(key, value))->Ok_0, ..c },
            page_size,
            transaction_id,
        ) is Ok,
{
    let ps = page_size as int;
    let root = initial_metas(page_size).1.root_node;
    let empty = NodeModel::Leaf(Seq::empty());
    let header = empty.header(page_size as nat);
    lemma_new_database_ready(r, c, page_size);
    lemma_first_put(r, c, page_size, key, value);
    let st2 = first_put(c, page_size, key, value);
    let c2 = CommitModel { tx: st2, ..c };
    let leaf = c.tx.staging.next_node_id;
    let entry = LeafEntry { key, value };
    let es = Seq::<LeafEntry>::empty().insert(0, entry);
    let node = NodeModel::Leaf(es);
    assert(es.len() == 1);
    assert(es[0] == entry);
    assert(node.size() == 24 + key.len() + value.len()) by {
        assert(es.drop_last().len() == 0);
        assert(crate::node::leaf_entries_size(es.drop_last()) == 0);
        assert(es.last() == entry);
    }
    assert(empty.size() == 18) by {
        crate::commit_law::lemma_node_bytes_len(empty, page_size as nat);
        crate::database::lemma_empty_leaf(page_size as nat);
    }
    assert(header.overflow_len == 0) by {
        assert(17int / ps == 0) by (nonlinear_arith)
            requires
                ps >= 128,
        ;
    }
    lemma_first_room(c, c2, page_size, key, value);
    let bytes = 2 * ps + key.len() + value.len() + 66;
    assert(retirable(st2.pending, ps)) by {
        assert forall|i: int| 0 <= i < st2.pending.len() implies (#[trigger] st2.pending[i]).0 + (
        st2.pending[i].1.overflow_len + 1) * ps <= u64::MAX by {
            assert(st2.pending[i] == (root, header));
            assert((header.overflow_len + 1) * ps == ps);
            assert(root + ps <= c.image.len());
        }
    }
    assert(node.serializable());
    lemma_leaf_commit_succeeds(c2, page_size, transaction_id, leaf, bytes);
}

/// A value that was put on a new database is found after the commit.
/// Where a value is put under a key in the first write transaction on a
/// new database and the transaction is committed, within the same
/// limits, the file opens at the transaction, and looking the key up in
/// the tree under the root that its meta record names, for a reader of
/// the file, gives the value.
pub proof fn lemma_first_put_is_found(
    r: &Staged,
    r2: &Staged,
    file: &NodeManager,
    c: CommitModel,
    page_size: u32,
    transaction_id: u64,
    key: Seq<u8>,
    value: Seq<u8>,
)
    requires
        page_size >= 128,
        reads(r, c),
        at_first(c, page_size),
        key.len() <= u16::MAX,
        value.len() <= u32::MAX,
        transaction_id >= 2,
        c.image.len() + 4 * page_size + key.len() + value.len() + 128 <= usize::MAX,
        c.image.len() + 4 * page_size + key.len() + value.len() + 128 <= u64::MAX,
        0x8000_0000 + page_size <= usize::MAX,
        r2.staging@ == first_put(c, page_size, key, value).staging,
        r2.store@ == r.store@,
        file@ == commit_result(
            CommitModel { tx: first_put(c, page_size, key, value), ..c },
            page_size,
            transaction_id,
        )->Ok_0.image,
    ensures
        ({
            let c2 = CommitModel { tx: first_put(c, page_size, key, value), ..c };
            let d = commit_result(c2, page_size, transaction_id)->Ok_0;
            &&& commit_result(c2, page_size, transaction_id) is Ok
            &&& opens_at(d.writer, d.image)
            &&& lookup(file, NodeId::Address(d.writer.meta().root_node), key) == Ok::<
                Option<Seq<u8>>,
                Error,
            >(Some(value))
        }),
{
    let change = Change::Put(key, value);
    let st2 = first_put(c, page_size, key, value);
    let c2 = CommitModel { tx: st2, ..c };
    lemma_new_database_ready(r, c, page_size);
    lemma_first_put(r, c, page_size, key, value);
    lemma_first_put_commits(r, c, page_size, transaction_id, key, value);
    lemma_first_levels(r, r2, file, c, page_size, transaction_id, key, value);
    lemma_update_commit_get(r, r2, file, c, st2, page_size, transaction_id, 0, change, key);
}

/// The tree that the commit of the first put leaves is one leaf.
proof fn lemma_first_levels(
    r: &Staged,
    r2: &Staged,
    file: &NodeManager,
    c: CommitModel,
    page_size: u32,
    transaction_id: u64,
    key: Seq<u8>,
    value: Seq<u8>,
)
    requires
        page_size >= 128,
        reads(r, c),
        at_first(c, page_size),
        sound_tx(r, c.tx, 0),
        root_free(c.tx),
        kept(c, page_size, c.tx.root, 0),
        ranked(c, c.tx.root, 0, None, None, true),
        goes_by(c.writer, c.image),
        tidy(c.writer, page_size as int),
        r2.staging@ == first_put(c, page_size, key, value).staging,
        r2.store@ == r.store@,
        update_result(r, c.tx, Change::Put(key, value)) == Ok::<TxModel, Error>(
            first_put(c, page_size, key, value),
        ),
        ({
            let c2 = CommitModel { tx: first_put(c, page_size, key, value), ..c };
            &&& commit_result(c2, page_size, transaction_id) is Ok
            &&& merge_all(c2.tx, c2.image, page_size) == Ok::<TxModel, Error>(c2.tx)
            &&& split_all(c2.tx, page_size, 64) == Ok::<TxModel, Error>(c2.tx)
            &&& file@ == commit_result(c2, page_size, transaction_id)->Ok_0.image
        }),
    ensures
        levels_after(CommitModel { tx: first_put(c, page_size, key, value), ..c }, page_size) == 0,
{
    let change = Change::Put(key, value);
    let st2 = first_put(c, page_size, key, value);
    let c2 = CommitModel { tx: st2, ..c };
    lemma_update_keeps(r, r2, c, st2, page_size, 0, change);
    lemma_update_ranks(r, r2, c, st2, 0, change);
    lemma_ranked_weaken(c2, st2.root, 0, None, None, true, None, None, false);
    lemma_commit_is_ranked(file, c2, page_size, transaction_id, 0);
    let begun = CommitModel { tx: st2, ..c2 };
    assert(begun == c2);
    assert(crate::write_law::load(c2, st2.root)->Ok_0.node is Leaf);
}

/// The file of a new database has room for what the commit of the first
/// put takes, and its free list holds no page.
proof fn lemma_first_room(
    c: CommitModel,
    c2: CommitModel,
    page_size: u32,
    key: Seq<u8>,
    value: Seq<u8>,
)
    requires
        page_size >= 128,
        at_first(c, page_size),
        tidy(c.writer, page_size as int),
        NodeModel::Leaf(Seq::empty()).header(page_size as nat).overflow_len == 0,
        c2 == (CommitModel { tx: first_put(c, page_size, key, value), ..c }),
        c.image.len() + 4 * page_size + key.len() + value.len() + 128 <= usize::MAX,
        c.image.len() + 4 * page_size + key.len() + value.len() + 128 <= u64::MAX,
        0x8000_0000 + page_size <= usize::MAX,
    ensures
        list_bytes(c2) == 34,
        roomy(c2.writer, c2.image, page_size as int, 2 * page_size + key.len() + value.len() + 66),
        c2.writer.free_list_node_address + (c2.writer.free_list_header.overflow_len + 1) * page_size
            <= u64::MAX,
        initial_metas(page_size).1.root_node + page_size <= c.image.len(),
{
    let ps = page_size as int;
    let st2 = c2.tx;
    assert(retiring(st2.pending) == 1) by {
        assert(st2.pending.len() == 1);
        assert(st2.pending.last() == st2.pending[0]);
        assert(st2.pending[0].1 == NodeModel::Leaf(Seq::empty()).header(page_size as nat));
        assert(st2.pending.drop_last().len() == 0);
        assert(retiring(st2.pending.drop_last()) == 0);
    }
    assert(c2.writer.free_list.all_pages().len() == 0) by {
        assert(c.writer.free_list.all_pages() =~= Set::<u64>::empty());
    }
    assert(c.writer.free_list.all_pages() =~= Set::<u64>::empty()) by {
        assert forall|a: u64| !c.writer.free_list.pending_pages().contains(a) by {
            if c.writer.free_list.pending_pages().contains(a) {
                let t = choose|t: u64| #[trigger] c.writer.free_list.bucket(t).contains(a);
                assert(false);
            }
        }
    }
    assert(c.writer.meta() == initial_metas(page_size).1);
    assert(c.writer.meta().end_address == c.image.len());
    crate::commit::lemma_pages_for(2048, ps);
}

} // verus!
