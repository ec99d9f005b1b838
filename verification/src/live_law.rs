use crate::commit::pages_for;
use crate::commit_law::{
    advanced, goes_by, lemma_free_list_written_advances, lemma_taken, lemma_write_tree_advances,
    writable,
};
use crate::database::WriterModel;
use crate::free_list::{page_at, run_pages, FreeListModel};
use crate::laws::live_at;
use crate::merge::{merge_all, with_node};
use crate::node::{next_dirty, saturate, BranchEntry, NodeId, NodeModel};
use crate::node_codec::NodeHeader;
use crate::split::split_all;
use crate::tx::TxModel;
use crate::write_law::{guarded, kept, load};
use crate::write_model::{
    commit_result, free_list_written, node_written, retired, retired_all, taken, write_children,
    write_tree, CommitModel,
};
use vstd::prelude::*;

verus! {

/// Whether the free list of `d` tells of the pages what the free list of
/// `c` told, but for what transaction `transaction_id` did: a page with
/// another allocator on record was at a writable address at `c` and is
/// put down as allocated by the transaction, and a page in a bucket of
/// retired pages was in that bucket at `c`, or the bucket is that of the
/// transaction.
pub open spec fn noted(c: WriterModel, d: WriterModel, page_size: int, transaction_id: u64) -> bool {
    &&& forall|a: u64|
        #[trigger] d.free_list.allocator(a) != c.free_list.allocator(a) ==> d.free_list.allocator(a)
            == transaction_id && writable(c, page_size, a as int)
    &&& forall|t: u64, a: u64| #[trigger]
        d.free_list.bucket(t).contains(a) ==> t == transaction_id || c.free_list.bucket(t).contains(
            a,
        )
}

/// What was noted from `c` to `d` and from `d` to `e` was noted from `c`
/// to `e`, where what is writable at `d` was writable at `c`.
pub proof fn lemma_noted_trans(
    c: WriterModel,
    d: WriterModel,
    e: WriterModel,
    page_size: int,
    transaction_id: u64,
)
    requires
        noted(c, d, page_size, transaction_id),
        noted(d, e, page_size, transaction_id),
        forall|i: int| #[trigger] writable(d, page_size, i) ==> writable(c, page_size, i),
    ensures
        noted(c, e, page_size, transaction_id),
{
    assert forall|a: u64| #[trigger]
        e.free_list.allocator(a) != c.free_list.allocator(a) implies e.free_list.allocator(a)
        == transaction_id && writable(c, page_size, a as int) by {
        if e.free_list.allocator(a) != d.free_list.allocator(a) {
            assert(writable(d, page_size, a as int));
        } else {
            assert(d.free_list.allocator(a) != c.free_list.allocator(a));
        }
    }
    assert forall|t: u64, a: u64| #[trigger] e.free_list.bucket(t).contains(a) implies t
        == transaction_id || c.free_list.bucket(t).contains(a) by {
        if t != transaction_id {
            assert(d.free_list.bucket(t).contains(a));
        }
    }
}

/// Taking pages changes the record of the pages that were taken, which
/// were writable, and no bucket of retired pages.
pub proof fn lemma_taken_noted(
    writer: WriterModel,
    image: Seq<u8>,
    page_size: u32,
    transaction_id: u64,
    size: u64,
)
    requires
        writer.metas.len() == 2,
        taken(writer, image, page_size, transaction_id, size) is Ok,
    ensures
        noted(
            writer,
            taken(writer, image, page_size, transaction_id, size)->Ok_0.0,
            page_size as int,
            transaction_id,
        ),
{
    let ps = page_size as int;
    let n = pages_for(size as int, ps);
    let (after, grown, address) = taken(writer, image, page_size, transaction_id, size)->Ok_0;
    lemma_taken(writer, image, page_size, transaction_id, size);
    let run = run_pages(address as int, n, ps);
    assert forall|a: u64| #[trigger]
        after.free_list.allocator(a) != writer.free_list.allocator(a) implies after.free_list.allocator(
        a,
    ) == transaction_id && writable(writer, ps, a as int) by {
        assert(run.contains(a));
        let j = choose|j: int| 0 <= j < n && a == #[trigger] page_at(address as int, j, ps);
        assert(0 <= j * ps < n * ps) by (nonlinear_arith)
            requires
                0 <= j < n,
                ps > 0,
        ;
        assert(address <= (a as int) && (a as int) < address + n * ps);
    }
    assert forall|t: u64, a: u64| #[trigger] after.free_list.bucket(t).contains(a) implies t
        == transaction_id || writer.free_list.bucket(t).contains(a) by {
        assert(after.free_list.pending_free == writer.free_list.pending_free);
    }
}

/// Writing a staged node changes the record of the pages that it took.
pub proof fn lemma_node_written_noted(
    c: CommitModel,
    page_size: u32,
    transaction_id: u64,
    node_id: u64,
)
    requires
        c.writer.metas.len() == 2,
        node_written(c, page_size, transaction_id, node_id) is Ok,
    ensures
        noted(
            c.writer,
            node_written(c, page_size, transaction_id, node_id)->Ok_0.0.writer,
            page_size as int,
            transaction_id,
        ),
{
    let node = c.tx.staging.nodes[node_id];
    lemma_taken_noted(c.writer, c.image, page_size, transaction_id, saturate(node.size()));
}

/// Writing the staged children of a node and then the node changes the
/// record of the pages that were taken.
pub proof fn lemma_write_children_noted(
    c: CommitModel,
    page_size: u32,
    transaction_id: u64,
    node_id: u64,
    from: int,
    depth: nat,
    measure: nat,
)
    requires
        c.writer.metas.len() == 2,
        write_children(c, page_size, transaction_id, node_id, from, depth, measure) is Ok,
    ensures
        noted(
            c.writer,
            write_children(c, page_size, transaction_id, node_id, from, depth, measure)->Ok_0.0.writer,
            page_size as int,
            transaction_id,
        ),
    decreases depth, 0nat, measure,
{
    match next_dirty(c.tx.staging.nodes[node_id], from) {
        None => {
            lemma_node_written_noted(c, page_size, transaction_id, node_id);
        },
        Some((child, index)) => {
            lemma_write_tree_advances(c, page_size, transaction_id, child, (depth - 1) as nat);
            lemma_write_tree_noted(c, page_size, transaction_id, child, (depth - 1) as nat);
            let (after, address, key) = write_tree(
                c,
                page_size,
                transaction_id,
                child,
                (depth - 1) as nat,
            )->Ok_0;
            let es = after.tx.staging.nodes[node_id]->Branch_0;
            let left = es.len() - (index + 1);
            let next = CommitModel {
                tx: with_node(
                    after.tx,
                    node_id,
                    NodeModel::Branch(
                        es.update(index, BranchEntry { key, node_id: NodeId::Address(address) }),
                    ),
                ),
                ..after
            };
            lemma_write_children_noted(
                next,
                page_size,
                transaction_id,
                node_id,
                index + 1,
                depth,
                left as nat,
            );
            let (d, _, _) = write_children(
                next,
                page_size,
                transaction_id,
                node_id,
                index + 1,
                depth,
                left as nat,
            )->Ok_0;
            assert(advanced(c, after, page_size as int));
            lemma_noted_trans(c.writer, next.writer, d.writer, page_size as int, transaction_id);
        },
    }
}

/// Writing a staged tree changes the record of the pages that were
/// taken.
pub proof fn lemma_write_tree_noted(
    c: CommitModel,
    page_size: u32,
    transaction_id: u64,
    node_id: u64,
    depth: nat,
)
    requires
        c.writer.metas.len() == 2,
        write_tree(c, page_size, transaction_id, node_id, depth) is Ok,
    ensures
        noted(
            c.writer,
            write_tree(c, page_size, transaction_id, node_id, depth)->Ok_0.0.writer,
            page_size as int,
            transaction_id,
        ),
    decreases depth, 1nat, 0nat,
{
    lemma_write_children_noted(
        c,
        page_size,
        transaction_id,
        node_id,
        0,
        depth,
        c.tx.staging.nodes[node_id].len(),
    );
}

/// Retiring the pages that a transaction replaced adds to the bucket of
/// the transaction and to no other, and leaves the record of who
/// allocated which page.
pub proof fn lemma_retired_all_noted(
    list: FreeListModel,
    transaction_id: u64,
    pending: Seq<(u64, NodeHeader)>,
    page_size: int,
)
    requires
        retired_all(list, transaction_id, pending, page_size) is Ok,
    ensures
        ({
            let after = retired_all(list, transaction_id, pending, page_size)->Ok_0;
            &&& after.allocated_by == list.allocated_by
            &&& after.free == list.free
            &&& after.pending_allocated == list.pending_allocated
            &&& forall|t: u64, a: u64| #[trigger]
                after.bucket(t).contains(a) ==> t == transaction_id || list.bucket(t).contains(a)
        }),
    decreases pending.len(),
{
    if pending.len() > 0 {
        let (address, header) = pending.last();
        let next = retired(list, transaction_id, address, header.overflow_len, page_size)->Ok_0;
        lemma_retired_all_noted(next, transaction_id, pending.drop_last(), page_size);
        let after = retired_all(list, transaction_id, pending, page_size)->Ok_0;
        assert forall|t: u64, a: u64| #[trigger] after.bucket(t).contains(a) implies t
            == transaction_id || list.bucket(t).contains(a) by {
            if t != transaction_id {
                assert(next.bucket(t).contains(a));
            }
        }
    }
}

/// Writing the free list changes the record of the pages that it took,
/// and adds to the bucket of the transaction alone.
pub proof fn lemma_free_list_written_noted(c: CommitModel, page_size: u32, transaction_id: u64)
    requires
        c.writer.metas.len() == 2,
        free_list_written(c, page_size, transaction_id) is Ok,
    ensures
        noted(
            c.writer,
            free_list_written(c, page_size, transaction_id)->Ok_0.0.writer,
            page_size as int,
            transaction_id,
        ),
{
    let ps = page_size as int;
    let list0 = c.writer.free_list;
    let first = retired(
        list0,
        transaction_id,
        c.writer.free_list_node_address,
        c.writer.free_list_header.overflow_len,
        ps,
    )->Ok_0;
    lemma_retired_all_noted(first, transaction_id, c.tx.pending, ps);
    let list = retired_all(first, transaction_id, c.tx.pending, ps)->Ok_0;
    let size = (18 + 8 * list.all_pages().len()) as u64;
    let w1 = WriterModel { free_list: list, ..c.writer };
    assert(noted(c.writer, w1, ps, transaction_id)) by {
        assert forall|t: u64, a: u64| #[trigger] w1.free_list.bucket(t).contains(a) implies t
            == transaction_id || c.writer.free_list.bucket(t).contains(a) by {
            if t != transaction_id {
                assert(first.bucket(t).contains(a));
            }
        }
    }
    assert(w1.free_list.available() == c.writer.free_list.available());
    assert(w1.meta() == c.writer.meta());
    assert forall|i: int| #[trigger] writable(w1, ps, i) implies writable(c.writer, ps, i) by {
        if i < w1.meta().end_address {
            let p = choose|p: u64| #[trigger] w1.free_list.available().contains(p) && p <= i < p + ps;
            assert(c.writer.free_list.available().contains(p));
        }
    }
    lemma_taken_noted(w1, c.image, page_size, transaction_id, size);
    let writer = taken(w1, c.image, page_size, transaction_id, size)->Ok_0.0;
    lemma_noted_trans(c.writer, w1, writer, ps, transaction_id);
}

/// A commit changes the record of the pages that it took, which were
/// writable, and adds to the bucket of retired pages of its transaction
/// alone.
pub proof fn lemma_commit_noted(c: CommitModel, page_size: u32, transaction_id: u64)
    requires
        goes_by(c.writer, c.image),
        commit_result(c, page_size, transaction_id) is Ok,
    ensures
        noted(
            c.writer,
            commit_result(c, page_size, transaction_id)->Ok_0.writer,
            page_size as int,
            transaction_id,
        ),
{
    let ps = page_size as int;
    let d = commit_result(c, page_size, transaction_id)->Ok_0;
    let merged = merge_all(c.tx, c.image, page_size)->Ok_0;
    let balanced = split_all(merged, page_size, 64)->Ok_0;
    let begun = CommitModel { tx: balanced, ..c };
    match balanced.root {
        NodeId::Address(_) => {},
        NodeId::Id(id) => {
            lemma_write_tree_advances(begun, page_size, transaction_id, id, 64);
            lemma_write_tree_noted(begun, page_size, transaction_id, id, 64);
            let (written, root, _) = write_tree(begun, page_size, transaction_id, id, 64)->Ok_0;
            let rooted = CommitModel {
                tx: TxModel { root: NodeId::Address(root), ..written.tx },
                ..written
            };
            lemma_free_list_written_noted(rooted, page_size, transaction_id);
            let (after, address, header) = free_list_written(rooted, page_size, transaction_id)->Ok_0;
            assert(noted(after.writer, d.writer, ps, transaction_id)) by {
                assert(d.writer.free_list.allocated_by == after.writer.free_list.allocated_by);
                assert(d.writer.free_list.pending_free == after.writer.free_list.pending_free);
            }
            assert(advanced(begun, written, ps));
            lemma_noted_trans(c.writer, rooted.writer, after.writer, ps, transaction_id);
            assert forall|i: int| #[trigger] writable(after.writer, ps, i) implies writable(
                c.writer,
                ps,
                i,
            ) by {
                lemma_free_list_written_advances(rooted, page_size, transaction_id);
                assert(writable(rooted.writer, ps, i));
            }
            lemma_noted_trans(c.writer, after.writer, d.writer, ps, transaction_id);
        },
    }
}

/// A commit leaves live what an older snapshot can reach. A page that is
/// not writable when the commit begins, and that is live at a snapshot
/// of an earlier transaction, is live at that snapshot after the commit:
/// the commit takes it for no node, and where it retires the page, it
/// does so under its own transaction.
pub proof fn lemma_commit_keeps_live(
    c: CommitModel,
    page_size: u32,
    transaction_id: u64,
    snapshot: u64,
    page: u64,
)
    requires
        goes_by(c.writer, c.image),
        commit_result(c, page_size, transaction_id) is Ok,
        snapshot < transaction_id,
        !writable(c.writer, page_size as int, page as int),
        live_at(c.writer.free_list, page, snapshot),
    ensures
        live_at(commit_result(c, page_size, transaction_id)->Ok_0.writer.free_list, page, snapshot),
{
    let d = commit_result(c, page_size, transaction_id)->Ok_0;
    lemma_commit_noted(c, page_size, transaction_id);
    assert(d.writer.free_list.allocator(page) == c.writer.free_list.allocator(page));
    assert forall|t: u64| #[trigger] d.writer.free_list.bucket(t).contains(page) implies snapshot
        < t by {
        if t != transaction_id {
            assert(c.writer.free_list.bucket(t).contains(page));
        }
    }
}

/// A commit leaves live the pages of the trees of older snapshots. The
/// page of a node in the file whose tree is in good keeping when the
/// commit begins, where it is live at a snapshot of an earlier
/// transaction, is live at that snapshot after the commit.
pub proof fn lemma_commit_keeps_tree_live(
    c: CommitModel,
    page_size: u32,
    transaction_id: u64,
    snapshot: u64,
    page: u64,
    height: nat,
)
    requires
        goes_by(c.writer, c.image),
        commit_result(c, page_size, transaction_id) is Ok,
        snapshot < transaction_id,
        kept(c, page_size, NodeId::Address(page), height),
        live_at(c.writer.free_list, page, snapshot),
    ensures
        live_at(commit_result(c, page_size, transaction_id)->Ok_0.writer.free_list, page, snapshot),
{
    let n = load(c, NodeId::Address(page))->Ok_0;
    assert(guarded(c.writer, page_size as int, page as int, n.node.size() as int));
    assert(n.node.size() > 0) by {
        crate::commit_law::lemma_node_bytes_len(n.node, page_size as nat);
    }
    assert(!writable(c.writer, page_size as int, page as int));
    lemma_commit_keeps_live(c, page_size, transaction_id, snapshot, page);
}

/// The tree and the pages that can be handed out lie apart. No byte of a
/// node in the file whose tree is in good keeping lies in a page that is
/// free and not taken; after a commit, when nothing is taken, these are
/// the free pages.
pub proof fn lemma_tree_apart_from_free(
    c: CommitModel,
    page_size: u32,
    page: u64,
    height: nat,
    free_page: u64,
)
    requires
        page_size > 0,
        kept(c, page_size, NodeId::Address(page), height),
        c.writer.free_list.available().contains(free_page),
    ensures
        free_page + page_size <= page || page + load(c, NodeId::Address(page))->Ok_0.node.size()
            <= free_page,
{
    let ps = page_size as int;
    let n = load(c, NodeId::Address(page))->Ok_0;
    let size = n.node.size() as int;
    assert(guarded(c.writer, ps, page as int, size));
    if !(free_page + page_size <= page || page + size <= free_page) {
        let i = if page >= free_page {
            page as int
        } else {
            free_page as int
        };
        assert(page <= i < page + size);
        assert(free_page <= i < free_page + ps);
        assert(writable(c.writer, ps, i));
    }
}

} // verus!
