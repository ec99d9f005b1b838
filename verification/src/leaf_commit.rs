use crate::commit::{grown_size, lemma_pages_for, pages_for, META_REGION};
use crate::commit_law::{goes_by, lemma_node_bytes_len, lemma_run_pages_finite, lemma_taken};
use crate::database::WriterModel;
use crate::free_list::{lemma_page_at_next, lemma_run_pages_push, page_at, run_pages, FreeListModel};
use crate::merge::merge_all;
use crate::node::{saturate, NodeId};
use crate::node_codec::NodeHeader;
use crate::split::{split_all, split_candidate};
use crate::store::meta_slot;
use crate::tx::TxModel;
use crate::write_law::{lemma_taken_guards, tidy};
use crate::write_model::{
    commit_result, free_list_written, is_lowest_run, lowest_run, meta_written, node_written,
    retired, retired_all, taken, write_tree, CommitModel,
};
use vstd::prelude::*;

verus! {

/// Whether a writer that holds `writer` can take pages for `bytes` more
/// bytes of the file `image`: the pages that it can hand out are in
/// order and lie after the two meta records, the used part of the file
/// lies in the file, and with `bytes` more bytes it is no longer than an
/// address or a length can tell.
pub open spec fn roomy(writer: WriterModel, image: Seq<u8>, page_size: int, bytes: int) -> bool {
    &&& tidy(writer, page_size)
    &&& forall|p: u64| #[trigger] writer.free_list.available().contains(p) ==> p >= META_REGION
    &&& META_REGION <= writer.meta().end_address <= image.len()
    &&& bytes >= 0
    &&& writer.meta().end_address + bytes <= u64::MAX
    &&& writer.meta().end_address + bytes <= usize::MAX
    &&& 0x8000_0000 + page_size <= usize::MAX
}

/// Taking pages succeeds where there is room for them, and leaves room
/// for what is left of the bytes.
pub proof fn lemma_taken_ok(
    writer: WriterModel,
    image: Seq<u8>,
    page_size: u32,
    transaction_id: u64,
    size: u64,
    bytes: int,
)
    requires
        roomy(writer, image, page_size as int, bytes),
        size > 0,
        size + page_size <= bytes,
    ensures
        taken(writer, image, page_size, transaction_id, size) is Ok,
        ({
            let (after, grown, _) = taken(writer, image, page_size, transaction_id, size)->Ok_0;
            roomy(after, grown, page_size as int, bytes - size - page_size)
        }),
{
    let ps = page_size as int;
    let n = pages_for(size as int, ps);
    let list = writer.free_list;
    lemma_pages_for(size as int, ps);
    assert(n >= 1) by (nonlinear_arith)
        requires
            n * ps >= size,
            size > 0,
            ps > 0,
    ;
    match lowest_run(list.available(), n, ps) {
        Some(start) => {
            assert(is_lowest_run(list.available(), start, n, ps));
            lemma_page_at_next(start, 0, ps);
            lemma_page_at_next(start, n - 1, ps);
            assert(list.available().contains(page_at(start, 0, ps) as u64));
            assert(list.available().contains(page_at(start, n - 1, ps) as u64));
            assert(page_at(start, n, ps) == start + n * ps);
            assert(start >= META_REGION);
            assert(start + n * ps <= image.len());
        },
        None => {
            let start = writer.meta().end_address;
            let end = start + n * ps;
            assert(end <= u64::MAX);
            if end > image.len() {
                lemma_pages_for(0x4000_0000, ps);
                assert(grown_size(image.len() as int, end, ps) <= usize::MAX);
            }
        },
    }
    lemma_taken(writer, image, page_size, transaction_id, size);
    lemma_taken_guards(writer, image, page_size, transaction_id, size);
    let (after, grown, address) = taken(writer, image, page_size, transaction_id, size)->Ok_0;
    assert forall|p: u64| #[trigger] after.free_list.available().contains(p) implies p
        >= META_REGION by {
        assert(list.available().contains(p));
    }
    match lowest_run(list.available(), n, ps) {
        Some(start) => {
            assert(after.meta() == writer.meta());
        },
        None => {
            let end = address + n * ps;
            assert(after.meta().end_address == end);
        },
    }
}

/// Writing a staged leaf that can be written succeeds where there is
/// room for it, leaves room for what is left of the bytes, and leaves
/// the transaction as it is; the leaf lies after the two meta records.
pub proof fn lemma_leaf_written_ok(
    c: CommitModel,
    page_size: u32,
    transaction_id: u64,
    node_id: u64,
    bytes: int,
)
    requires
        roomy(c.writer, c.image, page_size as int, bytes),
        c.tx.staging.nodes.contains_key(node_id),
        c.tx.staging.nodes[node_id] is Leaf,
        c.tx.staging.nodes[node_id].serializable(),
        c.tx.staging.nodes[node_id].size() + page_size <= bytes,
    ensures
        node_written(c, page_size, transaction_id, node_id) is Ok,
        ({
            let (d, address, _) = node_written(c, page_size, transaction_id, node_id)->Ok_0;
            &&& roomy(
                d.writer,
                d.image,
                page_size as int,
                bytes - c.tx.staging.nodes[node_id].size() - page_size,
            )
            &&& d.tx == c.tx
            &&& address >= META_REGION
            &&& d.writer.metas.len() == 2
            &&& d.writer.metas[0].transaction_id == c.writer.metas[0].transaction_id
            &&& d.writer.metas[1].transaction_id == c.writer.metas[1].transaction_id
            &&& d.writer.free_list_header == c.writer.free_list_header
            &&& d.writer.free_list_node_address == c.writer.free_list_node_address
            &&& d.writer.free_list.all_pages().subset_of(c.writer.free_list.all_pages())
        }),
{
    let node = c.tx.staging.nodes[node_id];
    let size = saturate(node.size());
    lemma_node_bytes_len(node, page_size as nat);
    assert(node.size() >= 18);
    lemma_taken_ok(c.writer, c.image, page_size, transaction_id, size, bytes);
    lemma_taken(c.writer, c.image, page_size, transaction_id, size);
}

/// A run of `n` pages holds `n` addresses at most.
pub proof fn lemma_run_len(start: int, n: int, page_size: int)
    requires
        n >= 0,
    ensures
        run_pages(start, n, page_size).finite(),
        run_pages(start, n, page_size).len() <= n,
    decreases n,
{
    lemma_run_pages_finite(start, n, page_size);
    if n == 0 {
        assert(run_pages(start, n, page_size) =~= Set::<u64>::empty());
    } else {
        lemma_run_len(start, n - 1, page_size);
        let last = page_at(start, n - 1, page_size);
        if 0 <= last <= u64::MAX {
            lemma_run_pages_push(start, n - 1, page_size);
        } else {
            assert forall|a: u64| run_pages(start, n, page_size).contains(a) implies run_pages(
                start,
                n - 1,
                page_size,
            ).contains(a) by {
                let j = choose|j: int| 0 <= j < n && a == #[trigger] page_at(start, j, page_size);
                assert(j < n - 1);
            }
            vstd::set_lib::lemma_len_subset(
                run_pages(start, n, page_size),
                run_pages(start, n - 1, page_size),
            );
        }
    }
}

/// Whether the pages of `pending` have addresses that fit 64 bits.
pub open spec fn retirable(pending: Seq<(u64, NodeHeader)>, page_size: int) -> bool {
    forall|i: int|
        0 <= i < pending.len() ==> (#[trigger] pending[i]).0 + (pending[i].1.overflow_len + 1)
            * page_size <= u64::MAX
}

/// The number of pages of `pending`.
pub open spec fn retiring(pending: Seq<(u64, NodeHeader)>) -> nat
    decreases pending.len(),
{
    if pending.len() == 0 {
        0
    } else {
        retiring(pending.drop_last()) + pending.last().1.overflow_len as nat + 1
    }
}

/// Retiring pages whose addresses fit 64 bits succeeds, and adds no more
/// pages to the free list than were retired.
pub proof fn lemma_retired_all_ok(
    list: FreeListModel,
    transaction_id: u64,
    pending: Seq<(u64, NodeHeader)>,
    page_size: int,
)
    requires
        list.all_pages().finite(),
        retirable(pending, page_size),
    ensures
        retired_all(list, transaction_id, pending, page_size) is Ok,
        ({
            let after = retired_all(list, transaction_id, pending, page_size)->Ok_0;
            &&& after.all_pages().finite()
            &&& after.all_pages().len() <= list.all_pages().len() + retiring(pending)
            &&& after.free == list.free
            &&& after.pending_allocated == list.pending_allocated
            &&& after.allocated_by == list.allocated_by
        }),
    decreases pending.len(),
{
    if pending.len() > 0 {
        let (address, header) = pending.last();
        assert(pending[pending.len() - 1] == pending.last());
        let next = retired(list, transaction_id, address, header.overflow_len, page_size)->Ok_0;
        crate::commit_law::lemma_retired(list, transaction_id, address, header.overflow_len, page_size);
        let run = run_pages(address as int, header.overflow_len + 1, page_size);
        lemma_run_len(address as int, header.overflow_len + 1, page_size);
        vstd::set_lib::lemma_len_union(list.all_pages(), run);
        assert forall|i: int| 0 <= i < pending.drop_last().len() implies (
        #[trigger] pending.drop_last()[i]).0 + (pending.drop_last()[i].1.overflow_len + 1)
            * page_size <= u64::MAX by {
            assert(pending.drop_last()[i] == pending[i]);
        }
        lemma_retired_all_ok(next, transaction_id, pending.drop_last(), page_size);
    }
}

/// The bytes that the free list takes at most once a commit at `c` has
/// retired the pages of the free list before and the pages that the
/// transaction replaced.
pub open spec fn list_bytes(c: CommitModel) -> int {
    18 + 8 * (c.writer.free_list.all_pages().len() + c.writer.free_list_header.overflow_len + 1
        + retiring(c.tx.pending))
}

/// Writing the free list succeeds where there is room for it and the
/// pages that are retired have addresses that fit 64 bits.
pub proof fn lemma_free_list_written_ok(
    c: CommitModel,
    page_size: u32,
    transaction_id: u64,
    bytes: int,
)
    requires
        page_size >= 128,
        roomy(c.writer, c.image, page_size as int, bytes),
        c.writer.free_list.all_pages().finite(),
        c.writer.free_list_node_address + (c.writer.free_list_header.overflow_len + 1) * page_size
            <= u64::MAX,
        retirable(c.tx.pending, page_size as int),
        list_bytes(c) + page_size <= bytes,
    ensures
        free_list_written(c, page_size, transaction_id) is Ok,
        free_list_written(c, page_size, transaction_id)->Ok_0.0.image.len() >= c.image.len(),
{
    let ps = page_size as int;
    let list0 = c.writer.free_list;
    let first = retired(
        list0,
        transaction_id,
        c.writer.free_list_node_address,
        c.writer.free_list_header.overflow_len,
        ps,
    )->Ok_0;
    crate::commit_law::lemma_retired(
        list0,
        transaction_id,
        c.writer.free_list_node_address,
        c.writer.free_list_header.overflow_len,
        ps,
    );
    let run = run_pages(
        c.writer.free_list_node_address as int,
        c.writer.free_list_header.overflow_len + 1,
        ps,
    );
    lemma_run_len(
        c.writer.free_list_node_address as int,
        c.writer.free_list_header.overflow_len + 1,
        ps,
    );
    vstd::set_lib::lemma_len_union(list0.all_pages(), run);
    lemma_retired_all_ok(first, transaction_id, c.tx.pending, ps);
    let list = retired_all(first, transaction_id, c.tx.pending, ps)->Ok_0;
    let pages = list.all_pages().len();
    assert(18 + 8 * pages <= list_bytes(c));
    let size = (18 + 8 * pages) as u64;
    let w1 = WriterModel { free_list: list, ..c.writer };
    assert(w1.free_list.available() == c.writer.free_list.available());
    assert(w1.meta() == c.writer.meta());
    assert(roomy(w1, c.image, ps, bytes));
    lemma_taken_ok(w1, c.image, page_size, transaction_id, size, bytes);
    lemma_taken(w1, c.image, page_size, transaction_id, size);
    let (writer, grown, address) = taken(w1, c.image, page_size, transaction_id, size)->Ok_0;
    let after = writer.free_list;
    vstd::set_lib::lemma_len_subset(after.all_pages(), list.all_pages());
    crate::ordered::lemma_sorted_seq_len(after.all_pages());
    let h = after.header(ps as nat);
    crate::format::lemma_u16_round_trip(h.flags);
    crate::format::lemma_u64_round_trip(h.internal_nodes_len);
    crate::format::lemma_u64_round_trip(h.overflow_len);
    crate::format::lemma_u64s_len(after.image());
    assert(after.bytes(ps as nat).len() == 18 + 8 * after.image().len());
}

/// The commit of a tree that is one staged leaf succeeds. Where the root
/// of the transaction is a staged leaf with an entry that can be
/// written, is not to be split and has no parent on record, the file has
/// room for the leaf and for the free list, the pages that are retired
/// have addresses that fit 64 bits, and the transaction is later than
/// the two that the writer holds meta records of, the commit succeeds,
/// and the tree is written as it is, neither merged nor split.
pub proof fn lemma_leaf_commit_succeeds(
    c: CommitModel,
    page_size: u32,
    transaction_id: u64,
    leaf: u64,
    bytes: int,
)
    requires
        page_size >= 128,
        goes_by(c.writer, c.image),
        c.tx.root == NodeId::Id(leaf),
        c.tx.staging.nodes.contains_key(leaf),
        !c.tx.staging.parent.contains_key(leaf),
        c.tx.staging.nodes[leaf] is Leaf,
        c.tx.staging.nodes[leaf].len() > 0,
        c.tx.staging.nodes[leaf].serializable(),
        !split_candidate(c.tx.staging.nodes[leaf], page_size),
        roomy(c.writer, c.image, page_size as int, bytes),
        c.tx.staging.nodes[leaf].size() + list_bytes(c) + 2 * page_size <= bytes,
        c.writer.free_list_node_address + (c.writer.free_list_header.overflow_len + 1) * page_size
            <= u64::MAX,
        retirable(c.tx.pending, page_size as int),
        c.writer.metas[0].transaction_id < transaction_id,
        c.writer.metas[1].transaction_id < transaction_id,
    ensures
        commit_result(c, page_size, transaction_id) is Ok,
        merge_all(c.tx, c.image, page_size) == Ok::<TxModel, crate::error::Error>(c.tx),
        split_all(c.tx, page_size, 64) == Ok::<TxModel, crate::error::Error>(c.tx),
{
    let node = c.tx.staging.nodes[leaf];
    assert(merge_all(c.tx, c.image, page_size) == Ok::<TxModel, crate::error::Error>(c.tx));
    assert(split_all(c.tx, page_size, 64) == Ok::<TxModel, crate::error::Error>(c.tx));
    let begun = CommitModel { tx: c.tx, ..c };
    assert(begun == c);
    lemma_leaf_written_ok(c, page_size, transaction_id, leaf, bytes);
    assert(write_tree(c, page_size, transaction_id, leaf, 64) == node_written(
        c,
        page_size,
        transaction_id,
        leaf,
    ));
    let (written, root, _) = node_written(c, page_size, transaction_id, leaf)->Ok_0;
    let rooted = CommitModel { tx: TxModel { root: NodeId::Address(root), ..written.tx }, ..written };
    vstd::set_lib::lemma_len_subset(
        written.writer.free_list.all_pages(),
        c.writer.free_list.all_pages(),
    );
    assert(list_bytes(rooted) <= list_bytes(c));
    lemma_free_list_written_ok(
        rooted,
        page_size,
        transaction_id,
        bytes - node.size() - page_size,
    );
    let (after, _, _) = free_list_written(rooted, page_size, transaction_id)->Ok_0;
    crate::commit_law::lemma_free_list_written_advances(rooted, page_size, transaction_id);
    assert(meta_slot(transaction_id) * 1024 + 40 <= after.image.len());
    assert(meta_written(rooted, page_size, transaction_id) is Ok);
}

} // verus!
