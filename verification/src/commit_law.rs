use crate::commit::{lemma_meta_at_local, lemma_written_meta, META_REGION, pages_for};
use crate::database::{initial_metas, is_initial, opened, Options, pick_meta, WriterModel};
use crate::error::Error;
use crate::free_list::{FreeListModel, lemma_run_pages_push, page_at, run_pages};
use crate::merge::{merge_all, with_node};
use crate::node::{
    branch_entries_size, BranchEntry, leaf_entries_size, LeafEntry, next_dirty, NodeId, NodeModel,
    saturate,
};
use crate::node_codec::{branch_entries_bytes, leaf_entries_bytes, MetaNode, NodeHeader};
use crate::split::split_all;
use crate::store::{free_list_at, meta_at, meta_slot, overwrite, tail};
use crate::tx::TxModel;
use crate::write_model::{
    commit_result, CommitModel, free_list_written, is_lowest_run, lowest_run, meta_written,
    node_written, retired, retired_all, taken, write_children, write_tree,
};
use vstd::prelude::*;

verus! {

/// Whether a writer that holds `writer` may write byte `i` of the file
/// when it takes pages of `page_size` bytes: the byte lies in a page that
/// is free and not taken, or after the used part of the file.
pub open spec fn writable(writer: WriterModel, page_size: int, i: int) -> bool {
    i >= writer.meta().end_address || exists|p: u64|
        #[trigger] writer.free_list.available().contains(p) && p <= i < p + page_size
}

/// Whether a commit that was at `c` may have got to `d` on pages of
/// `page_size` bytes: the file did not shrink; the bytes that changed lie
/// after the two meta records and were writable at `c`; what is writable
/// at `d` was writable at `c`; and the writer holds the meta records of
/// the same transactions and the same free list page.
pub open spec fn advanced(c: CommitModel, d: CommitModel, page_size: int) -> bool {
    &&& d.image.len() >= c.image.len()
    &&& forall|i: int|
        0 <= i < c.image.len() && #[trigger] d.image[i] != c.image[i] ==> i >= META_REGION
            && writable(c.writer, page_size, i)
    &&& forall|i: int| #[trigger]
        writable(d.writer, page_size, i) ==> writable(c.writer, page_size, i)
    &&& d.writer.metas.len() == c.writer.metas.len()
    &&& d.writer.metas[0].transaction_id == c.writer.metas[0].transaction_id
    &&& d.writer.metas[1].transaction_id == c.writer.metas[1].transaction_id
    &&& d.writer.meta().page_size == c.writer.meta().page_size
    &&& d.writer.free_list_header == c.writer.free_list_header
    &&& d.writer.free_list_node_address == c.writer.free_list_node_address
    &&& c.writer.free_list.all_pages().finite() ==> d.writer.free_list.all_pages().finite()
}

/// A commit that got from `c` to `d` and from `d` to `e` got from `c` to
/// `e`.
pub proof fn lemma_advanced_trans(c: CommitModel, d: CommitModel, e: CommitModel, page_size: int)
    requires
        advanced(c, d, page_size),
        advanced(d, e, page_size),
    ensures
        advanced(c, e, page_size),
{
    assert forall|i: int| 0 <= i < c.image.len() && #[trigger] e.image[i] != c.image[i] implies i
        >= META_REGION && writable(c.writer, page_size, i) by {
        if e.image[i] != d.image[i] {
            assert(writable(d.writer, page_size, i));
        } else {
            assert(d.image[i] != c.image[i]);
        }
    }
    assert forall|i: int| #[trigger] writable(e.writer, page_size, i) implies writable(
        c.writer,
        page_size,
        i,
    ) by {
        assert(writable(d.writer, page_size, i));
    }
}

/// The page of a run in which a byte of the run lies.
pub proof fn lemma_page_of(start: int, n: int, page_size: int, i: int) -> (j: int)
    requires
        page_size > 0,
        start <= i < start + n * page_size,
    ensures
        0 <= j < n,
        page_at(start, j, page_size) <= i < page_at(start, j, page_size) + page_size,
{
    let off = i - start;
    let j = off / page_size;
    vstd::arithmetic::div_mod::lemma_fundamental_div_mod(off, page_size);
    vstd::arithmetic::div_mod::lemma_mod_bound(off, page_size);
    assert(page_size * j == j * page_size) by (nonlinear_arith);
    assert(j >= 0) by (nonlinear_arith)
        requires
            off >= 0,
            page_size > 0,
            j == off / page_size,
    ;
    if j >= n {
        assert(j * page_size >= n * page_size) by (nonlinear_arith)
            requires
                j >= n,
                page_size > 0,
        ;
    }
    j
}

/// What holds of pages that were taken: they lie after the two meta
/// records and in the file, every byte of them was writable before, the
/// bytes that the file held before are as they were, and what is writable
/// afterwards was writable before.
pub proof fn lemma_taken(
    writer: WriterModel,
    image: Seq<u8>,
    page_size: u32,
    transaction_id: u64,
    size: u64,
)
    requires
        writer.metas.len() == 2,
        taken(writer, image, page_size, transaction_id, size) is Ok,
    ensures
        ({
            let (after, grown, address) = taken(writer, image, page_size, transaction_id, size)->Ok_0;
            let pages = pages_for(size as int, page_size as int);
            &&& page_size > 0
            &&& size > 0
            &&& address >= META_REGION
            &&& address + pages * page_size <= grown.len()
            &&& pages * page_size >= size
            &&& grown.len() >= image.len()
            &&& forall|i: int| 0 <= i < image.len() ==> #[trigger] grown[i] == image[i]
            &&& forall|i: int|
                address <= i < address + pages * page_size ==> #[trigger] writable(
                    writer,
                    page_size as int,
                    i,
                )
            &&& forall|i: int| #[trigger]
                writable(after, page_size as int, i) ==> writable(writer, page_size as int, i)
            &&& after.metas.len() == writer.metas.len()
            &&& after.metas[0].transaction_id == writer.metas[0].transaction_id
            &&& after.metas[1].transaction_id == writer.metas[1].transaction_id
            &&& after.meta().page_size == writer.meta().page_size
            &&& after.free_list_header == writer.free_list_header
            &&& after.free_list_node_address == writer.free_list_node_address
            &&& after.free_list.pending_free == writer.free_list.pending_free
            &&& after.free_list.free.subset_of(writer.free_list.free)
            &&& after.free_list.all_pages().subset_of(writer.free_list.all_pages())
        }),
{
    let ps = page_size as int;
    let n = pages_for(size as int, ps);
    let list = writer.free_list;
    let (after, grown, address) = taken(writer, image, page_size, transaction_id, size)->Ok_0;
    assert forall|a: u64| after.free_list.all_pages().contains(a) implies list.all_pages().contains(
        a,
    ) by {
        if after.free_list.pending_pages().contains(a) {
            let t = choose|t: u64| #[trigger] after.free_list.bucket(t).contains(a);
            assert(list.bucket(t).contains(a));
        }
    }
    crate::commit::lemma_pages_for(size as int, ps);
    match lowest_run(list.available(), n, ps) {
        Some(start) => {
            assert(is_lowest_run(list.available(), start, n, ps));
            crate::free_list::lemma_page_at_next(start, 0, ps);
            assert(0 <= page_at(start, 0, ps) <= u64::MAX);
            assert(address == start);
            assert forall|i: int| address <= i < address + n * ps implies #[trigger] writable(
                writer,
                ps,
                i,
            ) by {
                let j = lemma_page_of(start, n, ps, i);
                let p = page_at(start, j, ps) as u64;
                assert(list.available().contains(p));
            }
            assert forall|i: int| #[trigger] writable(after, ps, i) implies writable(
                writer,
                ps,
                i,
            ) by {
                if i < after.meta().end_address {
                    let p = choose|p: u64|
                        #[trigger] after.free_list.available().contains(p) && p <= i < p + ps;
                    assert(list.available().contains(p));
                }
            }
        },
        None => {
            let end = address + n * ps;
            assert(after.metas.len() == writer.metas.len());
            assert(after.meta().end_address == end);
            assert forall|i: int| #[trigger] writable(after, ps, i) implies writable(
                writer,
                ps,
                i,
            ) by {
                if i < after.meta().end_address {
                    let p = choose|p: u64|
                        #[trigger] after.free_list.available().contains(p) && p <= i < p + ps;
                    assert(list.available().contains(p));
                }
            }
        },
    }
}

/// Branch entries are written as the bytes they are counted as.
pub proof fn lemma_branch_bytes_len(es: Seq<BranchEntry>)
    ensures
        branch_entries_bytes(es).len() == branch_entries_size(es),
    decreases es.len(),
{
    if es.len() > 0 {
        lemma_branch_bytes_len(es.drop_last());
        crate::format::lemma_u64_round_trip(es.last().node_id->Address_0);
        crate::format::lemma_u16_round_trip(es.last().key.len() as u16);
    }
}

/// Leaf entries are written as the bytes they are counted as.
pub proof fn lemma_leaf_bytes_len(es: Seq<LeafEntry>)
    ensures
        leaf_entries_bytes(es).len() == leaf_entries_size(es),
    decreases es.len(),
{
    if es.len() > 0 {
        lemma_leaf_bytes_len(es.drop_last());
        crate::format::lemma_u16_round_trip(es.last().key.len() as u16);
        crate::format::lemma_u32_round_trip(es.last().value.len() as u32);
    }
}

/// A node is written as the bytes that it is counted as.
pub proof fn lemma_node_bytes_len(node: NodeModel, page_size: nat)
    ensures
        node.bytes(page_size).len() == node.size(),
{
    let h = node.header(page_size);
    crate::format::lemma_u16_round_trip(h.flags);
    crate::format::lemma_u64_round_trip(h.internal_nodes_len);
    crate::format::lemma_u64_round_trip(h.overflow_len);
    match node {
        NodeModel::Branch(es) => lemma_branch_bytes_len(es),
        NodeModel::Leaf(es) => lemma_leaf_bytes_len(es),
    }
}

/// Writing into pages that were taken for the bytes is a step of a
/// commit.
pub proof fn lemma_write_advances(
    c: CommitModel,
    page_size: u32,
    transaction_id: u64,
    size: u64,
    bytes: Seq<u8>,
)
    requires
        c.writer.metas.len() == 2,
        taken(c.writer, c.image, page_size, transaction_id, size) is Ok,
        bytes.len() <= size,
    ensures
        ({
            let (writer, grown, address) = taken(
                c.writer,
                c.image,
                page_size,
                transaction_id,
                size,
            )->Ok_0;
            &&& address >= META_REGION
            &&& address + bytes.len() <= grown.len()
            &&& writer.metas.len() == 2
            &&& advanced(
                c,
                CommitModel { tx: c.tx, writer, image: overwrite(grown, address as int, bytes) },
                page_size as int,
            )
        }),
{
    lemma_taken(c.writer, c.image, page_size, transaction_id, size);
    let (writer, grown, address) = taken(c.writer, c.image, page_size, transaction_id, size)->Ok_0;
    let d = CommitModel { tx: c.tx, writer, image: overwrite(grown, address as int, bytes) };
    let ps = page_size as int;
    if c.writer.free_list.all_pages().finite() {
        vstd::set_lib::lemma_set_subset_finite(
            c.writer.free_list.all_pages(),
            writer.free_list.all_pages(),
        );
    }
    assert forall|i: int| 0 <= i < c.image.len() && #[trigger] d.image[i] != c.image[i] implies i
        >= META_REGION && writable(c.writer, ps, i) by {
        assert(grown[i] == c.image[i]);
        if i < address || i >= address + bytes.len() {
            assert(d.image[i] == grown[i]);
        } else {
            assert(writable(c.writer, ps, i));
        }
    }
}

/// Writing a staged node to pages of its own is a step of a commit, and
/// leaves the staged nodes as they are.
pub proof fn lemma_node_written_advances(
    c: CommitModel,
    page_size: u32,
    transaction_id: u64,
    node_id: u64,
)
    requires
        c.writer.metas.len() == 2,
        node_written(c, page_size, transaction_id, node_id) is Ok,
    ensures
        ({
            let (d, address, _) = node_written(c, page_size, transaction_id, node_id)->Ok_0;
            &&& advanced(c, d, page_size as int)
            &&& d.writer.metas.len() == 2
            &&& d.tx == c.tx
            &&& address >= META_REGION
        }),
{
    let node = c.tx.staging.nodes[node_id];
    lemma_node_bytes_len(node, page_size as nat);
    lemma_write_advances(
        c,
        page_size,
        transaction_id,
        saturate(node.size()),
        node.bytes(page_size as nat),
    );
}

/// Writing the staged children of a node and then the node is a step of a
/// commit.
pub proof fn lemma_write_children_advances(
    c: CommitModel,
    page_size: u32,
    transaction_id: u64,
    node_id: u64,
    from: int,
    depth: nat,
    measure: nat,
)
    requires
        c.writer.metas.len() == 2,
        write_children(c, page_size, transaction_id, node_id, from, depth, measure) is Ok,
    ensures
        ({
            let (d, address, _) = write_children(
                c,
                page_size,
                transaction_id,
                node_id,
                from,
                depth,
                measure,
            )->Ok_0;
            &&& advanced(c, d, page_size as int)
            &&& d.writer.metas.len() == 2
            &&& d.tx.root == c.tx.root
            &&& d.tx.pending == c.tx.pending
            &&& address >= META_REGION
        }),
    decreases depth, 0nat, measure,
{
    match next_dirty(c.tx.staging.nodes[node_id], from) {
        None => {
            lemma_node_written_advances(c, page_size, transaction_id, node_id);
        },
        Some((child, index)) => {
            lemma_write_tree_advances(c, page_size, transaction_id, child, (depth - 1) as nat);
            let (after, address, key) = write_tree(
                c,
                page_size,
                transaction_id,
                child,
                (depth - 1) as nat,
            )->Ok_0;
            let es = after.tx.staging.nodes[node_id]->Branch_0;
            let left = es.len() - (index + 1);
            let next = CommitModel {
                tx: with_node(
                    after.tx,
                    node_id,
                    NodeModel::Branch(
                        es.update(index, BranchEntry { key, node_id: NodeId::Address(address) }),
                    ),
                ),
                ..after
            };
            lemma_write_children_advances(
                next,
                page_size,
                transaction_id,
                node_id,
                index + 1,
                depth,
                left as nat,
            );
            let (d, _, _) = write_children(
                next,
                page_size,
                transaction_id,
                node_id,
                index + 1,
                depth,
                left as nat,
            )->Ok_0;
            assert(advanced(c, next, page_size as int));
            lemma_advanced_trans(c, next, d, page_size as int);
        },
    }
}

/// Writing a staged tree is a step of a commit.
pub proof fn lemma_write_tree_advances(
    c: CommitModel,
    page_size: u32,
    transaction_id: u64,
    node_id: u64,
    depth: nat,
)
    requires
        c.writer.metas.len() == 2,
        write_tree(c, page_size, transaction_id, node_id, depth) is Ok,
    ensures
        ({
            let (d, address, _) = write_tree(c, page_size, transaction_id, node_id, depth)->Ok_0;
            &&& advanced(c, d, page_size as int)
            &&& d.writer.metas.len() == 2
            &&& d.tx.root == c.tx.root
            &&& d.tx.pending == c.tx.pending
            &&& address >= META_REGION
        }),
    decreases depth, 1nat, 0nat,
{
    lemma_write_children_advances(
        c,
        page_size,
        transaction_id,
        node_id,
        0,
        depth,
        c.tx.staging.nodes[node_id].len(),
    );
}

/// A run of pages is a finite set of addresses.
pub proof fn lemma_run_pages_finite(start: int, n: int, page_size: int)
    ensures
        run_pages(start, n, page_size).finite(),
    decreases n,
{
    if n <= 0 {
        assert(run_pages(start, n, page_size) =~= Set::<u64>::empty());
    } else {
        lemma_run_pages_finite(start, n - 1, page_size);
        let last = page_at(start, n - 1, page_size);
        if 0 <= last <= u64::MAX {
            lemma_run_pages_push(start, n - 1, page_size);
        } else {
            assert forall|a: u64| run_pages(start, n, page_size).contains(a) implies run_pages(
                start,
                n - 1,
                page_size,
            ).contains(a) by {
                let j = choose|j: int| 0 <= j < n && a == #[trigger] page_at(start, j, page_size);
                assert(j < n - 1);
            }
            assert forall|a: u64| run_pages(start, n - 1, page_size).contains(a) implies run_pages(
                start,
                n,
                page_size,
            ).contains(a) by {
                let j = choose|j: int|
                    0 <= j < n - 1 && a == #[trigger] page_at(start, j, page_size);
                assert(0 <= j < n);
            }
            assert(run_pages(start, n, page_size) =~= run_pages(start, n - 1, page_size));
        }
    }
}

/// Retiring pages adds them to the pages that the free list holds, and
/// changes nothing about the pages that can be handed out.
pub proof fn lemma_retired(
    list: FreeListModel,
    transaction_id: u64,
    address: u64,
    overflow: u64,
    page_size: int,
)
    requires
        list.all_pages().finite(),
        retired(list, transaction_id, address, overflow, page_size) is Ok,
    ensures
        ({
            let after = retired(list, transaction_id, address, overflow, page_size)->Ok_0;
            &&& after.all_pages() == list.all_pages().union(
                run_pages(address as int, overflow + 1, page_size),
            )
            &&& after.all_pages().finite()
            &&& after.free == list.free
            &&& after.pending_allocated == list.pending_allocated
            &&& after.allocated_by == list.allocated_by
        }),
{
    let after = retired(list, transaction_id, address, overflow, page_size)->Ok_0;
    let run = run_pages(address as int, overflow + 1, page_size);
    lemma_run_pages_finite(address as int, overflow + 1, page_size);
    assert forall|a: u64| after.all_pages().contains(a) <==> list.all_pages().union(run).contains(
        a,
    ) by {
        if after.pending_pages().contains(a) {
            let t = choose|t: u64| #[trigger] after.bucket(t).contains(a);
            if t == transaction_id {
                if !run.contains(a) {
                    assert(list.bucket(t).contains(a));
                }
            } else {
                assert(list.bucket(t).contains(a));
            }
        }
        if list.pending_pages().contains(a) {
            let t = choose|t: u64| #[trigger] list.bucket(t).contains(a);
            assert(after.bucket(t).contains(a));
        }
        if run.contains(a) {
            assert(after.bucket(transaction_id).contains(a));
        }
    }
    assert(after.all_pages() =~= list.all_pages().union(run));
}

/// Retiring the pages that a transaction replaced leaves the free list
/// with finitely many pages, and changes nothing about the pages that can
/// be handed out.
pub proof fn lemma_retired_all(
    list: FreeListModel,
    transaction_id: u64,
    pending: Seq<(u64, NodeHeader)>,
    page_size: int,
)
    requires
        list.all_pages().finite(),
        retired_all(list, transaction_id, pending, page_size) is Ok,
    ensures
        ({
            let after = retired_all(list, transaction_id, pending, page_size)->Ok_0;
            &&& after.all_pages().finite()
            &&& after.free == list.free
            &&& after.pending_allocated == list.pending_allocated
            &&& after.allocated_by == list.allocated_by
        }),
    decreases pending.len(),
{
    if pending.len() > 0 {
        let (address, header) = pending.last();
        lemma_retired(list, transaction_id, address, header.overflow_len, page_size);
        let next = retired(list, transaction_id, address, header.overflow_len, page_size)->Ok_0;
        lemma_retired_all(next, transaction_id, pending.drop_last(), page_size);
    }
}

/// Writing the free list is a step of a commit; the free list is read
/// back from where it was written, and no page is left to be retired.
pub proof fn lemma_free_list_written_advances(c: CommitModel, page_size: u32, transaction_id: u64)
    requires
        c.writer.metas.len() == 2,
        c.writer.free_list.all_pages().finite(),
        free_list_written(c, page_size, transaction_id) is Ok,
    ensures
        ({
            let (d, address, header) = free_list_written(c, page_size, transaction_id)->Ok_0;
            &&& advanced(c, d, page_size as int)
            &&& d.writer.metas.len() == 2
            &&& d.writer.meta().end_address >= c.writer.meta().end_address
            &&& d.tx == (TxModel { pending: Seq::empty(), ..c.tx })
            &&& address >= META_REGION
            &&& free_list_at(d.image, address as int) == Ok::<(NodeHeader, Seq<u64>), Error>(
                (header, d.writer.free_list.image()),
            )
            &&& d.writer.free_list.all_pages().finite()
        }),
{
    let ps = page_size as int;
    let list0 = c.writer.free_list;
    lemma_retired(
        list0,
        transaction_id,
        c.writer.free_list_node_address,
        c.writer.free_list_header.overflow_len,
        ps,
    );
    let first = retired(
        list0,
        transaction_id,
        c.writer.free_list_node_address,
        c.writer.free_list_header.overflow_len,
        ps,
    )->Ok_0;
    lemma_retired_all(first, transaction_id, c.tx.pending, ps);
    let list = retired_all(first, transaction_id, c.tx.pending, ps)->Ok_0;
    let pages = list.all_pages().len();
    let size = (18 + 8 * pages) as u64;
    let c1 = CommitModel { tx: c.tx, writer: WriterModel { free_list: list, ..c.writer }, image: c.image };
    assert(advanced(c, c1, ps)) by {
        assert(c1.writer.free_list.available() == c.writer.free_list.available());
        assert(c1.writer.meta() == c.writer.meta());
        assert forall|i: int| #[trigger] writable(c1.writer, ps, i) implies writable(
            c.writer,
            ps,
            i,
        ) by {
            if i < c1.writer.meta().end_address {
                let p = choose|p: u64|
                    #[trigger] c1.writer.free_list.available().contains(p) && p <= i < p + ps;
                assert(c.writer.free_list.available().contains(p));
            }
        }
    }
    lemma_taken(c1.writer, c1.image, page_size, transaction_id, size);
    let (writer, grown, address) = taken(c1.writer, c1.image, page_size, transaction_id, size)->Ok_0;
    let after = writer.free_list;
    assert(after.all_pages().subset_of(list.all_pages())) by {
        assert forall|a: u64| after.all_pages().contains(a) implies list.all_pages().contains(a) by {
            if after.pending_pages().contains(a) {
                let t = choose|t: u64| #[trigger] after.bucket(t).contains(a);
                assert(list.bucket(t).contains(a));
            }
        }
    }
    vstd::set_lib::lemma_len_subset(after.all_pages(), list.all_pages());
    crate::ordered::lemma_sorted_seq_len(after.all_pages());
    let bytes = after.bytes(ps as nat);
    let h = after.header(ps as nat);
    crate::format::lemma_u16_round_trip(h.flags);
    crate::format::lemma_u64_round_trip(h.internal_nodes_len);
    crate::format::lemma_u64_round_trip(h.overflow_len);
    crate::format::lemma_u64s_len(after.image());
    assert(bytes.len() == 18 + 8 * after.image().len());
    lemma_write_advances(c1, page_size, transaction_id, size, bytes);
    let d = CommitModel {
        tx: TxModel { pending: Seq::empty(), ..c.tx },
        writer,
        image: overwrite(grown, address as int, bytes),
    };
    let mid = CommitModel { tx: c.tx, writer, image: overwrite(grown, address as int, bytes) };
    lemma_advanced_trans(c, c1, mid, ps);
    crate::commit::lemma_written_free_list(grown, address as int, after, ps as nat);
}

/// Whether a writer that holds `writer` goes by the file `image`: the
/// file holds the two slots; the record in a slot of the file is of no
/// later transaction than the record that the writer holds for the slot;
/// and the free list of the writer holds finitely many pages.
pub open spec fn goes_by(writer: WriterModel, image: Seq<u8>) -> bool {
    &&& writer.metas.len() == 2
    &&& image.len() >= META_REGION
    &&& meta_at(image, 0) matches Ok(m) ==> m.transaction_id <= writer.metas[0].transaction_id
    &&& meta_at(image, 1) matches Ok(m) ==> m.transaction_id <= writer.metas[1].transaction_id
    &&& writer.free_list.all_pages().finite()
}

/// A writer that holds what opening a file found goes by the file: the
/// record that was picked for both slots, and the addresses of the free
/// list as its free pages.
pub proof fn lemma_open_goes_by(writer: WriterModel, image: Seq<u8>, options: Options)
    requires
        image.len() >= META_REGION,
        opened(image, options) matches Ok((meta, _, addresses)) && writer.metas.len() == 2
            && writer.metas[0] == meta && writer.metas[1] == meta && writer.free_list.free
            == addresses.to_set(),
        writer.free_list.pending_free == Map::<u64, Set<u64>>::empty(),
    ensures
        goes_by(writer, image),
{
    let (_, _, addresses) = opened(image, options)->Ok_0;
    vstd::seq_lib::seq_to_set_is_finite(addresses);
    assert(writer.free_list.all_pages() =~= addresses.to_set()) by {
        assert forall|a: u64| !writer.free_list.pending_pages().contains(a) by {
            if writer.free_list.pending_pages().contains(a) {
                let t = choose|t: u64| #[trigger] writer.free_list.bucket(t).contains(a);
                assert(false);
            }
        }
    }
}

/// The writer of a new database goes by its file.
pub proof fn lemma_new_goes_by(writer: WriterModel, image: Seq<u8>, page_size: u32)
    requires
        page_size > 0,
        is_initial(image, page_size),
        writer.metas.len() == 2,
        writer.metas[0] == initial_metas(page_size).0,
        writer.metas[1] == initial_metas(page_size).1,
        writer.free_list.free == Set::<u64>::empty(),
        writer.free_list.pending_free == Map::<u64, Set<u64>>::empty(),
    ensures
        goes_by(writer, image),
{
    crate::commit::lemma_pages_for(2048, page_size as int);
    assert(writer.free_list.all_pages() =~= Set::<u64>::empty()) by {
        assert forall|a: u64| !writer.free_list.pending_pages().contains(a) by {
            if writer.free_list.pending_pages().contains(a) {
                let t = choose|t: u64| #[trigger] writer.free_list.bucket(t).contains(a);
                assert(false);
            }
        }
    }
}

/// Whether the bytes of the file at `c` that are others at `d` all lie
/// in pages that were writable at `c`, or in the meta record of
/// transaction `transaction_id`.
pub open spec fn wrote_only(c: CommitModel, d: CommitModel, page_size: int, transaction_id: u64) -> bool {
    forall|i: int|
        0 <= i < c.image.len() && #[trigger] d.image[i] != c.image[i] ==> (i >= META_REGION
            && writable(c.writer, page_size, i)) || meta_slot(transaction_id) * 1024 <= i
            < meta_slot(transaction_id) * 1024 + 40
}

/// Whether a file that holds `image` opens at the commit that `writer`
/// made last: its meta record is the one that is picked from the two
/// slots, and the free list that the record names is the one of the
/// writer.
pub open spec fn opens_at(writer: WriterModel, image: Seq<u8>) -> bool {
    &&& pick_meta(meta_at(image, 0), meta_at(image, 1)) == Ok::<MetaNode, Error>(writer.meta())
    &&& writer.meta().free_list_node == writer.free_list_node_address
    &&& free_list_at(image, writer.free_list_node_address as int) == Ok::<
        (NodeHeader, Seq<u64>),
        Error,
    >((writer.free_list_header, writer.free_list.image()))
}

/// A step of a commit keeps the two meta records of the file.
pub proof fn lemma_advanced_keeps_metas(c: CommitModel, d: CommitModel, page_size: int)
    requires
        advanced(c, d, page_size),
        c.image.len() >= META_REGION,
    ensures
        meta_at(d.image, 0) == meta_at(c.image, 0),
        meta_at(d.image, 1) == meta_at(c.image, 1),
{
    assert forall|i: int| 0 <= i < META_REGION implies c.image[i] == d.image[i] by {
        if d.image[i] != c.image[i] {
            assert(i >= META_REGION);
        }
    }
    lemma_meta_at_local(c.image, d.image, 0);
    lemma_meta_at_local(c.image, d.image, 1);
}

/// Writing the free list and the meta record of a transaction changes
/// only bytes that were writable and the meta record of the transaction.
/// The file opens at the transaction afterwards, with the root of the
/// transaction as the root of the tree.
pub proof fn lemma_meta_written(c: CommitModel, page_size: u32, transaction_id: u64)
    requires
        goes_by(c.writer, c.image),
        meta_written(c, page_size, transaction_id) is Ok,
    ensures
        ({
            let d = meta_written(c, page_size, transaction_id)->Ok_0;
            &&& wrote_only(c, d, page_size as int, transaction_id)
            &&& goes_by(d.writer, d.image)
            &&& opens_at(d.writer, d.image)
            &&& d.writer.meta().transaction_id == transaction_id
            &&& c.tx.root == NodeId::Address(d.writer.meta().root_node)
            &&& d.writer.meta().page_size == c.writer.meta().page_size
            &&& d.writer.free_list.pending_allocated == Set::<u64>::empty()
        }),
{
    let ps = page_size as int;
    let d = meta_written(c, page_size, transaction_id)->Ok_0;
    lemma_free_list_written_advances(c, page_size, transaction_id);
    let (after, address, header) = free_list_written(c, page_size, transaction_id)->Ok_0;
    lemma_advanced_keeps_metas(c, after, ps);
    let slot = meta_slot(transaction_id);
    let meta = d.writer.metas[slot];
    assert(meta.transaction_id == transaction_id);
    lemma_written_meta(after.image, meta);
    crate::node_codec::lemma_meta_len(meta);
    assert forall|i: int| (1 - slot) * 1024 <= i < (1 - slot) * 1024 + 40 implies after.image[i]
        == d.image[i] by {}
    lemma_meta_at_local(after.image, d.image, 1 - slot);
    assert(tail(d.image, address as int) =~= tail(after.image, address as int));
    assert(d.writer.free_list.all_pages() =~= after.writer.free_list.all_pages()) by {
        assert forall|a: u64|
            d.writer.free_list.pending_pages().contains(a)
                <==> after.writer.free_list.pending_pages().contains(a) by {
            if d.writer.free_list.pending_pages().contains(a) {
                let t = choose|t: u64| #[trigger] d.writer.free_list.bucket(t).contains(a);
                assert(after.writer.free_list.bucket(t).contains(a));
            }
            if after.writer.free_list.pending_pages().contains(a) {
                let t = choose|t: u64| #[trigger] after.writer.free_list.bucket(t).contains(a);
                assert(d.writer.free_list.bucket(t).contains(a));
            }
        }
    }
    assert forall|i: int| 0 <= i < c.image.len() && #[trigger] d.image[i] != c.image[i] implies (i
        >= META_REGION && writable(c.writer, ps, i)) || slot * 1024 <= i < slot * 1024 + 40 by {
        if !(slot * 1024 <= i < slot * 1024 + 40) {
            assert(d.image[i] == after.image[i]);
        }
    }
}

/// A commit changes only bytes of the file that were writable, which are
/// bytes of pages that were free and not taken and bytes after the used
/// part of the file, and the meta record of its transaction. Where the
/// root of the rebalanced tree is staged, the file opens at the
/// transaction afterwards; where it is in the file, nothing is written.
pub proof fn lemma_commit_writes(c: CommitModel, page_size: u32, transaction_id: u64)
    requires
        goes_by(c.writer, c.image),
        commit_result(c, page_size, transaction_id) is Ok,
    ensures
        ({
            let d = commit_result(c, page_size, transaction_id)->Ok_0;
            &&& wrote_only(c, d, page_size as int, transaction_id)
            &&& goes_by(d.writer, d.image)
            &&& split_all(merge_all(c.tx, c.image, page_size)->Ok_0, page_size, 64)->Ok_0.root is Address
                ==> d.image == c.image && d.writer == c.writer
            &&& split_all(merge_all(c.tx, c.image, page_size)->Ok_0, page_size, 64)->Ok_0.root is Id
                ==> opens_at(d.writer, d.image) && d.writer.meta().transaction_id
                == transaction_id && d.writer.meta().page_size == c.writer.meta().page_size
                && d.writer.free_list.pending_allocated == Set::<u64>::empty()
        }),
{
    let ps = page_size as int;
    let d = commit_result(c, page_size, transaction_id)->Ok_0;
    let merged = merge_all(c.tx, c.image, page_size)->Ok_0;
    let balanced = split_all(merged, page_size, 64)->Ok_0;
    let begun = CommitModel { tx: balanced, ..c };
    match balanced.root {
        NodeId::Address(_) => {},
        NodeId::Id(id) => {
            lemma_write_tree_advances(begun, page_size, transaction_id, id, 64);
            let (written, root, _) = write_tree(begun, page_size, transaction_id, id, 64)->Ok_0;
            let rooted = CommitModel {
                tx: TxModel { root: NodeId::Address(root), ..written.tx },
                ..written
            };
            lemma_advanced_keeps_metas(begun, written, ps);
            lemma_meta_written(rooted, page_size, transaction_id);
            assert forall|i: int| 0 <= i < c.image.len() && #[trigger] d.image[i]
                != c.image[i] implies (i >= META_REGION && writable(c.writer, ps, i))
                || meta_slot(transaction_id) * 1024 <= i < meta_slot(transaction_id) * 1024
                + 40 by {
                if d.image[i] != written.image[i] {
                    if i >= META_REGION && writable(rooted.writer, ps, i) {
                        assert(writable(begun.writer, ps, i));
                    }
                } else {
                    assert(written.image[i] != begun.image[i]);
                }
            }
        },
    }
}

/// The pages that a transaction takes are put down as allocated by it,
/// and are in no bucket of retired pages where no free page was.
pub proof fn lemma_taken_on_record(
    writer: WriterModel,
    image: Seq<u8>,
    page_size: u32,
    transaction_id: u64,
    size: u64,
    page: u64,
)
    requires
        taken(writer, image, page_size, transaction_id, size) is Ok,
        run_pages(
            taken(writer, image, page_size, transaction_id, size)->Ok_0.2 as int,
            pages_for(size as int, page_size as int),
            page_size as int,
        ).contains(page),
    ensures
        taken(writer, image, page_size, transaction_id, size)->Ok_0.0.free_list.allocator(page)
            == transaction_id,
        taken(writer, image, page_size, transaction_id, size)->Ok_0.0.free_list.pending_free
            == writer.free_list.pending_free,
{
    let ps = page_size as int;
    let n = pages_for(size as int, ps);
    match lowest_run(writer.free_list.available(), n, ps) {
        Some(start) => {
            assert(is_lowest_run(writer.free_list.available(), start, n, ps));
            crate::free_list::lemma_page_at_next(start, 0, ps);
            crate::commit::lemma_pages_for(size as int, ps);
            assert(0 <= page_at(start, 0, ps) <= u64::MAX);
        },
        None => {},
    }
}

} // verus!
