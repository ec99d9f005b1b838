use crate::commit::{grown_size, META_REGION, pages_for};
use crate::database::WriterModel;
use crate::error::Error;
use crate::free_list::{FreeListModel, run_free, run_pages};
use crate::merge::{merge_all, with_node};
use crate::node::{BranchEntry, next_dirty, NodeId, NodeModel, saturate};
use crate::node_codec::{meta_bytes, MetaNode, NodeHeader};
use crate::split::split_all;
use crate::store::{meta_slot, overwrite};
use crate::tx::TxModel;
use vstd::prelude::*;

verus! {

/// Whether `start` is the lowest address from which `n` pages of
/// `page_size` bytes are all in `avail`.
pub open spec fn is_lowest_run(avail: Set<u64>, start: int, n: int, page_size: int) -> bool {
    &&& run_free(avail, start, n, page_size)
    &&& forall|b: int| b < start ==> !run_free(avail, b, n, page_size)
}

/// The lowest address from which `n` pages of `page_size` bytes are all
/// in `avail`, where there is one.
pub open spec fn lowest_run(avail: Set<u64>, n: int, page_size: int) -> Option<int> {
    if exists|start: int| is_lowest_run(avail, start, n, page_size) {
        Some(choose|start: int| is_lowest_run(avail, start, n, page_size))
    } else {
        None
    }
}

/// There is one lowest run at most.
pub proof fn lemma_lowest_run(avail: Set<u64>, start: int, n: int, page_size: int)
    requires
        is_lowest_run(avail, start, n, page_size),
    ensures
        lowest_run(avail, n, page_size) == Some(start),
{
    let found = choose|b: int| is_lowest_run(avail, b, n, page_size);
    assert(is_lowest_run(avail, found, n, page_size));
    if found < start {
        assert(!run_free(avail, found, n, page_size));
    }
    if start < found {
        assert(!run_free(avail, start, n, page_size));
    }
}

/// Where no run is free there is no lowest one.
pub proof fn lemma_no_run(avail: Set<u64>, n: int, page_size: int)
    requires
        forall|b: int| !run_free(avail, b, n, page_size),
    ensures
        lowest_run(avail, n, page_size) == None::<int>,
{
}

/// The record of who allocated which page, with the pages `run` put down
/// as allocated by transaction `transaction_id`.
pub open spec fn recorded(allocated_by: Map<u64, u64>, run: Set<u64>, transaction_id: u64) -> Map<
    u64,
    u64,
> {
    Map::new(
        |a: u64| run.contains(a) || allocated_by.contains_key(a),
        |a: u64|
            if run.contains(a) {
                transaction_id
            } else {
                allocated_by[a]
            },
    )
}

/// A file of `len` bytes that begins with `image`, or `image` where it is
/// that long already: the bytes that were added are 0.
pub open spec fn extended(image: Seq<u8>, len: int) -> Seq<u8> {
    if len <= image.len() {
        image
    } else {
        image + Seq::new((len - image.len()) as nat, |i: int| 0u8)
    }
}

/// What taking pages for `size` bytes does to the writer and the file,
/// and the address of the first page. The lowest run of free pages is
/// taken where there is one; else the pages follow the used part of the
/// file, and the file grows where it is too short for them. The pages are
/// put down as allocated by `transaction_id`.
pub open spec fn taken(
    writer: WriterModel,
    image: Seq<u8>,
    page_size: u32,
    transaction_id: u64,
    size: u64,
) -> Result<(WriterModel, Seq<u8>, u64), Error> {
    let ps = page_size as int;
    let n = pages_for(size as int, ps);
    let list = writer.free_list;
    if page_size == 0 || size == 0 {
        Err(Error::InvalidArgument)
    } else {
        match lowest_run(list.available(), n, ps) {
            Some(start) => {
                if start < META_REGION || start + n * ps > image.len() {
                    Err(Error::Corruption)
                } else {
                    let run = run_pages(start, n, ps);
                    Ok(
                        (
                            WriterModel {
                                free_list: FreeListModel {
                                    free: list.free.difference(run),
                                    pending_allocated: list.pending_allocated.union(run),
                                    allocated_by: recorded(list.allocated_by, run, transaction_id),
                                    ..list
                                },
                                ..writer
                            },
                            image,
                            start as u64,
                        ),
                    )
                }
            },
            None => {
                let start = writer.meta().end_address;
                let end = start + n * ps;
                if end > u64::MAX {
                    Err(Error::Io)
                } else if start < META_REGION {
                    Err(Error::Corruption)
                } else if end > image.len() && grown_size(image.len() as int, end, ps) > usize::MAX {
                    Err(Error::Io)
                } else {
                    Ok(
                        (
                            WriterModel {
                                free_list: FreeListModel {
                                    allocated_by: recorded(
                                        list.allocated_by,
                                        run_pages(start as int, n, ps),
                                        transaction_id,
                                    ),
                                    ..list
                                },
                                ..writer.with_end(end as u64)
                            },
                            if end > image.len() {
                                extended(image, grown_size(image.len() as int, end, ps))
                            } else {
                                image
                            },
                            start,
                        ),
                    )
                }
            },
        }
    }
}

/// A commit under way: the transaction, what the writer holds, and the
/// file.
pub struct CommitModel {
    pub tx: TxModel,
    pub writer: WriterModel,
    pub image: Seq<u8>,
}

/// The first key of a node, or no bytes where it holds no entry.
pub open spec fn first_key(node: NodeModel) -> Seq<u8> {
    if node.len() == 0 {
        Seq::empty()
    } else {
        node.key_at(0)
    }
}

/// What writing the staged node `node_id` to pages of its own does, with
/// the address of its first page and its first key: pages are taken for
/// its size, and its bytes are written there. A branch without entries is
/// not written.
pub open spec fn node_written(c: CommitModel, page_size: u32, transaction_id: u64, node_id: u64) -> Result<
    (CommitModel, u64, Seq<u8>),
    Error,
> {
    if !c.tx.staging.nodes.contains_key(node_id) {
        Err(Error::WouldCorrupt)
    } else if c.tx.staging.nodes[node_id] is Branch && c.tx.staging.nodes[node_id].len() == 0 {
        Err(Error::WouldCorrupt)
    } else {
        let node = c.tx.staging.nodes[node_id];
        match taken(c.writer, c.image, page_size, transaction_id, saturate(node.size())) {
            Err(e) => Err(e),
            Ok((writer, image, address)) => {
                let bytes = node.bytes(page_size as nat);
                if !node.serializable() {
                    Err(Error::InvalidArgument)
                } else if address + bytes.len() > image.len() {
                    Err(Error::Io)
                } else {
                    Ok(
                        (
                            CommitModel {
                                tx: c.tx,
                                writer,
                                image: overwrite(image, address as int, bytes),
                            },
                            address,
                            first_key(node),
                        ),
                    )
                }
            },
        }
    }
}

/// What writing the staged children of `node_id` from entry `from` on,
/// and then the node itself, does: each staged child is written with the
/// tree under it, and its entry is given the address of its page and its
/// first key. A child without entries is refused. `measure` bounds the
/// entries that are still to be gone through.
pub open spec fn write_children(
    c: CommitModel,
    page_size: u32,
    transaction_id: u64,
    node_id: u64,
    from: int,
    depth: nat,
    measure: nat,
) -> Result<(CommitModel, u64, Seq<u8>), Error>
    decreases depth, 0nat, measure,
{
    if !c.tx.staging.nodes.contains_key(node_id) {
        Err(Error::WouldCorrupt)
    } else {
        match next_dirty(c.tx.staging.nodes[node_id], from) {
            None => node_written(c, page_size, transaction_id, node_id),
            Some((child, index)) => {
                if depth == 0 {
                    Err(Error::WouldCorrupt)
                } else {
                    match write_tree(c, page_size, transaction_id, child, (depth - 1) as nat) {
                        Err(e) => Err(e),
                        Ok((after, address, key)) => {
                            if !after.tx.staging.nodes.contains_key(child)
                                || after.tx.staging.nodes[child].len() == 0
                                || !after.tx.staging.nodes.contains_key(node_id) {
                                Err(Error::WouldCorrupt)
                            } else {
                                match after.tx.staging.nodes[node_id] {
                                    NodeModel::Leaf(_) => Err(Error::WouldCorrupt),
                                    NodeModel::Branch(es) => {
                                        let left = es.len() - (index + 1);
                                        if !(0 <= index < es.len() && es[index].node_id
                                            == NodeId::Id(child)) || left >= measure {
                                            Err(Error::WouldCorrupt)
                                        } else {
                                            write_children(
                                                CommitModel {
                                                    tx: with_node(
                                                        after.tx,
                                                        node_id,
                                                        NodeModel::Branch(
                                                            es.update(
                                                                index,
                                                                BranchEntry {
                                                                    key,
                                                                    node_id: NodeId::Address(
                                                                        address,
                                                                    ),
                                                                },
                                                            ),
                                                        ),
                                                    ),
                                                    ..after
                                                },
                                                page_size,
                                                transaction_id,
                                                node_id,
                                                index + 1,
                                                depth,
                                                left as nat,
                                            )
                                        }
                                    },
                                }
                            }
                        },
                    }
                }
            },
        }
    }
}

/// What writing the staged tree under `node_id` does, the children before
/// their parents, with the address of the page of `node_id` and the first
/// key under it. At most `depth` levels are gone down.
pub open spec fn write_tree(
    c: CommitModel,
    page_size: u32,
    transaction_id: u64,
    node_id: u64,
    depth: nat,
) -> Result<(CommitModel, u64, Seq<u8>), Error>
    decreases depth, 1nat, 0nat,
{
    if !c.tx.staging.nodes.contains_key(node_id) {
        Err(Error::WouldCorrupt)
    } else {
        write_children(
            c,
            page_size,
            transaction_id,
            node_id,
            0,
            depth,
            c.tx.staging.nodes[node_id].len(),
        )
    }
}

/// The free list after the page at `address` and the `overflow` pages
/// after it were retired under `transaction_id`. Pages whose addresses do
/// not fit 64 bits are refused.
pub open spec fn retired(
    list: FreeListModel,
    transaction_id: u64,
    address: u64,
    overflow: u64,
    page_size: int,
) -> Result<FreeListModel, Error> {
    if address + (overflow + 1) * page_size > u64::MAX {
        Err(Error::Corruption)
    } else {
        Ok(
            FreeListModel {
                pending_free: list.pending_free.insert(
                    transaction_id,
                    list.bucket(transaction_id).union(
                        run_pages(address as int, overflow + 1, page_size),
                    ),
                ),
                ..list
            },
        )
    }
}

/// The free list after the pages of `pending` were retired under
/// `transaction_id`, from the last to the first.
pub open spec fn retired_all(
    list: FreeListModel,
    transaction_id: u64,
    pending: Seq<(u64, NodeHeader)>,
    page_size: int,
) -> Result<FreeListModel, Error>
    decreases pending.len(),
{
    if pending.len() == 0 {
        Ok(list)
    } else {
        match retired(
            list,
            transaction_id,
            pending.last().0,
            pending.last().1.overflow_len,
            page_size,
        ) {
            Err(e) => Err(e),
            Ok(next) => retired_all(next, transaction_id, pending.drop_last(), page_size),
        }
    }
}

/// What writing the free list does, with the address of its first page
/// and the header it is written with: the pages of the free list before
/// and the pages that the transaction replaced are retired under the
/// transaction, pages are taken for the addresses that the free list
/// holds by then, and what it holds after that is written there.
pub open spec fn free_list_written(c: CommitModel, page_size: u32, transaction_id: u64) -> Result<
    (CommitModel, u64, NodeHeader),
    Error,
> {
    let ps = page_size as int;
    if page_size == 0 {
        Err(Error::InvalidArgument)
    } else {
        match retired(
            c.writer.free_list,
            transaction_id,
            c.writer.free_list_node_address,
            c.writer.free_list_header.overflow_len,
            ps,
        ) {
            Err(e) => Err(e),
            Ok(first) => match retired_all(first, transaction_id, c.tx.pending, ps) {
                Err(e) => Err(e),
                Ok(list) => {
                    let pages = list.all_pages().len();
                    if pages > 0x1fff_ffff_ffff_fff0 {
                        Err(Error::InvalidArgument)
                    } else {
                        match taken(
                            WriterModel { free_list: list, ..c.writer },
                            c.image,
                            page_size,
                            transaction_id,
                            (18 + 8 * pages) as u64,
                        ) {
                            Err(e) => Err(e),
                            Ok((writer, image, address)) => {
                                let bytes = writer.free_list.bytes(ps as nat);
                                if 18 + 8 * writer.free_list.image().len() > u64::MAX {
                                    Err(Error::InvalidArgument)
                                } else if address + bytes.len() > image.len() {
                                    Err(Error::Io)
                                } else {
                                    Ok(
                                        (
                                            CommitModel {
                                                tx: TxModel { pending: Seq::empty(), ..c.tx },
                                                writer,
                                                image: overwrite(image, address as int, bytes),
                                            },
                                            address,
                                            writer.free_list.header(ps as nat),
                                        ),
                                    )
                                }
                            },
                        }
                    }
                },
            },
        }
    }
}

/// What writing the free list and then the meta record of the
/// transaction does. The root of the transaction is in the file by then.
/// The record goes to the slot of the transaction and is the record that
/// the writer goes on from; the pages that the transaction took are in
/// use from then on.
pub open spec fn meta_written(c: CommitModel, page_size: u32, transaction_id: u64) -> Result<
    CommitModel,
    Error,
> {
    match c.tx.root {
        NodeId::Id(_) => Err(Error::WouldCorrupt),
        NodeId::Address(root) => {
            if root < META_REGION {
                Err(Error::Corruption)
            } else {
                match free_list_written(c, page_size, transaction_id) {
                    Err(e) => Err(e),
                    Ok((after, address, header)) => {
                        let metas = after.writer.metas;
                        let slot = meta_slot(transaction_id);
                        let meta = MetaNode {
                            page_size: after.writer.meta().page_size,
                            root_node: root,
                            free_list_node: address,
                            transaction_id,
                            end_address: after.writer.meta().end_address,
                        };
                        if metas[0].transaction_id >= transaction_id || metas[1].transaction_id
                            >= transaction_id {
                            Err(Error::WouldCorrupt)
                        } else if slot * 1024 + 40 > after.image.len() {
                            Err(Error::Io)
                        } else {
                            Ok(
                                CommitModel {
                                    tx: after.tx,
                                    writer: WriterModel {
                                        free_list: FreeListModel {
                                            pending_allocated: Set::empty(),
                                            ..after.writer.free_list
                                        },
                                        free_list_header: header,
                                        free_list_node_address: address,
                                        metas: metas.update(slot, meta),
                                    },
                                    image: overwrite(after.image, slot * 1024, meta_bytes(meta)),
                                },
                            )
                        }
                    },
                }
            }
        },
    }
}

/// What a commit does: the staged tree is rebalanced, first by merging
/// and then by splitting, and written to the file; then the free list and
/// the meta record are written. A transaction that has staged nothing
/// writes nothing.
pub open spec fn commit_result(c: CommitModel, page_size: u32, transaction_id: u64) -> Result<
    CommitModel,
    Error,
> {
    match merge_all(c.tx, c.image, page_size) {
        Err(e) => Err(e),
        Ok(merged) => match split_all(merged, page_size, 64) {
            Err(e) => Err(e),
            Ok(balanced) => match balanced.root {
                NodeId::Address(_) => Ok(CommitModel { tx: balanced, ..c }),
                NodeId::Id(id) => match write_tree(
                    CommitModel { tx: balanced, ..c },
                    page_size,
                    transaction_id,
                    id,
                    64,
                ) {
                    Err(e) => Err(e),
                    Ok((written, root, _)) => meta_written(
                        CommitModel {
                            tx: TxModel { root: NodeId::Address(root), ..written.tx },
                            ..written
                        },
                        page_size,
                        transaction_id,
                    ),
                },
            },
        },
    }
}

} // verus!
