use crate::database::{WriterModel, WriteState};
use crate::error::Error;
use crate::free_list::{FreeListModel, lemma_run_pages_push, page_at, run_pages};
use crate::key::copy_bytes;
use crate::merge::with_node;
use crate::node::{Address, BranchEntry, NodeId, NodeModel};
use crate::node_codec::{lemma_node_round_trip, MetaNode, NodeHeader};
use crate::store::{free_list_at, meta_at, meta_slot, node_at, NodeManager, overwrite, tail};
use crate::tx::{TxModel, WriteTransaction};
use crate::write_model::{
    commit_result, CommitModel, extended, free_list_written, lemma_lowest_run, lemma_no_run,
    meta_written, node_written, recorded, retired, retired_all, taken, write_children, write_tree,
};
use vstd::prelude::*;

verus! {

/// Bytes at the start of the file that hold the two meta records. No page
/// of a node lies there.
pub const META_REGION: u64 = 2048;

/// File length up to which the file doubles when it has to grow.
pub const GROWTH_CAP: u64 = 0x4000_0000;

/// Whether `after` is `before` with the first `front` bytes as they were:
/// the file did not shrink and none of those bytes changed.
pub open spec fn front_kept(before: Seq<u8>, after: Seq<u8>, front: int) -> bool {
    &&& after.len() >= before.len()
    &&& forall|i: int| 0 <= i < front && i < before.len() ==> #[trigger] after[i] == before[i]
}

/// Pages of `page_size` bytes that `size` bytes take.
pub open spec fn pages_for(size: int, page_size: int) -> int {
    if page_size <= 0 {
        0
    } else {
        (size + page_size - 1) / page_size
    }
}

/// The length a file of `file_size` bytes grows to when it has to hold
/// `next_end` bytes: twice its length while it is shorter than 1 GiB, else
/// 1 GiB rounded up to whole pages, and in no case less than `next_end`.
pub open spec fn grown_size(file_size: int, next_end: int, page_size: int) -> int {
    let candidate = if file_size >= 0x4000_0000 {
        pages_for(0x4000_0000, page_size) * page_size
    } else {
        2 * file_size
    };
    if candidate >= next_end {
        candidate
    } else {
        next_end
    }
}

/// Whether the two meta records that a writer holds are of the same
/// transactions in `a` and in `b`.
pub open spec fn same_transactions(a: WriteState, b: WriteState) -> bool {
    a.meta_nodes@[0].transaction_id == b.meta_nodes@[0].transaction_id
        && a.meta_nodes@[1].transaction_id == b.meta_nodes@[1].transaction_id
}

/// Writing at or after `front` keeps the first `front` bytes.
pub proof fn lemma_overwrite_keeps_front(image: Seq<u8>, address: int, bytes: Seq<u8>, front: int)
    requires
        0 <= front <= address,
        address + bytes.len() <= image.len(),
    ensures
        front_kept(image, overwrite(image, address, bytes), front),
        overwrite(image, address, bytes).len() == image.len(),
{
}

/// Keeping the front is transitive.
pub proof fn lemma_front_kept_trans(a: Seq<u8>, b: Seq<u8>, c: Seq<u8>, front: int)
    requires
        front_kept(a, b, front),
        front_kept(b, c, front),
    ensures
        front_kept(a, c, front),
{
    assert forall|i: int| 0 <= i < front && i < a.len() implies #[trigger] c[i] == a[i] by {
        assert(b[i] == a[i]);
    }
}

/// The meta record in a slot is the same in two files that hold the same
/// 40 bytes there.
pub proof fn lemma_meta_at_local(a: Seq<u8>, b: Seq<u8>, slot: int)
    requires
        slot == 0 || slot == 1,
        a.len() >= slot * 1024 + 40,
        b.len() >= slot * 1024 + 40,
        forall|i: int| slot * 1024 <= i < slot * 1024 + 40 ==> a[i] == b[i],
    ensures
        meta_at(a, slot) == meta_at(b, slot),
{
    let off = slot * 1024;
    let x = tail(a, off);
    let y = tail(b, off);
    assert(x.take(40) =~= y.take(40));
    crate::node_codec::lemma_parse_meta_local(x, y);
}

/// A node that was written at `address` is read back from there.
pub proof fn lemma_written_node(image: Seq<u8>, address: int, node: NodeModel, page_size: nat)
    requires
        node.serializable(),
        page_size > 0,
        0 <= address,
        address + node.bytes(page_size).len() <= image.len(),
    ensures
        node_at(overwrite(image, address, node.bytes(page_size)), address) == Ok::<
            (NodeHeader, NodeModel),
            Error,
        >((node.header(page_size), node)),
{
    let bytes = node.bytes(page_size);
    let after = overwrite(image, address, bytes);
    let rest = image.skip(address + bytes.len());
    assert(tail(after, address) =~= bytes + rest);
    lemma_node_round_trip(node, page_size, rest);
}

impl WriteTransaction {
    /// Takes pages for `required_size` bytes: free pages that follow one
    /// another where there are enough, else pages at the end of the used
    /// part of the file, which grows where it has to. Returns the address
    /// of the first page. The pages are put on record as allocated by the
    /// transaction. No page is handed out in the first 2048 bytes of the
    /// file, and none that ends past the end of the file.
    pub fn allocate(&mut self, store: &mut NodeManager, required_size: u64) -> (r: Result<
        Address,
        Error,
    >)
        ensures
            final(self)@ == old(self)@,
            final(self).transaction_id == old(self).transaction_id,
            final(store).page_size() == old(store).page_size(),
            front_kept(old(store)@, final(store)@, old(store)@.len() as int),
            final(self).writer.free_list@.pending_free == old(self).writer.free_list@.pending_free,
            final(self).writer.free_list@.free.subset_of(old(self).writer.free_list@.free),
            final(self).writer.free_list_header == old(self).writer.free_list_header,
            final(self).writer.free_list_node_address == old(self).writer.free_list_node_address,
            final(self).writer.spec_meta() == (MetaNode {
                end_address: final(self).writer.spec_meta().end_address,
                ..old(self).writer.spec_meta()
            }),
            same_transactions(final(self).writer, old(self).writer),
            final(self).writer.spec_meta().end_address >= old(self).writer.spec_meta().end_address,
            match r {
                Ok(address) => {
                    &&& taken(
                        old(self).writer@,
                        old(store)@,
                        old(store).page_size(),
                        old(self).transaction_id,
                        required_size,
                    ) == Ok::<(WriterModel, Seq<u8>, u64), Error>(
                        (final(self).writer@, final(store)@, address),
                    )
                    &&& required_size > 0
                    &&& old(store).page_size() > 0
                    &&& address >= META_REGION
                    &&& address + pages_for(required_size as int, old(store).page_size() as int)
                        * old(store).page_size() <= final(store)@.len()
                },
                Err(e) => {
                    &&& taken(
                        old(self).writer@,
                        old(store)@,
                        old(store).page_size(),
                        old(self).transaction_id,
                        required_size,
                    ) == Err::<(WriterModel, Seq<u8>, u64), Error>(e)
                    &&& final(store)@ == old(store)@
                },
            },
    {
        let page_size = store.page_size() as u64;
        if page_size == 0 || required_size == 0 {
            return Err(Error::InvalidArgument);
        }
        let whole_pages = required_size / page_size;
        proof {
            lemma_pages_for(required_size as int, page_size as int);
            if required_size % page_size != 0 {
                assert(page_size >= 2) by {
                    if page_size == 1 {
                        assert(required_size % 1 == 0);
                    }
                }
                assert(whole_pages < u64::MAX) by (nonlinear_arith)
                    requires
                        whole_pages == required_size / page_size,
                        page_size >= 2,
                        required_size <= u64::MAX,
                ;
            }
        }
        let required_pages = if required_size % page_size == 0 {
            whole_pages
        } else {
            whole_pages + 1
        };
        assert(required_pages == pages_for(required_size as int, page_size as int));
        let file_size = store.size();
        let ghost list = self.writer.free_list@;
        let ghost n = required_pages as int;
        let ghost ps = page_size as int;
        match self.writer.free_list.allocate(required_pages, page_size) {
            Some(page_address) => {
                proof {
                    assert(self.writer.free_list@.free.subset_of(list.free));
                    lemma_lowest_run(list.available(), page_address as int, n, ps);
                }
                let fits = match required_pages.checked_mul(page_size) {
                    Some(bytes) => match page_address.checked_add(bytes) {
                        Some(end) => end <= file_size,
                        None => false,
                    },
                    None => false,
                };
                if page_address < META_REGION || !fits {
                    return Err(Error::Corruption);
                }
                self.register_pages(page_address, required_pages, page_size);
                proof {
                    assert(self.writer@.free_list == (FreeListModel {
                        free: list.free.difference(run_pages(page_address as int, n, ps)),
                        pending_allocated: list.pending_allocated.union(
                            run_pages(page_address as int, n, ps),
                        ),
                        allocated_by: recorded(
                            list.allocated_by,
                            run_pages(page_address as int, n, ps),
                            self.transaction_id,
                        ),
                        ..list
                    }));
                    assert(self.writer@.metas == old(self).writer@.metas);
                }
                Ok(page_address)
            },
            None => {
                proof {
                    lemma_no_run(list.available(), n, ps);
                }
                let page_address = self.writer.meta().end_address;
                let next_end_address = match required_pages.checked_mul(page_size) {
                    Some(bytes) => match page_address.checked_add(bytes) {
                        Some(end) => end,
                        None => {
                            return Err(Error::Io);
                        },
                    },
                    None => {
                        return Err(Error::Io);
                    },
                };
                if page_address < META_REGION {
                    return Err(Error::Corruption);
                }
                if next_end_address > file_size {
                    let candidate = if file_size >= GROWTH_CAP {
                        let pages = if GROWTH_CAP % page_size == 0 {
                            GROWTH_CAP / page_size
                        } else {
                            GROWTH_CAP / page_size + 1
                        };
                        proof {
                            lemma_pages_for(GROWTH_CAP as int, page_size as int);
                            assert(pages * page_size <= 0x4000_0000 + page_size) by (nonlinear_arith)
                                requires
                                    pages == pages_for(0x4000_0000, page_size as int),
                                    pages_for(0x4000_0000, page_size as int) * page_size < 0x4000_0000
                                        + page_size,
                            ;
                        }
                        pages * page_size
                    } else {
                        file_size * 2
                    };
                    let new_file_size = if candidate >= next_end_address {
                        candidate
                    } else {
                        next_end_address
                    };
                    assert(new_file_size == grown_size(file_size as int, next_end_address as int, ps));
                    match store.set_size(new_file_size) {
                        Ok(()) => {},
                        Err(e) => {
                            return Err(e);
                        },
                    }
                    proof {
                        assert(store@.take(old(store)@.len() as int) =~= old(store)@.take(
                            old(store)@.len() as int,
                        ));
                        assert forall|i: int| 0 <= i < old(store)@.len() implies store@[i] == old(store)@[i] by {
                            assert(store@.take(old(store)@.len() as int)[i] == store@[i]);
                            assert(old(store)@.take(old(store)@.len() as int)[i] == old(store)@[i]);
                        }
                        assert(store@ =~= extended(old(store)@, new_file_size as int));
                    }
                }
                let meta = self.writer.meta_mut();
                meta.end_address = next_end_address;
                self.register_pages(page_address, required_pages, page_size);
                proof {
                    assert(self.writer@.metas =~= old(self).writer@.with_end(next_end_address).metas);
                    assert(self.writer@.free_list == (FreeListModel {
                        allocated_by: recorded(
                            list.allocated_by,
                            run_pages(page_address as int, n, ps),
                            self.transaction_id,
                        ),
                        ..list
                    }));
                }
                Ok(page_address)
            },
        }
    }

    /// Puts on record that the transaction allocated the `pages` pages
    /// from `page_address` on.
    fn register_pages(&mut self, page_address: Address, pages: u64, page_size: u64)
        requires
            page_address + pages * page_size <= u64::MAX,
        ensures
            final(self)@ == old(self)@,
            final(self).transaction_id == old(self).transaction_id,
            final(self).writer.free_list@ == (FreeListModel {
                allocated_by: recorded(
                    old(self).writer.free_list@.allocated_by,
                    run_pages(page_address as int, pages as int, page_size as int),
                    old(self).transaction_id,
                ),
                ..old(self).writer.free_list@
            }),
            final(self).writer.free_list_header == old(self).writer.free_list_header,
            final(self).writer.free_list_node_address == old(self).writer.free_list_node_address,
            final(self).writer.meta_nodes == old(self).writer.meta_nodes,
    {
        let mut i: u64 = 0;
        let mut address = page_address;
        let ghost start = page_address as int;
        let ghost ps = page_size as int;
        let ghost before = self.writer.free_list@;
        proof {
            assert(run_pages(start, 0, ps) =~= Set::<u64>::empty());
            assert(before.allocated_by =~= recorded(
                before.allocated_by,
                run_pages(start, 0, ps),
                self.transaction_id,
            ));
        }
        while i < pages
            invariant
                i <= pages,
                i < pages ==> address == page_at(start, i as int, ps),
                start == page_address,
                ps == page_size,
                page_address + pages * page_size <= u64::MAX,
                self@ == old(self)@,
                self.transaction_id == old(self).transaction_id,
                before == old(self).writer.free_list@,
                self.writer.free_list@ == (FreeListModel {
                    allocated_by: recorded(
                        before.allocated_by,
                        run_pages(start, i as int, ps),
                        self.transaction_id,
                    ),
                    ..before
                }),
                self.writer.free_list_header == old(self).writer.free_list_header,
                self.writer.free_list_node_address == old(self).writer.free_list_node_address,
                self.writer.meta_nodes == old(self).writer.meta_nodes,
            decreases pages - i,
        {
            proof {
                lemma_run_pages_push(start, i as int, ps);
                assert(recorded(
                    before.allocated_by,
                    run_pages(start, i as int, ps),
                    self.transaction_id,
                ).insert(address, self.transaction_id) =~= recorded(
                    before.allocated_by,
                    run_pages(start, i + 1, ps),
                    self.transaction_id,
                ));
            }
            self.writer.free_list.register_allocation(address, self.transaction_id);
            i += 1;
            if i < pages {
                assert(i * page_size + page_size <= pages * page_size) by (nonlinear_arith)
                    requires
                        i < pages,
                        page_size >= 0,
                ;
                assert((i - 1) * page_size + page_size == i * page_size) by (nonlinear_arith);
                address = address + page_size;
            }
        }
    }
}

/// A free list that was written at `address` is read back from there.
pub proof fn lemma_written_free_list(
    image: Seq<u8>,
    address: int,
    list: crate::free_list::FreeListModel,
    page_size: nat,
)
    requires
        crate::ordered::increasing(list.image()),
        18 + 8 * list.image().len() <= u64::MAX,
        0 <= address,
        address + list.bytes(page_size).len() <= image.len(),
    ensures
        free_list_at(overwrite(image, address, list.bytes(page_size)), address) == Ok::<
            (NodeHeader, Seq<u64>),
            Error,
        >((list.header(page_size), list.image())),
{
    let bytes = list.bytes(page_size);
    let after = overwrite(image, address, bytes);
    let rest = image.skip(address + bytes.len());
    assert(tail(after, address) =~= bytes + rest);
    crate::free_list::lemma_free_list_round_trip(list, page_size, rest);
}

/// A meta record that was written to its slot is read back from there.
pub proof fn lemma_written_meta(image: Seq<u8>, meta: MetaNode)
    requires
        meta_slot(meta.transaction_id) * 1024 + 40 <= image.len(),
    ensures
        meta_at(
            overwrite(
                image,
                meta_slot(meta.transaction_id) * 1024,
                crate::node_codec::meta_bytes(meta),
            ),
            meta_slot(meta.transaction_id),
        ) == Ok::<MetaNode, Error>(meta),
{
    let off = meta_slot(meta.transaction_id) * 1024;
    let bytes = crate::node_codec::meta_bytes(meta);
    crate::node_codec::lemma_meta_len(meta);
    let after = overwrite(image, off, bytes);
    let rest = image.skip(off + bytes.len());
    assert(tail(after, off) =~= bytes + rest);
    crate::node_codec::lemma_meta_round_trip(meta, rest);
}

/// What a commit that succeeded leaves behind, where there was something
/// to commit: the meta record of the transaction is in its slot, with the
/// root and the free list of the transaction, and it is the record that
/// the writer goes on from; the other slot is as it was; and no page is on
/// record as taken by a writer at work.
pub open spec fn committed(
    transaction_id: u64,
    before: Seq<u8>,
    after: Seq<u8>,
    writer: WriteState,
) -> bool {
    let slot = meta_slot(transaction_id);
    &&& writer.spec_meta().transaction_id == transaction_id
    &&& meta_at(after, slot) == Ok::<MetaNode, Error>(writer.spec_meta())
    &&& writer.spec_meta().free_list_node == writer.free_list_node_address
    &&& writer.spec_meta().root_node >= META_REGION
    &&& writer.free_list_node_address >= META_REGION
    &&& writer.free_list@.pending_allocated == Set::<u64>::empty()
    &&& before.len() >= META_REGION ==> meta_at(after, 1 - slot) == meta_at(before, 1 - slot)
}

/// What a commit that failed leaves behind: both meta records are as they
/// were, so the file still holds the snapshot before, and the free list
/// holds nothing of the transaction.
pub open spec fn aborted(
    transaction_id: u64,
    before: Seq<u8>,
    after: Seq<u8>,
    writer: WriteState,
) -> bool {
    &&& front_kept(before, after, META_REGION as int)
    &&& before.len() >= META_REGION ==> meta_at(after, 0) == meta_at(before, 0) && meta_at(
        after,
        1,
    ) == meta_at(before, 1)
    &&& writer.free_list@.pending_allocated == Set::<u64>::empty()
    &&& !writer.free_list@.pending_free.contains_key(transaction_id)
}

/// Files that hold the same first 2048 bytes hold the same meta records.
pub proof fn lemma_front_keeps_meta(before: Seq<u8>, after: Seq<u8>, slot: int)
    requires
        front_kept(before, after, 2048),
        before.len() >= 2048,
        slot == 0 || slot == 1,
    ensures
        meta_at(after, slot) == meta_at(before, slot),
{
    lemma_meta_at_local(before, after, slot);
}

impl WriteTransaction {
    /// The commit that the transaction is at, on a file that holds
    /// `image`.
    pub open spec fn at_work(&self, image: Seq<u8>) -> CommitModel {
        CommitModel { tx: self@, writer: self.writer@, image }
    }

    /// Writes the staged tree under `node_id` to pages of the file, the
    /// children before their parents, and returns the address of the page
    /// of `node_id` and the first key under it. The entries of a branch
    /// that referred to staged children refer to the pages of the children
    /// afterwards and hold their first keys. At most `depth` levels are
    /// gone down. The first 2048 bytes of the file stay as they are.
    pub fn traverse_write(&mut self, store: &mut NodeManager, node_id: u64, depth: usize) -> (r:
        Result<(Address, Vec<u8>), Error>)
        ensures
            final(self).transaction_id == old(self).transaction_id,
            final(self).root_node_id == old(self).root_node_id,
            final(self)@.pending == old(self)@.pending,
            final(store).page_size() == old(store).page_size(),
            front_kept(old(store)@, final(store)@, META_REGION as int),
            final(self).writer.free_list@.pending_free == old(self).writer.free_list@.pending_free,
            final(self).writer.free_list_header == old(self).writer.free_list_header,
            final(self).writer.free_list_node_address == old(self).writer.free_list_node_address,
            final(self).writer.spec_meta() == (MetaNode {
                end_address: final(self).writer.spec_meta().end_address,
                ..old(self).writer.spec_meta()
            }),
            same_transactions(final(self).writer, old(self).writer),
            match r {
                Ok((address, key)) => {
                    &&& write_tree(
                        old(self).at_work(old(store)@),
                        old(store).page_size(),
                        old(self).transaction_id,
                        node_id,
                        depth as nat,
                    ) == Ok::<(CommitModel, u64, Seq<u8>), Error>(
                        (final(self).at_work(final(store)@), address, key@),
                    )
                    &&& address >= META_REGION
                    &&& final(self)@.staging.nodes.contains_key(node_id)
                    &&& node_at(final(store)@, address as int) == Ok::<
                        (NodeHeader, NodeModel),
                        Error,
                    >(
                        (
                            final(self)@.staging.nodes[node_id].header(
                                old(store).page_size() as nat,
                            ),
                            final(self)@.staging.nodes[node_id],
                        ),
                    )
                },
                Err(e) => write_tree(
                    old(self).at_work(old(store)@),
                    old(store).page_size(),
                    old(self).transaction_id,
                    node_id,
                    depth as nat,
                ) == Err::<(CommitModel, u64, Seq<u8>), Error>(e),
            },
        decreases depth,
    {
        let ghost ps = store.page_size();
        let ghost begun = self.at_work(store@);
        let mut measure: usize = match self.staging.node(node_id) {
            Some(node) => node.len(),
            None => {
                return Err(Error::WouldCorrupt);
            },
        };
        let mut from: usize = 0;
        loop
            invariant
                self.transaction_id == old(self).transaction_id,
                self.root_node_id == old(self).root_node_id,
                self@.pending == old(self)@.pending,
                store.page_size() == old(store).page_size(),
                ps == old(store).page_size(),
                begun == old(self).at_work(old(store)@),
                front_kept(old(store)@, store@, META_REGION as int),
                self.writer.free_list@.pending_free == old(self).writer.free_list@.pending_free,
                self.writer.free_list_header == old(self).writer.free_list_header,
                self.writer.free_list_node_address == old(self).writer.free_list_node_address,
                self.writer.spec_meta() == (MetaNode {
                    end_address: self.writer.spec_meta().end_address,
                    ..old(self).writer.spec_meta()
                }),
                same_transactions(self.writer, old(self).writer),
                write_children(
                    self.at_work(store@),
                    ps,
                    self.transaction_id,
                    node_id,
                    from as int,
                    depth as nat,
                    measure as nat,
                ) == write_tree(begun, ps, self.transaction_id, node_id, depth as nat),
            decreases measure,
        {
            let ghost here = self.at_work(store@);
            let next = match self.staging.node(node_id) {
                Some(node) => node.next_dirty_child(from),
                None => {
                    return Err(Error::WouldCorrupt);
                },
            };
            let (child, index) = match next {
                Some(x) => x,
                None => {
                    return self.write_staged(store, node_id, Ghost(old(store)@));
                },
            };
            if depth == 0 {
                return Err(Error::WouldCorrupt);
            }
            let ghost before_child = store@;
            let (child_address, child_key) = match self.traverse_write(store, child, depth - 1) {
                Ok(x) => x,
                Err(e) => {
                    return Err(e);
                },
            };
            let ghost after = self.at_work(store@);
            proof {
                lemma_front_kept_trans(old(store)@, before_child, store@, META_REGION as int);
            }
            let child_holds = match self.staging.node(child) {
                Some(n) => n.len() > 0,
                None => false,
            };
            if !child_holds {
                return Err(Error::WouldCorrupt);
            }
            let mut node = match self.staging.take_node(node_id) {
                Some(n) => n,
                None => {
                    return Err(Error::WouldCorrupt);
                },
            };
            let len = node.len();
            let points_at_child = match node.as_branch() {
                Some(nodes) => index < nodes.len() && match nodes[index].node_id {
                    NodeId::Id(id) => id == child,
                    NodeId::Address(_) => false,
                },
                None => false,
            };
            proof {
                if node is Branch && index < node@.len() {
                    let nodes = node->Branch_0;
                    let es = node@->Branch_0;
                    assert(es[index as int] == nodes@[index as int]@);
                }
            }
            if !points_at_child || len - (index + 1) >= measure {
                return Err(Error::WouldCorrupt);
            }
            let ghost es = node@->Branch_0;
            node.set_page_address(index, child_address);
            node.set_child_key(index, child_key);
            self.staging.put_node(node_id, node);
            proof {
                let entry = BranchEntry { key: child_key@, node_id: NodeId::Address(child_address) };
                assert(node@ == NodeModel::Branch(es.update(index as int, entry))) by {
                    assert(es.update(
                        index as int,
                        BranchEntry { key: es[index as int].key, node_id: NodeId::Address(child_address) },
                    ).update(index as int, entry) =~= es.update(index as int, entry));
                }
                assert(self@.staging.nodes =~= after.tx.staging.nodes.insert(node_id, node@));
                assert(self@ == with_node(after.tx, node_id, node@));
                assert(self.at_work(store@) == (CommitModel {
                    tx: with_node(after.tx, node_id, node@),
                    ..after
                }));
            }
            measure = len - (index + 1);
            from = index + 1;
        }
    }

    /// Writes the staged node `node_id`, whose children are all in the
    /// file, to pages of its own.
    fn write_staged(&mut self, store: &mut NodeManager, node_id: u64, Ghost(start): Ghost<Seq<u8>>) -> (r:
        Result<(Address, Vec<u8>), Error>)
        requires
            front_kept(start, old(store)@, META_REGION as int),
        ensures
            final(self)@ == old(self)@,
            final(self).transaction_id == old(self).transaction_id,
            final(self).root_node_id == old(self).root_node_id,
            final(self)@.pending == old(self)@.pending,
            final(store).page_size() == old(store).page_size(),
            front_kept(start, final(store)@, META_REGION as int),
            final(self).writer.free_list@.pending_free == old(self).writer.free_list@.pending_free,
            final(self).writer.free_list_header == old(self).writer.free_list_header,
            final(self).writer.free_list_node_address == old(self).writer.free_list_node_address,
            final(self).writer.spec_meta() == (MetaNode {
                end_address: final(self).writer.spec_meta().end_address,
                ..old(self).writer.spec_meta()
            }),
            same_transactions(final(self).writer, old(self).writer),
            match r {
                Ok((address, key)) => {
                    &&& node_written(
                        old(self).at_work(old(store)@),
                        old(store).page_size(),
                        old(self).transaction_id,
                        node_id,
                    ) == Ok::<(CommitModel, u64, Seq<u8>), Error>(
                        (final(self).at_work(final(store)@), address, key@),
                    )
                    &&& address >= META_REGION
                    &&& final(self)@.staging.nodes.contains_key(node_id)
                    &&& node_at(final(store)@, address as int) == Ok::<
                        (NodeHeader, NodeModel),
                        Error,
                    >(
                        (
                            final(self)@.staging.nodes[node_id].header(
                                old(store).page_size() as nat,
                            ),
                            final(self)@.staging.nodes[node_id],
                        ),
                    )
                },
                Err(e) => node_written(
                    old(self).at_work(old(store)@),
                    old(store).page_size(),
                    old(self).transaction_id,
                    node_id,
                ) == Err::<(CommitModel, u64, Seq<u8>), Error>(e),
            },
    {
        let node_size = match self.staging.node(node_id) {
            Some(node) => {
                if !node.is_leaf() && node.len() == 0 {
                    return Err(Error::WouldCorrupt);
                }
                node.size()
            },
            None => {
                return Err(Error::WouldCorrupt);
            },
        };
        let page_address = match self.allocate(store, node_size) {
            Ok(a) => a,
            Err(e) => {
                proof {
                    lemma_front_kept_trans(start, old(store)@, store@, META_REGION as int);
                }
                return Err(e);
            },
        };
        let ghost grown = store@;
        proof {
            lemma_front_kept_trans(start, old(store)@, grown, META_REGION as int);
        }
        let node = match self.staging.node(node_id) {
            Some(node) => node,
            None => {
                return Err(Error::WouldCorrupt);
            },
        };
        let key = if node.is_empty() {
            Vec::new()
        } else {
            copy_bytes(node.key_at(0))
        };
        match store.write_node(page_address, node) {
            Ok(()) => {},
            Err(e) => {
                return Err(e);
            },
        }
        proof {
            let bytes = node@.bytes(store.page_size() as nat);
            lemma_overwrite_keeps_front(grown, page_address as int, bytes, META_REGION as int);
            lemma_front_kept_trans(start, grown, store@, META_REGION as int);
            lemma_written_node(grown, page_address as int, node@, store.page_size() as nat);
        }
        Ok((page_address, key))
    }
}

impl WriteTransaction {
    /// Retires the page at `address` and the `overflow` pages after it
    /// under the transaction. Pages whose addresses do not fit 64 bits are
    /// refused.
    fn retire(&mut self, address: Address, overflow: u64, page_size: u64) -> (r: Result<(), Error>)
        requires
            page_size > 0,
        ensures
            final(self)@ == old(self)@,
            final(self).transaction_id == old(self).transaction_id,
            final(self).writer.free_list_header == old(self).writer.free_list_header,
            final(self).writer.free_list_node_address == old(self).writer.free_list_node_address,
            final(self).writer.meta_nodes == old(self).writer.meta_nodes,
            match r {
                Ok(()) => retired(
                    old(self).writer.free_list@,
                    old(self).transaction_id,
                    address,
                    overflow,
                    page_size as int,
                ) == Ok::<FreeListModel, Error>(final(self).writer.free_list@),
                Err(e) => retired(
                    old(self).writer.free_list@,
                    old(self).transaction_id,
                    address,
                    overflow,
                    page_size as int,
                ) == Err::<FreeListModel, Error>(e),
            },
    {
        proof {
            if overflow + 1 > u64::MAX {
                assert((overflow + 1) * page_size > u64::MAX) by (nonlinear_arith)
                    requires
                        overflow + 1 > u64::MAX,
                        page_size >= 1,
                ;
            }
        }
        let fits = match overflow.checked_add(1) {
            Some(pages) => match pages.checked_mul(page_size) {
                Some(bytes) => address.checked_add(bytes).is_some(),
                None => false,
            },
            None => false,
        };
        if !fits {
            return Err(Error::Corruption);
        }
        self.writer.free_list.free(self.transaction_id, address, overflow, page_size);
        Ok(())
    }

    /// Writes the free list to pages of its own: the pages of the free
    /// list before and the pages that the transaction replaced are retired
    /// under the transaction first. Returns the address of the free list
    /// and the header it was written with. The first 2048 bytes of the
    /// file stay as they are.
    pub fn write_free_list(&mut self, store: &mut NodeManager) -> (r: Result<
        (Address, NodeHeader),
        Error,
    >)
        ensures
            final(self).transaction_id == old(self).transaction_id,
            final(self)@.staging == old(self)@.staging,
            final(self)@.root == old(self)@.root,
            final(store).page_size() == old(store).page_size(),
            front_kept(old(store)@, final(store)@, META_REGION as int),
            final(self).writer.free_list_header == old(self).writer.free_list_header,
            final(self).writer.free_list_node_address == old(self).writer.free_list_node_address,
            final(self).writer.spec_meta() == (MetaNode {
                end_address: final(self).writer.spec_meta().end_address,
                ..old(self).writer.spec_meta()
            }),
            same_transactions(final(self).writer, old(self).writer),
            match r {
                Ok((address, header)) => {
                    &&& free_list_written(
                        old(self).at_work(old(store)@),
                        old(store).page_size(),
                        old(self).transaction_id,
                    ) == Ok::<(CommitModel, u64, NodeHeader), Error>(
                        (final(self).at_work(final(store)@), address, header),
                    )
                    &&& address >= META_REGION
                    &&& final(self)@.pending.len() == 0
                    &&& free_list_at(final(store)@, address as int) == Ok::<
                        (NodeHeader, Seq<u64>),
                        Error,
                    >((header, final(self).writer.free_list@.image()))
                },
                Err(e) => free_list_written(
                    old(self).at_work(old(store)@),
                    old(store).page_size(),
                    old(self).transaction_id,
                ) == Err::<(CommitModel, u64, NodeHeader), Error>(e),
            },
    {
        let page_size = store.page_size() as u64;
        if page_size == 0 {
            return Err(Error::InvalidArgument);
        }
        let old_address = self.writer.free_list_node_address;
        let old_overflow = self.writer.free_list_header.overflow_len;
        match self.retire(old_address, old_overflow, page_size) {
            Ok(()) => {},
            Err(e) => {
                return Err(e);
            },
        }
        let ghost first = self.writer.free_list@;
        while self.pending_free_pages.len() > 0
            invariant
                retired_all(
                    self.writer.free_list@,
                    self.transaction_id,
                    self@.pending,
                    page_size as int,
                ) == retired_all(first, self.transaction_id, old(self)@.pending, page_size as int),
                retired(
                    old(self).writer.free_list@,
                    old(self).transaction_id,
                    old(self).writer.free_list_node_address,
                    old(self).writer.free_list_header.overflow_len,
                    page_size as int,
                ) == Ok::<FreeListModel, Error>(first),
                page_size > 0,
                page_size == store.page_size(),
                store@ == old(store)@,
                store.page_size() == old(store).page_size(),
                self.transaction_id == old(self).transaction_id,
                self@.staging == old(self)@.staging,
                self@.root == old(self)@.root,
                self.writer.free_list_header == old(self).writer.free_list_header,
                self.writer.free_list_node_address == old(self).writer.free_list_node_address,
                self.writer.meta_nodes == old(self).writer.meta_nodes,
            decreases self.pending_free_pages@.len(),
        {
            let ghost pending = self@.pending;
            let (address, header) = self.pending_free_pages.pop().unwrap();
            assert(self@.pending == pending.drop_last());
            assert(pending.last() == (address, header));
            match self.retire(address, header.overflow_len, page_size) {
                Ok(()) => {},
                Err(e) => {
                    return Err(e);
                },
            }
        }
        let pages = self.writer.free_list.pages_len();
        if pages as u64 > 0x1fff_ffff_ffff_fff0 {
            return Err(Error::InvalidArgument);
        }
        let free_list_size: u64 = 18 + 8 * (pages as u64);
        let ghost metas = self.writer.meta_nodes@;
        proof {
            assert(self@.pending =~= Seq::<(Address, NodeHeader)>::empty());
            assert(self@ == (TxModel { pending: Seq::empty(), ..old(self)@ }));
            assert(self.writer@ == (WriterModel {
                free_list: self.writer.free_list@,
                ..old(self).writer@
            }));
        }
        let page_address = match self.allocate(store, free_list_size) {
            Ok(a) => a,
            Err(e) => {
                return Err(e);
            },
        };
        let ghost grown = store@;
        let header = match store.write_free_list(page_address, &self.writer.free_list) {
            Ok(h) => h,
            Err(e) => {
                return Err(e);
            },
        };
        proof {
            let list = self.writer.free_list@;
            let bytes = list.bytes(store.page_size() as nat);
            lemma_overwrite_keeps_front(grown, page_address as int, bytes, META_REGION as int);
            lemma_front_kept_trans(old(store)@, grown, store@, META_REGION as int);
            lemma_written_free_list(grown, page_address as int, list, store.page_size() as nat);
        }
        Ok((page_address, header))
    }
}

impl WriteTransaction {
    /// Writes the free list and then the meta record of the transaction,
    /// which makes the tree with the root of the transaction the current
    /// one. The root is in the file by now. Where the call fails the first
    /// 2048 bytes of the file are as they were.
    pub fn write_meta_node(&mut self, store: &mut NodeManager) -> (r: Result<(), Error>)
        ensures
            final(self).transaction_id == old(self).transaction_id,
            final(store).page_size() == old(store).page_size(),
            match r {
                Ok(()) => {
                    &&& meta_written(
                        old(self).at_work(old(store)@),
                        old(store).page_size(),
                        old(self).transaction_id,
                    ) == Ok::<CommitModel, Error>(final(self).at_work(final(store)@))
                    &&& committed(
                        old(self).transaction_id,
                        old(store)@,
                        final(store)@,
                        final(self).writer,
                    )
                    &&& old(self)@.root == NodeId::Address(
                        final(self).writer.spec_meta().root_node,
                    )
                    &&& final(self).writer.spec_meta().page_size
                        == old(self).writer.spec_meta().page_size
                },
                Err(e) => {
                    &&& meta_written(
                        old(self).at_work(old(store)@),
                        old(store).page_size(),
                        old(self).transaction_id,
                    ) == Err::<CommitModel, Error>(e)
                    &&& front_kept(old(store)@, final(store)@, META_REGION as int)
                },
            },
    {
        let root_address = match self.root_node_id {
            NodeId::Address(a) => a,
            NodeId::Id(_) => {
                return Err(Error::WouldCorrupt);
            },
        };
        if root_address < META_REGION {
            return Err(Error::Corruption);
        }
        let (free_list_node_address, free_list_header) = match self.write_free_list(store) {
            Ok(x) => x,
            Err(e) => {
                return Err(e);
            },
        };
        let ghost written = store@;
        let ghost listed = self.at_work(store@);
        let transaction_id = self.transaction_id;
        if self.writer.meta_nodes[0].transaction_id >= transaction_id
            || self.writer.meta_nodes[1].transaction_id >= transaction_id {
            return Err(Error::WouldCorrupt);
        }
        let current = *self.writer.meta();
        let meta = MetaNode {
            page_size: current.page_size,
            root_node: root_address,
            free_list_node: free_list_node_address,
            transaction_id,
            end_address: current.end_address,
        };
        match store.write_meta(&meta) {
            Ok(()) => {},
            Err(e) => {
                return Err(e);
            },
        }
        let other = if transaction_id % 2 == 0 {
            self.writer.meta_nodes[1]
        } else {
            self.writer.meta_nodes[0]
        };
        if transaction_id % 2 == 0 {
            self.writer.meta_nodes = [meta, other];
        } else {
            self.writer.meta_nodes = [other, meta];
        }
        self.writer.free_list_header = free_list_header;
        self.writer.free_list_node_address = free_list_node_address;
        self.writer.free_list.commit_allocations();
        proof {
            let slot = meta_slot(transaction_id);
            let before = old(store)@;
            let after = store@;
            lemma_written_meta(written, meta);
            crate::node_codec::lemma_meta_len(meta);
            if before.len() >= META_REGION {
                assert forall|i: int| (1 - slot) * 1024 <= i < (1 - slot) * 1024 + 40 implies before[i]
                    == after[i] by {
                    assert(written[i] == before[i]);
                }
                lemma_meta_at_local(before, after, 1 - slot);
            }
            assert(self.writer@.metas =~= listed.writer.metas.update(slot, meta));
            assert(self@ == listed.tx);
        }
        Ok(())
    }

    /// Rebalances the staged tree, writes it to the file and makes it the
    /// current tree. A transaction that has staged nothing writes nothing.
    pub fn commit_internal(&mut self, store: &mut NodeManager) -> (r: Result<(), Error>)
        ensures
            final(self).transaction_id == old(self).transaction_id,
            final(store).page_size() == old(store).page_size(),
            match r {
                Ok(()) => {
                    &&& commit_result(
                        old(self).at_work(old(store)@),
                        old(store).page_size(),
                        old(self).transaction_id,
                    ) == Ok::<CommitModel, Error>(final(self).at_work(final(store)@))
                    &&& committed(
                        old(self).transaction_id,
                        old(store)@,
                        final(store)@,
                        final(self).writer,
                    ) || (final(store)@ == old(store)@ && final(self).writer == old(self).writer)
                },
                Err(e) => {
                    &&& commit_result(
                        old(self).at_work(old(store)@),
                        old(store).page_size(),
                        old(self).transaction_id,
                    ) == Err::<CommitModel, Error>(e)
                    &&& front_kept(old(store)@, final(store)@, META_REGION as int)
                },
            },
    {
        assert(front_kept(old(store)@, store@, META_REGION as int));
        match self.merge(store) {
            Ok(()) => {},
            Err(e) => {
                return Err(e);
            },
        }
        match self.split(store) {
            Ok(()) => {},
            Err(e) => {
                return Err(e);
            },
        }
        let node_id = match self.root_node_id {
            NodeId::Id(id) => id,
            NodeId::Address(_) => {
                return Ok(());
            },
        };
        let (root_node_address, _) = match self.traverse_write(
            store,
            node_id,
            crate::merge::MAX_STAGED_DEPTH,
        ) {
            Ok(x) => x,
            Err(e) => {
                return Err(e);
            },
        };
        let ghost pages_written = store@;
        self.root_node_id = NodeId::Address(root_node_address);
        match self.write_meta_node(store) {
            Ok(()) => {
                proof {
                    let slot = meta_slot(self.transaction_id);
                    if old(store)@.len() >= META_REGION {
                        lemma_front_keeps_meta(old(store)@, pages_written, 1 - slot);
                    }
                }
                Ok(())
            },
            Err(e) => {
                proof {
                    lemma_front_kept_trans(
                        old(store)@,
                        pages_written,
                        store@,
                        META_REGION as int,
                    );
                }
                Err(e)
            },
        }
    }

    /// Commits the transaction and gives the state of the writer back.
    /// Where the commit fails it is undone: the file still holds the
    /// snapshot before, and the free list holds nothing of the
    /// transaction.
    pub fn commit(self, store: &mut NodeManager) -> (r: (WriteState, Result<(), Error>))
        ensures
            final(store).page_size() == old(store).page_size(),
            match r.1 {
                Ok(()) => {
                    &&& commit_result(
                        self.at_work(old(store)@),
                        old(store).page_size(),
                        self.transaction_id,
                    ) matches Ok(done) && done.writer == r.0@ && done.image == final(store)@
                    &&& committed(self.transaction_id, old(store)@, final(store)@, r.0) || (
                    final(store)@ == old(store)@ && r.0 == self.writer)
                },
                Err(e) => {
                    &&& commit_result(
                        self.at_work(old(store)@),
                        old(store).page_size(),
                        self.transaction_id,
                    ) == Err::<CommitModel, Error>(e)
                    &&& aborted(self.transaction_id, old(store)@, final(store)@, r.0)
                },
            },
    {
        let mut tx = self;
        match tx.commit_internal(store) {
            Ok(()) => (tx.writer, Ok(())),
            Err(e) => {
                tx.rollback();
                proof {
                    if old(store)@.len() >= META_REGION {
                        lemma_front_keeps_meta(old(store)@, store@, 0);
                        lemma_front_keeps_meta(old(store)@, store@, 1);
                    }
                }
                (tx.writer, Err(e))
            },
        }
    }

    /// Undoes what the transaction did to the free list: the pages it
    /// took are free again and no longer on record as allocated, and the
    /// pages it retired are forgotten.
    pub fn rollback(&mut self)
        ensures
            final(self).transaction_id == old(self).transaction_id,
            final(self)@ == old(self)@,
            final(self).writer.free_list@ == rolled_back(
                old(self).writer.free_list@,
                old(self).transaction_id,
            ),
            final(self).writer.free_list_header == old(self).writer.free_list_header,
            final(self).writer.free_list_node_address == old(self).writer.free_list_node_address,
            final(self).writer.meta_nodes == old(self).writer.meta_nodes,
    {
        self.writer.free_list.rollback(self.transaction_id);
    }

    /// Gives up the transaction and gives the state of the writer back,
    /// with what the transaction did to the free list undone.
    pub fn abandon(self) -> (writer: WriteState)
        ensures
            writer.free_list@ == rolled_back(self.writer.free_list@, self.transaction_id),
            writer.meta_nodes == self.writer.meta_nodes,
            writer.free_list_header == self.writer.free_list_header,
            writer.free_list_node_address == self.writer.free_list_node_address,
    {
        let mut tx = self;
        tx.rollback();
        tx.writer
    }
}

/// The free list after the writer of transaction `transaction_id` was
/// rolled back: the pages it took are free again and no longer on record
/// as allocated, and the pages it retired are forgotten.
pub open spec fn rolled_back(list: FreeListModel, transaction_id: u64) -> FreeListModel {
    FreeListModel {
        free: list.free.union(list.pending_allocated),
        allocated_by: list.allocated_by.remove_keys(list.pending_allocated),
        pending_allocated: Set::empty(),
        pending_free: list.pending_free.remove(transaction_id),
    }
}

/// The number of pages that `size` bytes take, by division.
pub proof fn lemma_pages_for(size: int, page_size: int)
    requires
        size >= 0,
        page_size > 0,
    ensures
        pages_for(size, page_size) == size / page_size + if size % page_size == 0 {
            0int
        } else {
            1int
        },
        pages_for(size, page_size) * page_size >= size,
        pages_for(size, page_size) * page_size < size + page_size,
{
    let q = size / page_size;
    let r = size % page_size;
    assert(size == q * page_size + r) by {
        vstd::arithmetic::div_mod::lemma_fundamental_div_mod(size, page_size);
        assert(page_size * q == q * page_size) by (nonlinear_arith);
    }
    if r == 0 {
        assert((size + page_size - 1) / page_size == q) by {
            vstd::arithmetic::div_mod::lemma_fundamental_div_mod_converse(
                size + page_size - 1,
                page_size,
                q,
                page_size - 1,
            );
        }
    } else {
        assert((size + page_size - 1) / page_size == q + 1) by {
            assert((q + 1) * page_size == q * page_size + page_size) by (nonlinear_arith);
            vstd::arithmetic::div_mod::lemma_fundamental_div_mod_converse(
                size + page_size - 1,
                page_size,
                q + 1,
                r - 1,
            );
        }
        assert((q + 1) * page_size == q * page_size + page_size) by (nonlinear_arith);
    }
}

} // verus!
