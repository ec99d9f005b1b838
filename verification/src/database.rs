use crate::commit::{aborted, committed, rolled_back};
use crate::error::Error;
use crate::free_list::{FreeList, FreeListModel};
use crate::node::{Address, FREELIST_NODE, InternalNodes, NodeId, NodeModel, TransactionId};
use crate::node_codec::{MetaNode, NodeHeader};
use crate::ordered::{map_keys_sorted, map_put, map_take};
use crate::store::{free_list_at, meta_at, node_at, NodeManager, tail};
use crate::tx::{ReadTransaction, WriteTransaction};
use crate::write_model::commit_result;
use std::collections::BTreeMap;
use vstd::prelude::*;

verus! {

/// Smallest page size the store accepts, in bytes. Page sizes are
/// multiples of it.
pub const MIN_PAGE_SIZE: u32 = 128;

/// What a database is opened with.
#[derive(Debug, Clone, Copy, PartialEq, Eq, Structural)]
pub struct Options {
    /// Most handles on the file that are open at a time; at least 1.
    pub max_files: u16,
    /// Bytes per page: at least 128 and a multiple of 128.
    pub page_size: u32,
    /// Bytes that may be spent on keeping pages in memory; advisory.
    pub cache_size: u64,
}

impl Default for Options {
    fn default() -> (r: Self)
        ensures
            r == (Options { max_files: 16, page_size: 4096, cache_size: 104857600 }),
    {
        Options { max_files: 16, page_size: 4096, cache_size: 104857600 }
    }
}

impl Options {
    /// Whether the options are ones a database can be created with.
    pub open spec fn spec_is_valid(&self) -> bool {
        self.max_files >= 1 && self.page_size >= MIN_PAGE_SIZE && self.page_size % MIN_PAGE_SIZE
            == 0
    }

    /// Tells whether the options are ones a database can be created with.
    #[verifier::when_used_as_spec(spec_is_valid)]
    pub fn is_valid(&self) -> (b: bool)
        ensures
            b == self.spec_is_valid(),
    {
        self.max_files >= 1 && self.page_size >= MIN_PAGE_SIZE && self.page_size % MIN_PAGE_SIZE
            == 0
    }
}

/// What only the writer may change: the free list and the two meta
/// records. Whoever holds it is the writer.
#[derive(Debug)]
pub struct WriteState {
    pub free_list_header: NodeHeader,
    pub free_list: FreeList,
    pub free_list_node_address: Address,
    pub meta_nodes: [MetaNode; 2],
}

/// What a writer holds, as plain values.
pub struct WriterModel {
    pub free_list: FreeListModel,
    pub free_list_header: NodeHeader,
    pub free_list_node_address: Address,
    pub metas: Seq<MetaNode>,
}

impl WriterModel {
    /// The meta record of the last commit.
    pub open spec fn meta(self) -> MetaNode {
        self.metas[newer_slot(self.metas[0], self.metas[1])]
    }

    /// The writer with `end` as the end of the used part of the file in
    /// the meta record of the last commit.
    pub open spec fn with_end(self, end: u64) -> WriterModel {
        WriterModel {
            metas: self.metas.update(
                newer_slot(self.metas[0], self.metas[1]),
                MetaNode { end_address: end, ..self.meta() },
            ),
            ..self
        }
    }
}

impl View for WriteState {
    type V = WriterModel;

    open spec fn view(&self) -> WriterModel {
        WriterModel {
            free_list: self.free_list@,
            free_list_header: self.free_list_header,
            free_list_node_address: self.free_list_node_address,
            metas: self.meta_nodes@,
        }
    }
}

/// The slot of the newer of two meta records: slot 1 where its
/// transaction is the later one, else slot 0.
pub open spec fn newer_slot(m0: MetaNode, m1: MetaNode) -> int {
    if m0.transaction_id < m1.transaction_id {
        1
    } else {
        0
    }
}

impl WriteState {
    /// The meta record of the last commit.
    pub open spec fn spec_meta(&self) -> MetaNode {
        self.meta_nodes@[newer_slot(self.meta_nodes@[0], self.meta_nodes@[1])]
    }

    /// The meta record of the last commit.
    pub fn meta(&self) -> (m: &MetaNode)
        ensures
            *m == self.spec_meta(),
    {
        if self.meta_nodes[0].transaction_id < self.meta_nodes[1].transaction_id {
            &self.meta_nodes[1]
        } else {
            &self.meta_nodes[0]
        }
    }

    /// The meta record of the last commit, to be changed in place.
    pub fn meta_mut(&mut self) -> (m: &mut MetaNode)
        ensures
            *m == old(self).spec_meta(),
            final(self).free_list_header == old(self).free_list_header,
            final(self).free_list == old(self).free_list,
            final(self).free_list_node_address == old(self).free_list_node_address,
            final(self).meta_nodes@ == old(self).meta_nodes@.update(
                newer_slot(old(self).meta_nodes@[0], old(self).meta_nodes@[1]),
                *final(m),
            ),
    {
        if self.meta_nodes[0].transaction_id < self.meta_nodes[1].transaction_id {
            &mut self.meta_nodes[1]
        } else {
            &mut self.meta_nodes[0]
        }
    }
}

/// What readers go by: the meta record of the last commit, and for each
/// snapshot the number of read transactions that are open on it.
#[derive(Debug)]
pub struct ReadState {
    pub meta_node: MetaNode,
    pub transactions: BTreeMap<TransactionId, usize>,
}

/// The meta record that a database goes on from, given what the two slots
/// hold: the record of the later transaction where both are records, the
/// one that is a record where only one is, and none where neither is.
pub open spec fn pick_meta(slot0: Result<MetaNode, Error>, slot1: Result<MetaNode, Error>) -> Result<
    MetaNode,
    Error,
> {
    match (slot0, slot1) {
        (Ok(a), Ok(b)) => if a.transaction_id < b.transaction_id {
            Ok(b)
        } else {
            Ok(a)
        },
        (Ok(a), Err(_)) => Ok(a),
        (Err(_), Ok(b)) => Ok(b),
        (Err(_), Err(_)) => Err(Error::Corruption),
    }
}

/// Picks the meta record that a database goes on from.
pub fn select_meta(slot0: Result<MetaNode, Error>, slot1: Result<MetaNode, Error>) -> (r: Result<
    MetaNode,
    Error,
>)
    ensures
        r == pick_meta(slot0, slot1),
{
    match (slot0, slot1) {
        (Ok(a), Ok(b)) => {
            if a.transaction_id < b.transaction_id {
                Ok(b)
            } else {
                Ok(a)
            }
        },
        (Ok(a), Err(_)) => Ok(a),
        (Err(_), Ok(b)) => Ok(b),
        (Err(_), Err(_)) => Err(Error::Corruption),
    }
}

/// The address of the first page after the two meta records, for pages of
/// `page_size` bytes: 2048 rounded up to whole pages.
pub open spec fn first_page(page_size: u32) -> int {
    crate::commit::pages_for(2048, page_size as int) * page_size
}

/// The two meta records that a new database with pages of `page_size`
/// bytes starts with: they are of the transactions 0 and 1, and both name
/// the free list on the first page, the root on the second, and the end of
/// the used part of the file after it.
pub open spec fn initial_metas(page_size: u32) -> (MetaNode, MetaNode) {
    let first = first_page(page_size);
    let meta = MetaNode {
        page_size,
        root_node: (first + page_size) as u64,
        free_list_node: first as u64,
        transaction_id: 0,
        end_address: (first + 2 * page_size) as u64,
    };
    (meta, MetaNode { transaction_id: 1, ..meta })
}

/// Whether `image` is the file of a new database with pages of
/// `page_size` bytes: it ends after the second page, its two slots hold
/// the initial meta records, its first page holds a free list without
/// addresses and its second a leaf without entries, as the bytes that
/// the leaf is written as.
pub open spec fn is_initial(image: Seq<u8>, page_size: u32) -> bool {
    let (m0, m1) = initial_metas(page_size);
    &&& image.len() == m0.end_address
    &&& meta_at(image, 0) == Ok::<MetaNode, Error>(m0)
    &&& meta_at(image, 1) == Ok::<MetaNode, Error>(m1)
    &&& node_at(image, m0.root_node as int) matches Ok((_, node)) && node == NodeModel::Leaf(
        Seq::empty(),
    )
    &&& crate::write_law::written_at(
        image,
        m0.root_node as int,
        NodeModel::Leaf(Seq::empty()),
        page_size as nat,
    )
    &&& free_list_at(image, m0.free_list_node as int) matches Ok((h, addresses))
        && addresses.len() == 0 && h.flags == FREELIST_NODE
}

/// The state of a database that is open: the file, the state of the
/// writer, which is absent while a write transaction holds it, and what
/// readers go by.
pub struct DatabaseInternal {
    pub node_manager: NodeManager,
    pub write_state: Option<WriteState>,
    pub read_state: ReadState,
    pub page_size: u32,
}

/// The free list after a release while read transactions are open on the
/// snapshots `readers`: the retired pages that may be handed out again are
/// free and no longer on record as allocated, and the others stay
/// retired.
pub open spec fn after_release(list: FreeListModel, readers: Set<u64>) -> FreeListModel {
    let (min_tx, max_tx) = reader_range(readers);
    FreeListModel {
        free: list.free.union(list.releasable(min_tx, max_tx)),
        allocated_by: list.allocated_by.remove_keys(list.releasable(min_tx, max_tx)),
        pending_allocated: list.pending_allocated,
        pending_free: list.pending_after_release(min_tx, max_tx),
    }
}

/// The oldest and the newest snapshot that a read transaction is open on;
/// `u64::MAX` and 0 where none is open.
pub open spec fn reader_range(readers: Set<u64>) -> (u64, u64) {
    if readers.len() == 0 || !readers.finite() {
        (u64::MAX, 0)
    } else {
        (
            choose|t: u64| readers.contains(t) && forall|u: u64| readers.contains(u) ==> t <= u,
            choose|t: u64| readers.contains(t) && forall|u: u64| readers.contains(u) ==> u <= t,
        )
    }
}

/// The oldest and the newest snapshot that a read transaction is open on.
pub fn reader_bounds(transactions: &BTreeMap<TransactionId, usize>) -> (r: (TransactionId, TransactionId))
    ensures
        r == reader_range(transactions@.dom()),
        transactions@.dom().len() == 0 ==> r == (u64::MAX, 0u64),
        transactions@.dom().len() > 0 ==> {
            &&& transactions@.contains_key(r.0)
            &&& transactions@.contains_key(r.1)
            &&& forall|t: u64| transactions@.contains_key(t) ==> r.0 <= t <= r.1
        },
{
    let keys = map_keys_sorted(transactions);
    proof {
        vstd::seq_lib::seq_to_set_is_finite(keys@);
        keys@.unique_seq_to_set();
        assert(keys@.no_duplicates()) by {
            assert forall|i: int, j: int|
                0 <= i < keys@.len() && 0 <= j < keys@.len() && i != j implies keys@[i]
                != keys@[j] by {
                if i < j {
                    assert(keys@[i] < keys@[j]);
                } else {
                    assert(keys@[j] < keys@[i]);
                }
            }
        }
    }
    if keys.len() == 0 {
        return (u64::MAX, 0);
    }
    assert(transactions@.dom().len() > 0);
    let first = keys[0];
    let last = keys[keys.len() - 1];
    proof {
        assert(keys@.to_set().contains(first));
        assert(keys@.to_set().contains(last));
        assert forall|t: u64| transactions@.contains_key(t) implies first <= t <= last by {
            assert(keys@.to_set().contains(t));
            let k = choose|k: int| 0 <= k < keys@.len() && keys@[k] == t;
            if 0 < k {
                assert(keys@[0] < keys@[k]);
            }
            if k < keys@.len() - 1 {
                assert(keys@[k] < keys@[keys@.len() - 1]);
            }
        }
    }
    proof {
        let readers = transactions@.dom();
        let range = reader_range(readers);
        assert(readers.contains(first) && forall|u: u64| readers.contains(u) ==> first <= u);
        assert(readers.contains(last) && forall|u: u64| readers.contains(u) ==> u <= last);
        assert(range.0 == first);
        assert(range.1 == last);
    }
    (first, last)
}

impl DatabaseInternal {
    /// The state of a new database with the options `options`, in a file
    /// of its own. Options that are not valid are refused.
    pub fn write_initial_state(options: &Options) -> (r: Result<DatabaseInternal, Error>)
        ensures
            match r {
                Ok(db) => {
                    &&& options.spec_is_valid()
                    &&& is_initial(db.node_manager@, options.page_size)
                    &&& db.page_size == options.page_size
                    &&& db.node_manager.page_size() == options.page_size
                    &&& db.write_state matches Some(ws) && ws.spec_meta() == initial_metas(
                        options.page_size,
                    ).1 && ws.meta_nodes@[0] == initial_metas(options.page_size).0
                        && ws.free_list_node_address == initial_metas(
                        options.page_size,
                    ).0.free_list_node && ws.free_list@.free == Set::<u64>::empty()
                        && ws.free_list@.pending_free == Map::<u64, Set<u64>>::empty()
                        && ws.free_list@.pending_allocated == Set::<u64>::empty()
                        && ws.free_list_header.overflow_len == 0
                    &&& db.read_state.meta_node == initial_metas(options.page_size).1
                    &&& db.read_state.transactions@ == Map::<u64, usize>::empty()
                },
                Err(e) => {
                    &&& !options.spec_is_valid() ==> e == Error::InvalidArgument
                    &&& options.spec_is_valid() ==> e == Error::Io && initial_metas(
                        options.page_size,
                    ).0.end_address > usize::MAX
                },
            },
    {
        if !options.is_valid() {
            return Err(Error::InvalidArgument);
        }
        let page_size = options.page_size as u64;
        let pages: u64 = if 2048 % page_size == 0 {
            2048 / page_size
        } else {
            2048 / page_size + 1
        };
        proof {
            crate::commit::lemma_pages_for(2048, page_size as int);
            assert(pages <= 16) by (nonlinear_arith)
                requires
                    pages * page_size < 2048 + page_size,
                    page_size >= 128,
                    pages >= 0,
            ;
            assert(pages * page_size <= 16 * page_size) by (nonlinear_arith)
                requires
                    pages <= 16,
                    page_size >= 0,
            ;
        }
        let initial_alignment = page_size * pages;
        assert(initial_alignment == first_page(options.page_size)) by {
            assert(page_size * pages == pages * page_size) by (nonlinear_arith);
        }
        let free_list_address = initial_alignment;
        let root_node_address = initial_alignment + page_size;
        let end_address = root_node_address + page_size;
        let meta0 = MetaNode {
            page_size: options.page_size,
            root_node: root_node_address,
            free_list_node: free_list_address,
            transaction_id: 0,
            end_address,
        };
        let meta1 = MetaNode {
            page_size: options.page_size,
            root_node: root_node_address,
            free_list_node: free_list_address,
            transaction_id: 1,
            end_address,
        };
        let mut store = NodeManager::new(Vec::new(), options.page_size);
        match store.set_size(end_address) {
            Ok(()) => {},
            Err(e) => {
                return Err(e);
            },
        }
        let ghost image0 = store@;
        let root = InternalNodes::Leaf(Vec::new());
        proof {
            assert(root@ == NodeModel::Leaf(Seq::empty())) by {
                assert(crate::node::leaf_entries(Seq::empty()) =~= Seq::empty());
            }
            lemma_empty_leaf(options.page_size as nat);
        }
        match store.write_node(root_node_address, &root) {
            Ok(()) => {},
            Err(_) => {
                assert(false);
                return Err(Error::Io);
            },
        }
        let ghost image1 = store@;
        let free_list = FreeList::default();
        proof {
            lemma_empty_free_list(free_list@, options.page_size as nat);
        }
        let free_list_header = match store.write_free_list(free_list_address, &free_list) {
            Ok(h) => h,
            Err(_) => {
                assert(false);
                return Err(Error::Io);
            },
        };
        let ghost image2 = store@;
        proof {
            assert(free_list_header.overflow_len == 0) by {
                assert(17int / (options.page_size as int) == 0) by (nonlinear_arith)
                    requires
                        options.page_size >= 128,
                ;
            }
        }
        match store.write_meta(&meta1) {
            Ok(()) => {},
            Err(_) => {
                assert(false);
                return Err(Error::Io);
            },
        }
        let ghost image3 = store@;
        match store.write_meta(&meta0) {
            Ok(()) => {},
            Err(_) => {
                assert(false);
                return Err(Error::Io);
            },
        }
        let ghost image4 = store@;
        proof {
            let ps = options.page_size as nat;
            crate::node_codec::lemma_meta_len(meta0);
            crate::node_codec::lemma_meta_len(meta1);
            crate::commit::lemma_written_node(
                image0,
                root_node_address as int,
                root@,
                ps,
            );
            assert(tail(image4, root_node_address as int) =~= tail(
                image1,
                root_node_address as int,
            ));
            crate::commit::lemma_written_free_list(image1, free_list_address as int, free_list@, ps);
            assert(tail(image4, free_list_address as int) =~= tail(
                image2,
                free_list_address as int,
            ));
            crate::commit::lemma_written_meta(image2, meta1);
            assert(tail(image4, 1024) =~= tail(image3, 1024));
            crate::commit::lemma_written_meta(image3, meta0);
            let leaf_bytes = root@.bytes(ps);
            assert(image1.subrange(
                root_node_address as int,
                root_node_address + leaf_bytes.len(),
            ) =~= leaf_bytes);
            assert(image4.subrange(
                root_node_address as int,
                root_node_address + leaf_bytes.len(),
            ) =~= image1.subrange(
                root_node_address as int,
                root_node_address + leaf_bytes.len(),
            ));
        }
        let write_state = WriteState {
            free_list,
            free_list_node_address: free_list_address,
            free_list_header,
            meta_nodes: [meta0, meta1],
        };
        Ok(
            DatabaseInternal {
                node_manager: store,
                write_state: Some(write_state),
                read_state: ReadState { meta_node: meta1, transactions: BTreeMap::new() },
                page_size: options.page_size,
            },
        )
    }
}

/// What opening the file `image` with the options `options` finds: the
/// meta record to go on from, and the free list that it names, with its
/// header. A page size other than the one of the file is refused.
pub open spec fn opened(image: Seq<u8>, options: Options) -> Result<(MetaNode, NodeHeader, Seq<u64>), Error> {
    match pick_meta(meta_at(image, 0), meta_at(image, 1)) {
        Err(e) => Err(e),
        Ok(meta) => {
            if options.page_size != meta.page_size {
                Err(Error::InvalidArgument)
            } else {
                match free_list_at(image, meta.free_list_node as int) {
                    Err(e) => Err(e),
                    Ok((h, addresses)) => Ok((meta, h, addresses)),
                }
            }
        },
    }
}

/// The number of read transactions that are open on snapshot `t`.
pub open spec fn readers_of(transactions: Map<u64, usize>, t: u64) -> nat {
    if transactions.contains_key(t) {
        transactions[t] as nat
    } else {
        0
    }
}

impl DatabaseInternal {
    /// The state of the database in the file `image`, opened with the
    /// options `options`.
    pub fn read_state(image: Vec<u8>, options: &Options) -> (r: Result<DatabaseInternal, Error>)
        ensures
            match r {
                Ok(db) => {
                    &&& opened(image@, *options) matches Ok((meta, header, addresses))
                    &&& db.node_manager@ == image@
                    &&& db.page_size == meta.page_size
                    &&& db.node_manager.page_size() == meta.page_size
                    &&& db.read_state.meta_node == meta
                    &&& db.read_state.transactions@ == Map::<u64, usize>::empty()
                    &&& db.write_state matches Some(ws) && ws.spec_meta() == meta
                        && ws.meta_nodes@[0] == meta && ws.meta_nodes@[1] == meta
                        && ws.free_list_header == header && ws.free_list_node_address
                        == meta.free_list_node && ws.free_list@.free == addresses.to_set()
                        && ws.free_list@.pending_free == Map::<u64, Set<u64>>::empty()
                        && ws.free_list@.pending_allocated == Set::<u64>::empty()
                },
                Err(e) => opened(image@, *options) == Err::<(MetaNode, NodeHeader, Seq<u64>), Error>(
                    e,
                ),
            },
    {
        let store = NodeManager::new(image, options.page_size);
        let meta_node0 = store.read_meta(0);
        let meta_node1 = store.read_meta(1);
        let meta_node = match select_meta(meta_node0, meta_node1) {
            Ok(m) => m,
            Err(e) => {
                return Err(e);
            },
        };
        if options.page_size != meta_node.page_size {
            return Err(Error::InvalidArgument);
        }
        let (free_list_header, free_list) = match store.read_free_list(meta_node.free_list_node) {
            Ok(x) => x,
            Err(e) => {
                return Err(e);
            },
        };
        Ok(
            DatabaseInternal {
                node_manager: store,
                page_size: meta_node.page_size,
                write_state: Some(
                    WriteState {
                        free_list_header,
                        free_list,
                        free_list_node_address: meta_node.free_list_node,
                        meta_nodes: [meta_node, meta_node],
                    },
                ),
                read_state: ReadState { meta_node, transactions: BTreeMap::new() },
            },
        )
    }

    /// Takes the state of the writer, where no write transaction holds it,
    /// and hands the retired pages that no reader can reach any more back
    /// to the free pages.
    pub fn take_write_state(&mut self) -> (r: Option<WriteState>)
        ensures
            final(self).node_manager == old(self).node_manager,
            final(self).read_state == old(self).read_state,
            final(self).page_size == old(self).page_size,
            final(self).write_state is None,
            match r {
                None => old(self).write_state is None,
                Some(ws) => {
                    &&& old(self).write_state matches Some(before)
                    &&& ws.meta_nodes == before.meta_nodes
                    &&& ws.free_list_header == before.free_list_header
                    &&& ws.free_list_node_address == before.free_list_node_address
                    &&& ws.free_list@ == after_release(
                        before.free_list@,
                        old(self).read_state.transactions@.dom(),
                    )
                },
            },
    {
        let mut write_state = match self.write_state.take() {
            Some(ws) => ws,
            None => {
                return None;
            },
        };
        let (min_transaction_id, max_transaction_id) = reader_bounds(&self.read_state.transactions);
        write_state.free_list.release(min_transaction_id, max_transaction_id);
        Some(write_state)
    }

    /// Gives the state of the writer back after a write transaction, and
    /// makes the meta record of its last commit the one that readers go
    /// by.
    pub fn release_writer(&mut self, writer: WriteState)
        requires
            old(self).write_state is None,
        ensures
            final(self).node_manager == old(self).node_manager,
            final(self).page_size == old(self).page_size,
            final(self).write_state == Some(writer),
            final(self).read_state.meta_node == writer.spec_meta(),
            final(self).read_state.transactions == old(self).read_state.transactions,
    {
        self.read_state.meta_node = *writer.meta();
        self.write_state = Some(writer);
    }

    /// Begins a write transaction, where no other holds the state of the
    /// writer and the number of its transaction fits 64 bits.
    pub fn begin_write(&mut self) -> (r: Option<WriteTransaction>)
        ensures
            final(self).node_manager == old(self).node_manager,
            final(self).read_state == old(self).read_state,
            final(self).page_size == old(self).page_size,
            match r {
                Some(tx) => {
                    &&& old(self).write_state matches Some(before)
                    &&& final(self).write_state is None
                    &&& tx.transaction_id == before.spec_meta().transaction_id + 1
                    &&& tx.root_node_id == NodeId::Address(before.spec_meta().root_node)
                    &&& tx.writer.meta_nodes == before.meta_nodes
                    &&& tx.writer.free_list_header == before.free_list_header
                    &&& tx.writer.free_list_node_address == before.free_list_node_address
                    &&& tx.writer.free_list@ == after_release(
                        before.free_list@,
                        old(self).read_state.transactions@.dom(),
                    )
                    &&& tx@.staging.nodes == Map::<u64, NodeModel>::empty()
                    &&& tx@.staging.parent == Map::<u64, u64>::empty()
                    &&& tx@.staging.next_node_id == 1
                    &&& tx@.staging.fresh()
                    &&& tx@.pending.len() == 0
                },
                None => old(self).write_state is None || (old(self).write_state matches Some(
                    before,
                ) && before.spec_meta().transaction_id == u64::MAX && final(self).write_state
                    == old(self).write_state),
            },
    {
        let exhausted = match &self.write_state {
            Some(ws) => ws.meta().transaction_id == u64::MAX,
            None => false,
        };
        if exhausted {
            return None;
        }
        match self.take_write_state() {
            Some(writer) => Some(WriteTransaction::new(writer)),
            None => None,
        }
    }

    /// Begins a read transaction on the snapshot of the last commit.
    pub fn begin_read(&mut self) -> (r: ReadTransaction)
        ensures
            final(self).node_manager == old(self).node_manager,
            final(self).write_state == old(self).write_state,
            final(self).page_size == old(self).page_size,
            final(self).read_state.meta_node == old(self).read_state.meta_node,
            r.transaction_id == old(self).read_state.meta_node.transaction_id,
            r.root_node_id == NodeId::Address(old(self).read_state.meta_node.root_node),
            final(self).read_state.transactions@.dom() == old(self).read_state.transactions@.dom().insert(r.transaction_id),
            readers_of(final(self).read_state.transactions@, r.transaction_id) == if readers_of(
                old(self).read_state.transactions@,
                r.transaction_id,
            ) < usize::MAX {
                readers_of(old(self).read_state.transactions@, r.transaction_id) + 1
            } else {
                usize::MAX as nat
            },
            forall|t: u64|
                t != r.transaction_id ==> readers_of(final(self).read_state.transactions@, t)
                    == readers_of(old(self).read_state.transactions@, t),
    {
        let root_node = self.read_state.meta_node.root_node;
        let transaction_id = self.read_state.meta_node.transaction_id;
        let count = match map_take(&mut self.read_state.transactions, transaction_id) {
            Some(n) => n,
            None => 0,
        };
        let next = if count < usize::MAX {
            count + 1
        } else {
            count
        };
        map_put(&mut self.read_state.transactions, transaction_id, next);
        assert(self.read_state.transactions@.dom() =~= old(self).read_state.transactions@.dom().insert(
            transaction_id,
        ));
        ReadTransaction::new(root_node, transaction_id)
    }

    /// Ends a read transaction on snapshot `transaction_id`. Where none is
    /// open on that snapshot nothing changes.
    pub fn release_reader(&mut self, transaction_id: TransactionId) -> (r: Result<(), Error>)
        ensures
            final(self).node_manager == old(self).node_manager,
            final(self).write_state == old(self).write_state,
            final(self).page_size == old(self).page_size,
            final(self).read_state.meta_node == old(self).read_state.meta_node,
            match r {
                Ok(()) => {
                    &&& readers_of(old(self).read_state.transactions@, transaction_id) > 0
                    &&& readers_of(final(self).read_state.transactions@, transaction_id)
                        == readers_of(old(self).read_state.transactions@, transaction_id) - 1
                    &&& final(self).read_state.transactions@.contains_key(transaction_id)
                        == (readers_of(old(self).read_state.transactions@, transaction_id) > 1)
                },
                Err(e) => e == Error::NotFound && readers_of(
                    old(self).read_state.transactions@,
                    transaction_id,
                ) == 0 && final(self).read_state.transactions@ == old(self).read_state.transactions@.remove(transaction_id),
            },
            forall|t: u64|
                t != transaction_id ==> readers_of(final(self).read_state.transactions@, t)
                    == readers_of(old(self).read_state.transactions@, t),
            forall|t: u64|
                t != transaction_id ==> final(self).read_state.transactions@.contains_key(t) == old(self).read_state.transactions@.contains_key(t),
    {
        match map_take(&mut self.read_state.transactions, transaction_id) {
            Some(count) => {
                if count == 0 {
                    Err(Error::NotFound)
                } else {
                    if count > 1 {
                        map_put(&mut self.read_state.transactions, transaction_id, count - 1);
                    }
                    Ok(())
                }
            },
            None => Err(Error::NotFound),
        }
    }
}

/// An open database.
pub struct Database {
    pub internal: DatabaseInternal,
}

impl Database {
    /// Opens the database in the file with the bytes `image`, or creates
    /// a new one where there is no file.
    pub fn open(image: Option<Vec<u8>>, options: Options) -> (r: Result<Self, Error>)
        ensures
            match (image, r) {
                (None, Ok(db)) => {
                    &&& options.spec_is_valid()
                    &&& is_initial(db.internal.node_manager@, options.page_size)
                    &&& db.internal.page_size == options.page_size
                    &&& db.internal.node_manager.page_size() == options.page_size
                    &&& db.internal.read_state.meta_node == initial_metas(options.page_size).1
                    &&& db.internal.write_state matches Some(ws) && ws.meta_nodes@[0]
                        == initial_metas(options.page_size).0 && ws.meta_nodes@[1]
                        == initial_metas(options.page_size).1 && ws.free_list_node_address
                        == initial_metas(options.page_size).0.free_list_node
                        && ws.free_list@.free == Set::<u64>::empty() && ws.free_list@.pending_free
                        == Map::<u64, Set<u64>>::empty() && ws.free_list@.pending_allocated
                        == Set::<u64>::empty() && ws.free_list_header.overflow_len == 0
                },
                (None, Err(e)) => {
                    &&& !options.spec_is_valid() ==> e == Error::InvalidArgument
                    &&& options.spec_is_valid() ==> e == Error::Io && initial_metas(
                        options.page_size,
                    ).0.end_address > usize::MAX
                },
                (Some(bytes), Ok(db)) => {
                    &&& opened(bytes@, options) matches Ok((meta, header, addresses))
                    &&& db.internal.node_manager@ == bytes@
                    &&& db.internal.page_size == meta.page_size
                    &&& db.internal.node_manager.page_size() == meta.page_size
                    &&& db.internal.read_state.meta_node == meta
                    &&& db.internal.write_state matches Some(ws) && ws.meta_nodes@[0] == meta
                        && ws.meta_nodes@[1] == meta && ws.free_list_header == header
                        && ws.free_list_node_address == meta.free_list_node
                        && ws.free_list@.free == addresses.to_set() && ws.free_list@.pending_free
                        == Map::<u64, Set<u64>>::empty() && ws.free_list@.pending_allocated
                        == Set::<u64>::empty()
                },
                (Some(bytes), Err(e)) => opened(bytes@, options) == Err::<
                    (MetaNode, NodeHeader, Seq<u64>),
                    Error,
                >(e),
            },
            r matches Ok(db) ==> db.internal.read_state.transactions@ == Map::<u64, usize>::empty(),
    {
        let internal = match image {
            None => DatabaseInternal::write_initial_state(&options),
            Some(bytes) => DatabaseInternal::read_state(bytes, &options),
        };
        match internal {
            Ok(internal) => Ok(Database { internal }),
            Err(e) => Err(e),
        }
    }

    /// Begins a write transaction, where no other is under way: it gets
    /// the state of the writer, with the retired pages that no reader can
    /// reach any more handed back to the free pages.
    pub fn begin_write(&mut self) -> (r: Option<WriteTransaction>)
        ensures
            final(self).internal.node_manager == old(self).internal.node_manager,
            final(self).internal.read_state == old(self).internal.read_state,
            final(self).internal.page_size == old(self).internal.page_size,
            match r {
                Some(tx) => {
                    &&& old(self).internal.write_state matches Some(before)
                    &&& final(self).internal.write_state is None
                    &&& tx.transaction_id == before.spec_meta().transaction_id + 1
                    &&& tx.root_node_id == NodeId::Address(before.spec_meta().root_node)
                    &&& tx.writer.meta_nodes == before.meta_nodes
                    &&& tx.writer.free_list_header == before.free_list_header
                    &&& tx.writer.free_list_node_address == before.free_list_node_address
                    &&& tx.writer.free_list@ == after_release(
                        before.free_list@,
                        old(self).internal.read_state.transactions@.dom(),
                    )
                    &&& tx@.staging.nodes == Map::<u64, NodeModel>::empty()
                    &&& tx@.staging.parent == Map::<u64, u64>::empty()
                    &&& tx@.staging.next_node_id == 1
                    &&& tx@.staging.fresh()
                    &&& tx@.pending.len() == 0
                },
                None => old(self).internal.write_state is None || (
                old(self).internal.write_state matches Some(before)
                    && before.spec_meta().transaction_id == u64::MAX
                    && final(self).internal.write_state == old(self).internal.write_state),
            },
    {
        self.internal.begin_write()
    }

    /// Begins a read transaction on the snapshot of the last commit.
    pub fn begin_read(&mut self) -> (r: ReadTransaction)
        ensures
            final(self).internal.node_manager == old(self).internal.node_manager,
            final(self).internal.write_state == old(self).internal.write_state,
            final(self).internal.page_size == old(self).internal.page_size,
            final(self).internal.read_state.meta_node == old(self).internal.read_state.meta_node,
            r.transaction_id == old(self).internal.read_state.meta_node.transaction_id,
            r.root_node_id == NodeId::Address(old(self).internal.read_state.meta_node.root_node),
            final(self).internal.read_state.transactions@.dom()
                == old(self).internal.read_state.transactions@.dom().insert(r.transaction_id),
            readers_of(final(self).internal.read_state.transactions@, r.transaction_id)
                == if readers_of(old(self).internal.read_state.transactions@, r.transaction_id)
                < usize::MAX {
                readers_of(old(self).internal.read_state.transactions@, r.transaction_id) + 1
            } else {
                usize::MAX as nat
            },
            forall|t: u64|
                t != r.transaction_id ==> readers_of(
                    final(self).internal.read_state.transactions@,
                    t,
                ) == readers_of(old(self).internal.read_state.transactions@, t),
    {
        self.internal.begin_read()
    }

    /// The file of the database.
    pub fn store(&self) -> (s: &NodeManager)
        ensures
            *s == self.internal.node_manager,
    {
        &self.internal.node_manager
    }

    /// Commits `tx` and lets the next write transaction begin. Readers
    /// that begin from now on see what was committed.
    pub fn commit(&mut self, tx: WriteTransaction) -> (r: Result<(), Error>)
        requires
            old(self).internal.write_state is None,
        ensures
            final(self).internal.write_state matches Some(writer) && match r {
                Ok(()) => {
                    &&& commit_result(
                        tx.at_work(old(self).internal.node_manager@),
                        old(self).internal.node_manager.page_size(),
                        tx.transaction_id,
                    ) matches Ok(done) && done.writer == writer@ && done.image
                        == final(self).internal.node_manager@
                    &&& committed(
                        tx.transaction_id,
                        old(self).internal.node_manager@,
                        final(self).internal.node_manager@,
                        writer,
                    ) || (final(self).internal.node_manager@ == old(self).internal.node_manager@
                        && writer == tx.writer)
                },
                Err(e) => {
                    &&& commit_result(
                        tx.at_work(old(self).internal.node_manager@),
                        old(self).internal.node_manager.page_size(),
                        tx.transaction_id,
                    ) == Err::<crate::write_model::CommitModel, Error>(e)
                    &&& aborted(
                        tx.transaction_id,
                        old(self).internal.node_manager@,
                        final(self).internal.node_manager@,
                        writer,
                    )
                },
            },
            final(self).internal.write_state matches Some(writer)
                && final(self).internal.read_state.meta_node == writer.spec_meta(),
            final(self).internal.read_state.transactions
                == old(self).internal.read_state.transactions,
            final(self).internal.page_size == old(self).internal.page_size,
    {
        let (writer, r) = tx.commit(&mut self.internal.node_manager);
        self.internal.release_writer(writer);
        r
    }

    /// Gives `tx` up and lets the next write transaction begin.
    pub fn rollback(&mut self, tx: WriteTransaction)
        requires
            old(self).internal.write_state is None,
        ensures
            final(self).internal.node_manager == old(self).internal.node_manager,
            final(self).internal.page_size == old(self).internal.page_size,
            final(self).internal.read_state.transactions
                == old(self).internal.read_state.transactions,
            final(self).internal.read_state.meta_node == tx.writer.spec_meta(),
            final(self).internal.write_state matches Some(writer) && {
                &&& writer.meta_nodes == tx.writer.meta_nodes
                &&& writer.free_list_header == tx.writer.free_list_header
                &&& writer.free_list_node_address == tx.writer.free_list_node_address
                &&& writer.free_list@ == rolled_back(tx.writer.free_list@, tx.transaction_id)
            },
    {
        let writer = tx.abandon();
        self.internal.release_writer(writer);
    }

    /// Ends the read transaction `tx`: one reader less is on record for
    /// its snapshot, and the snapshot leaves the record with its last
    /// reader. Where none is on record for it nothing changes.
    pub fn end_read(&mut self, tx: ReadTransaction) -> (r: Result<(), Error>)
        ensures
            final(self).internal.node_manager == old(self).internal.node_manager,
            final(self).internal.write_state == old(self).internal.write_state,
            final(self).internal.page_size == old(self).internal.page_size,
            final(self).internal.read_state.meta_node == old(self).internal.read_state.meta_node,
            match r {
                Ok(()) => {
                    &&& readers_of(old(self).internal.read_state.transactions@, tx.transaction_id)
                        > 0
                    &&& readers_of(final(self).internal.read_state.transactions@, tx.transaction_id)
                        == readers_of(
                        old(self).internal.read_state.transactions@,
                        tx.transaction_id,
                    ) - 1
                    &&& final(self).internal.read_state.transactions@.contains_key(
                        tx.transaction_id,
                    ) == (readers_of(
                        old(self).internal.read_state.transactions@,
                        tx.transaction_id,
                    ) > 1)
                },
                Err(e) => {
                    &&& e == Error::NotFound
                    &&& readers_of(old(self).internal.read_state.transactions@, tx.transaction_id)
                        == 0
                    &&& final(self).internal.read_state.transactions@
                        == old(self).internal.read_state.transactions@.remove(tx.transaction_id)
                },
            },
            forall|t: u64|
                t != tx.transaction_id ==> readers_of(
                    final(self).internal.read_state.transactions@,
                    t,
                ) == readers_of(old(self).internal.read_state.transactions@, t),
            forall|t: u64|
                t != tx.transaction_id
                    ==> final(self).internal.read_state.transactions@.contains_key(t)
                    == old(self).internal.read_state.transactions@.contains_key(t),
    {
        self.internal.release_reader(tx.transaction_id)
    }

    /// Gives up the database and hands out the bytes of its file.
    pub fn into_bytes(self) -> (bytes: Vec<u8>)
        ensures
            bytes@ == self.internal.node_manager@,
    {
        self.internal.node_manager.into_bytes()
    }
}

/// A leaf without entries can be written to a page and takes 18 bytes.
pub proof fn lemma_empty_leaf(page_size: nat)
    ensures
        NodeModel::Leaf(Seq::empty()).serializable(),
        NodeModel::Leaf(Seq::empty()).bytes(page_size).len() == 18,
{
    let node = NodeModel::Leaf(Seq::empty());
    let h = node.header(page_size);
    crate::format::lemma_u16_round_trip(h.flags);
    crate::format::lemma_u64_round_trip(h.internal_nodes_len);
    crate::format::lemma_u64_round_trip(h.overflow_len);
}

/// A free list without pages is written as 18 bytes.
pub proof fn lemma_empty_free_list(list: crate::free_list::FreeListModel, page_size: nat)
    requires
        list.free == Set::<u64>::empty(),
        list.pending_free == Map::<u64, Set<u64>>::empty(),
    ensures
        list.image() == Seq::<u64>::empty(),
        list.bytes(page_size).len() == 18,
{
    assert(list.all_pages() =~= Set::<u64>::empty());
    let none = Seq::<u64>::empty();
    assert(none.to_set() =~= Set::<u64>::empty());
    crate::ordered::lemma_sorted_seq_of(none, Set::<u64>::empty());
    let h = list.header(page_size);
    crate::format::lemma_u16_round_trip(h.flags);
    crate::format::lemma_u64_round_trip(h.internal_nodes_len);
    crate::format::lemma_u64_round_trip(h.overflow_len);
}

} // verus!
