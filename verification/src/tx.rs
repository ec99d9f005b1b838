use crate::cursor::{Cursor, find_in, Frame, open_at, seek_in};
use crate::database::WriteState;
use crate::error::Error;
use crate::key::{copy_bytes, keys_equal};
use crate::node::{Address, NodeId, NodeModel, TransactionId};
use crate::node_codec::NodeHeader;
use crate::path::{lemma_open_complete, lemma_seek_in_complete};
use crate::reader::NodeReader;
use crate::staging::{Staged, Staging, StagingModel};
use crate::store::NodeManager;
use vstd::prelude::*;

verus! {

/// The path on which a cursor over the tree with root `root` ends when it
/// looks for `key`.
pub open spec fn locate<R: NodeReader>(r: &R, root: NodeId, key: Seq<u8>) -> Result<
    Seq<Frame>,
    Error,
> {
    match open_at(r, root) {
        Err(e) => Err(e),
        Ok(start) => seek_in(r, start, key),
    }
}

/// The path from `root` to the leaf in which `key` belongs, with the
/// index in the leaf at which the key stands or would stand.
pub open spec fn locate_leaf<R: NodeReader>(r: &R, root: NodeId, key: Seq<u8>) -> Result<
    Seq<Frame>,
    Error,
> {
    match open_at(r, root) {
        Err(e) => Err(e),
        Ok(start) => find_in(r, start, key),
    }
}

/// The value at the end of `path` where the entry there has the key
/// `key`.
pub open spec fn found_value(path: Seq<Frame>, key: Seq<u8>) -> Option<Seq<u8>> {
    if path.len() > 0 && path.last().index < path.last().len() && path.last().node.node is Leaf
        && path.last().node.node.key_at(path.last().index as int) == key {
        Some(path.last().node.node->Leaf_0[path.last().index as int].value)
    } else {
        None
    }
}

/// The value that a cursor finds under `key` in the tree with root
/// `root`.
pub open spec fn lookup<R: NodeReader>(r: &R, root: NodeId, key: Seq<u8>) -> Result<
    Option<Seq<u8>>,
    Error,
> {
    match locate(r, root, key) {
        Err(e) => Err(e),
        Ok(path) => Ok(found_value(path, key)),
    }
}

/// Whether what was found is what the tree holds under the key.
pub open spec fn same_answer(r: Result<Option<Vec<u8>>, Error>, s: Result<Option<Seq<u8>>, Error>) -> bool {
    match r {
        Ok(Some(v)) => s == Ok::<Option<Seq<u8>>, Error>(Some(v@)),
        Ok(None) => s == Ok::<Option<Seq<u8>>, Error>(None),
        Err(e) => s == Err::<Option<Seq<u8>>, Error>(e),
    }
}

/// Looks `key` up in the tree with root `root` that `reader` reads.
pub fn lookup_with<R: NodeReader>(reader: &R, root: NodeId, key: &[u8]) -> (r: Result<
    Option<Vec<u8>>,
    Error,
>)
    ensures
        same_answer(r, lookup(reader, root, key@)),
{
    let mut cursor = match Cursor::new(root, reader) {
        Ok(c) => c,
        Err(e) => {
            return Err(e);
        },
    };
    proof {
        lemma_open_complete(reader, root);
        lemma_seek_in_complete(reader, cursor@, key@);
    }
    match cursor.seek(key) {
        Ok(()) => {},
        Err(e) => {
            return Err(e);
        },
    }
    if !cursor.is_valid() || !keys_equal(cursor.key(), key) {
        return Ok(None);
    }
    Ok(Some(copy_bytes(cursor.value())))
}

/// A view of the tree as it was when the transaction began.
#[derive(Debug)]
pub struct ReadTransaction {
    pub root_node_id: NodeId,
    pub transaction_id: TransactionId,
}

impl ReadTransaction {
    /// A read transaction on the snapshot of transaction `transaction_id`,
    /// whose tree has its root at `root_node_address`.
    pub fn new(root_node_address: Address, transaction_id: TransactionId) -> (r: Self)
        ensures
            r.root_node_id == NodeId::Address(root_node_address),
            r.transaction_id == transaction_id,
    {
        ReadTransaction { root_node_id: NodeId::Address(root_node_address), transaction_id }
    }

    /// The value under `key` in the snapshot.
    pub fn get(&self, store: &NodeManager, key: &[u8]) -> (r: Result<Option<Vec<u8>>, Error>)
        ensures
            same_answer(r, lookup(store, self.root_node_id, key@)),
    {
        lookup_with(store, self.root_node_id, key)
    }

    /// A cursor over the snapshot, at its first entry.
    pub fn cursor<'a>(&self, store: &'a NodeManager) -> (r: Result<Cursor<'a, NodeManager>, Error>)
        ensures
            match r {
                Ok(cursor) => open_at(store, self.root_node_id) == Ok::<Seq<Frame>, Error>(cursor@)
                    && cursor.node_reader == store,
                Err(e) => open_at(store, self.root_node_id) == Err::<Seq<Frame>, Error>(e),
            },
    {
        Cursor::new(self.root_node_id, store)
    }
}

/// A transaction that changes the tree. Its changes are staged in memory
/// and reach the file at commit.
pub struct WriteTransaction {
    pub staging: Staging,
    pub root_node_id: NodeId,
    pub pending_free_pages: Vec<(Address, NodeHeader)>,
    pub writer: WriteState,
    pub transaction_id: TransactionId,
}

/// What a write transaction stands for, but for the state of the writer:
/// the staged nodes, the root of the tree and the pages to be retired.
pub struct TxModel {
    pub staging: StagingModel,
    pub root: NodeId,
    pub pending: Seq<(Address, NodeHeader)>,
}

impl View for WriteTransaction {
    type V = TxModel;

    open spec fn view(&self) -> TxModel {
        TxModel {
            staging: self.staging@,
            root: self.root_node_id,
            pending: self.pending_free_pages@,
        }
    }
}

impl WriteTransaction {
    /// A write transaction on top of the last commit that `writer` knows.
    pub fn new(writer: WriteState) -> (r: Self)
        requires
            writer.spec_meta().transaction_id < u64::MAX,
        ensures
            r.transaction_id == writer.spec_meta().transaction_id + 1,
            r.root_node_id == NodeId::Address(writer.spec_meta().root_node),
            r.writer == writer,
            r.pending_free_pages@.len() == 0,
            r.staging@.nodes == Map::<u64, NodeModel>::empty(),
            r.staging@.parent == Map::<u64, u64>::empty(),
            r.staging@.next_node_id == 1,
            r.staging@.fresh(),
    {
        let transaction_id = writer.meta().transaction_id + 1;
        let root_node_address = writer.meta().root_node;
        WriteTransaction {
            staging: Staging::new(),
            root_node_id: NodeId::Address(root_node_address),
            pending_free_pages: Vec::new(),
            writer,
            transaction_id,
        }
    }

    /// The value under `key` as the transaction sees it.
    pub fn get(&self, store: &NodeManager, key: &[u8]) -> (r: Result<Option<Vec<u8>>, Error>)
        ensures
            same_answer(
                r,
                lookup(&(Staged { staging: &self.staging, store }), self.root_node_id, key@),
            ),
    {
        let reader = Staged { staging: &self.staging, store };
        lookup_with(&reader, self.root_node_id, key)
    }

    /// A cursor over the tree as the transaction sees it, at its first
    /// entry.
    pub fn cursor<'a>(&self, reader: &'a Staged<'a>) -> (r: Result<Cursor<'a, Staged<'a>>, Error>)
        ensures
            match r {
                Ok(cursor) => open_at(reader, self.root_node_id) == Ok::<Seq<Frame>, Error>(
                    cursor@,
                ) && cursor.node_reader == reader,
                Err(e) => open_at(reader, self.root_node_id) == Err::<Seq<Frame>, Error>(e),
            },
    {
        Cursor::new(self.root_node_id, reader)
    }
}

} // verus!
