use crate::error::Error;
use crate::key::copy_bytes;
use crate::merge::{adopt, MAX_STAGED_DEPTH, with_new_node, with_node, with_parents, without_node};
use crate::node::{
    BranchEntry, BranchInternalNode, InternalNodes, next_dirty, node_views, NodeId, NodeModel,
    splice_entries,
};
use crate::store::NodeManager;
use crate::tx::{TxModel, WriteTransaction};
use vstd::prelude::*;

verus! {

/// Whether a node is to be split on pages of `page_size` bytes: it takes
/// more than a page and holds at least four entries.
pub open spec fn split_candidate(node: NodeModel, page_size: u32) -> bool {
    node.size() > page_size as nat && node.len() >= 4
}

/// The transaction after the first `upto` of `pieces` were staged as
/// children of `parent_id`, each under the next number, and their staged
/// children were given them as parent; and the entries that refer to the
/// pieces, each with the first key of its piece.
pub open spec fn place_pieces(st: TxModel, pieces: Seq<NodeModel>, upto: int, parent_id: u64) -> (
    TxModel,
    Seq<BranchEntry>,
)
    decreases upto,
{
    if upto <= 0 {
        (st, Seq::empty())
    } else {
        let (before, entries) = place_pieces(st, pieces, upto - 1, parent_id);
        let piece = pieces[upto - 1];
        let id = before.staging.next_node_id;
        let staged = with_new_node(before, piece);
        (
            with_parents(staged, adopt(staged.staging.parent.insert(id, parent_id), piece, id)),
            entries.push(BranchEntry { key: piece.key_at(0), node_id: NodeId::Id(id) }),
        )
    }
}

/// Whether the staged node `node_id` stands where it is said to stand: it
/// is the root and has no parent, or it is not the root and entry
/// `node_index` of its parent, a staged branch, refers to it.
pub open spec fn has_place(st: TxModel, node_id: u64, node_index: int) -> bool {
    if st.staging.parent.contains_key(node_id) {
        let parent_id = st.staging.parent[node_id];
        &&& st.root != NodeId::Id(node_id)
        &&& parent_id != node_id
        &&& st.staging.nodes.contains_key(parent_id)
        &&& st.staging.nodes[parent_id] matches NodeModel::Branch(es) && 0 <= node_index < es.len()
            && es[node_index].node_id == NodeId::Id(node_id)
    } else {
        st.root == NodeId::Id(node_id)
    }
}

/// What splitting the staged node `node_id`, entry `node_index` of its
/// parent, for pages of `page_size` bytes does, and the number of nodes
/// that stand in its place afterwards. A node that splits into one piece
/// stays. Else the pieces are staged under new numbers and take the place
/// of the node among the entries of its parent; a root that splits gets a
/// new branch above it as the root. A node that does not stand where it
/// is said to stand is refused.
pub open spec fn split_node(st: TxModel, page_size: u32, node_id: u64, node_index: int) -> Result<
    (TxModel, int),
    Error,
> {
    if !st.staging.nodes.contains_key(node_id) {
        Err(Error::WouldCorrupt)
    } else {
        let pieces = st.staging.nodes[node_id].split(page_size as nat);
        if pieces.len() == 1 {
            Ok((with_node(st, node_id, pieces[0]), 1))
        } else if st.staging.next_node_id + pieces.len() + 1 >= u64::MAX || exists|i: int|
            0 <= i < pieces.len() && (#[trigger] pieces[i]).len() == 0 {
            Err(Error::WouldCorrupt)
        } else if !has_place(st, node_id, node_index) {
            Err(Error::WouldCorrupt)
        } else {
            let removed = without_node(st, node_id);
            let (rooted, parent_id) = if st.staging.parent.contains_key(node_id) {
                (
                    with_parents(removed, st.staging.parent.remove(node_id)),
                    st.staging.parent[node_id],
                )
            } else {
                (
                    TxModel {
                        root: NodeId::Id(st.staging.next_node_id),
                        ..with_new_node(removed, NodeModel::Branch(Seq::empty()))
                    },
                    st.staging.next_node_id,
                )
            };
            let (placed, entries) = place_pieces(rooted, pieces, pieces.len() as int, parent_id);
            if !placed.staging.nodes.contains_key(parent_id) {
                Err(Error::WouldCorrupt)
            } else {
                match placed.staging.nodes[parent_id] {
                    NodeModel::Leaf(_) => Err(Error::WouldCorrupt),
                    NodeModel::Branch(es) => {
                        if !(0 <= node_index < es.len() || (node_index == 0 && es.len() == 0)) {
                            Err(Error::WouldCorrupt)
                        } else {
                            Ok(
                                (
                                    with_node(
                                        placed,
                                        parent_id,
                                        NodeModel::Branch(splice_entries(es, node_index, entries)),
                                    ),
                                    pieces.len() as int,
                                ),
                            )
                        }
                    },
                }
            }
        }
    }
}

/// What splitting below the staged children of `node_id` from entry
/// `from` on does: each staged child is gone through in turn, and the
/// next child is looked for after the nodes that took its place.
/// `measure` bounds the entries that are still to be gone through.
pub open spec fn split_children(
    st: TxModel,
    page_size: u32,
    node_id: u64,
    from: int,
    depth: nat,
    measure: nat,
) -> Result<TxModel, Error>
    decreases depth, 0nat, measure,
{
    if !st.staging.nodes.contains_key(node_id) {
        Err(Error::WouldCorrupt)
    } else {
        match next_dirty(st.staging.nodes[node_id], from) {
            None => Ok(st),
            Some((child, index)) => {
                if depth == 0 {
                    Err(Error::WouldCorrupt)
                } else {
                    match traverse_split(st, page_size, child, index, (depth - 1) as nat) {
                        Err(e) => Err(e),
                        Ok((after, count)) => {
                            let next_from = index + count;
                            if !after.staging.nodes.contains_key(node_id) || count < 1 {
                                Err(Error::WouldCorrupt)
                            } else {
                                let left = after.staging.nodes[node_id].len() - next_from;
                                if left < 0 || left >= measure {
                                    Err(Error::WouldCorrupt)
                                } else {
                                    split_children(
                                        after,
                                        page_size,
                                        node_id,
                                        next_from,
                                        depth,
                                        left as nat,
                                    )
                                }
                            }
                        },
                    }
                }
            },
        }
    }
}

/// What splitting in the staged tree under `node_id`, entry `node_index`
/// of its parent, does: first below its staged children, then the node
/// itself where it is to be split; and the number of nodes that stand in
/// its place afterwards. At most `depth` levels are gone down.
pub open spec fn traverse_split(st: TxModel, page_size: u32, node_id: u64, node_index: int, depth: nat) -> Result<
    (TxModel, int),
    Error,
>
    decreases depth, 1nat, 0nat,
{
    if !st.staging.nodes.contains_key(node_id) {
        Err(Error::WouldCorrupt)
    } else {
        match split_children(
            st,
            page_size,
            node_id,
            0,
            depth,
            st.staging.nodes[node_id].len(),
        ) {
            Err(e) => Err(e),
            Ok(after) => {
                if !after.staging.nodes.contains_key(node_id) {
                    Err(Error::WouldCorrupt)
                } else if split_candidate(after.staging.nodes[node_id], page_size) {
                    split_node(after, page_size, node_id, node_index)
                } else {
                    Ok((after, 1))
                }
            },
        }
    }
}

/// What splitting in the whole staged tree does: the tree is gone through
/// again as long as its root was split, at most `rounds` times more.
pub open spec fn split_all(st: TxModel, page_size: u32, rounds: nat) -> Result<TxModel, Error>
    decreases rounds,
{
    match st.root {
        NodeId::Address(_) => Ok(st),
        NodeId::Id(id) => match traverse_split(st, page_size, id, 0, 64) {
            Err(e) => Err(e),
            Ok((after, count)) => {
                if count < 2 {
                    Ok(after)
                } else if rounds == 0 {
                    Err(Error::WouldCorrupt)
                } else {
                    split_all(after, page_size, (rounds - 1) as nat)
                }
            },
        },
    }
}

/// The nodes of `v` from the last to the first.
fn reverse_nodes(v: Vec<InternalNodes>) -> (r: Vec<InternalNodes>)
    ensures
        r@.len() == v@.len(),
        forall|i: int| 0 <= i < v@.len() ==> #[trigger] r@[i] == v@[v@.len() - 1 - i],
{
    let mut v = v;
    let mut r: Vec<InternalNodes> = Vec::new();
    let ghost all = v@;
    while v.len() > 0
        invariant
            v@.len() + r@.len() == all.len(),
            v@ == all.take(v@.len() as int),
            forall|i: int| 0 <= i < r@.len() ==> #[trigger] r@[i] == all[all.len() - 1 - i],
        decreases v@.len(),
    {
        let x = v.pop().unwrap();
        r.push(x);
        assert(v@ =~= all.take(v@.len() as int));
    }
    r
}

/// Tells whether every node of `pieces` holds an entry.
fn all_hold_entries(pieces: &Vec<InternalNodes>) -> (b: bool)
    ensures
        b == (forall|i: int| 0 <= i < pieces@.len() ==> (#[trigger] node_views(pieces@)[i]).len() > 0),
{
    let mut i: usize = 0;
    while i < pieces.len()
        invariant
            i <= pieces@.len(),
            forall|k: int| 0 <= k < i ==> (#[trigger] node_views(pieces@)[k]).len() > 0,
        decreases pieces@.len() - i,
    {
        assert(node_views(pieces@)[i as int] == pieces@[i as int]@);
        if pieces[i].is_empty() {
            return false;
        }
        i += 1;
    }
    true
}

impl WriteTransaction {
    /// Stages `pieces` as children of `parent_id` and returns the entries
    /// that refer to them.
    fn place_nodes(&mut self, pieces: Vec<InternalNodes>, parent_id: u64) -> (entries: Vec<
        BranchInternalNode,
    >)
        requires
            old(self)@.staging.next_node_id + pieces@.len() < u64::MAX,
            forall|i: int| 0 <= i < pieces@.len() ==> (#[trigger] node_views(pieces@)[i]).len() > 0,
        ensures
            final(self).transaction_id == old(self).transaction_id,
            final(self).writer == old(self).writer,
            (final(self)@, crate::node::branch_entries(entries@)) == place_pieces(
                old(self)@,
                node_views(pieces@),
                pieces@.len() as int,
                parent_id,
            ),
    {
        let ghost models = node_views(pieces@);
        let n = pieces.len();
        let mut rest = reverse_nodes(pieces);
        let mut entries: Vec<BranchInternalNode> = Vec::new();
        let mut done: usize = 0;
        assert(crate::node::branch_entries(entries@) =~= Seq::<BranchEntry>::empty());
        while done < n
            invariant
                done <= n,
                n == models.len(),
                rest@.len() == n - done,
                forall|i: int| 0 <= i < rest@.len() ==> (#[trigger] rest@[i])@ == models[n - 1 - i],
                forall|i: int| 0 <= i < n ==> (#[trigger] models[i]).len() > 0,
                self.transaction_id == old(self).transaction_id,
                self.writer == old(self).writer,
                old(self)@.staging.next_node_id + n < u64::MAX,
                self@.staging.next_node_id == old(self)@.staging.next_node_id + done,
                (self@, crate::node::branch_entries(entries@)) == place_pieces(
                    old(self)@,
                    models,
                    done as int,
                    parent_id,
                ),
            decreases n - done,
        {
            let piece = rest.pop().unwrap();
            assert(piece@ == models[done as int]);
            let key = copy_bytes(piece.key_at(0));
            let ghost before = self@;
            let ghost parents = self@.staging.parent;
            let copy_for_children = piece.duplicate();
            let child_id = self.staging.insert_new(piece);
            self.staging.insert_parent(child_id, parent_id);
            self.adopt_children_of(&copy_for_children, child_id);
            let entry = BranchInternalNode { key, node_id: NodeId::Id(child_id) };
            proof {
                crate::node::lemma_branch_entries_push(entries@, entry);
            }
            entries.push(entry);
            done += 1;
        }
        proof {
            assert(models.len() == pieces@.len());
        }
        entries
    }

    /// Gives the staged children among the entries of `node` the parent
    /// `new_parent`.
    fn adopt_children_of(&mut self, node: &InternalNodes, new_parent: u64)
        ensures
            final(self)@ == with_parents(
                old(self)@,
                adopt(old(self)@.staging.parent, node@, new_parent),
            ),
            final(self).transaction_id == old(self).transaction_id,
            final(self).writer == old(self).writer,
    {
        self.adopt_children(node, new_parent)
    }

    /// Splits the staged node `node_id`, entry `node_index` of its parent,
    /// into pieces that fit a page, and returns the number of nodes that
    /// stand in its place afterwards.
    pub fn split_node(&mut self, store: &NodeManager, node_id: u64, node_index: usize) -> (r: Result<
        usize,
        Error,
    >)
        ensures
            final(self).transaction_id == old(self).transaction_id,
            final(self).writer == old(self).writer,
            match r {
                Ok(count) => split_node(old(self)@, store.page_size(), node_id, node_index as int)
                    == Ok::<(TxModel, int), Error>((final(self)@, count as int)),
                Err(e) => split_node(old(self)@, store.page_size(), node_id, node_index as int)
                    == Err::<(TxModel, int), Error>(e),
            },
    {
        let node = match self.staging.take_node(node_id) {
            Some(n) => n,
            None => {
                return Err(Error::WouldCorrupt);
            },
        };
        let ghost whole = node@;
        let mut pieces = node.split(store.page_size() as u64);
        let ghost models = node_views(pieces@);
        assert(models.len() == pieces@.len());
        if pieces.len() == 1 {
            let only = pieces.pop().unwrap();
            assert(only@ == models[0]);
            self.staging.put_node(node_id, only);
            assert(self@.staging.nodes =~= old(self)@.staging.nodes.insert(node_id, models[0]));
            return Ok(1);
        }
        let count = pieces.len();
        if count as u64 >= u64::MAX - 1 || self.staging.next_id() >= u64::MAX - 1 - (count as u64) {
            return Err(Error::WouldCorrupt);
        }
        if !all_hold_entries(&pieces) {
            return Err(Error::WouldCorrupt);
        }
        let ghost removed = without_node(old(self)@, node_id);
        assert(self@ == removed);
        let is_root = match self.root_node_id {
            NodeId::Id(id) => id == node_id,
            NodeId::Address(_) => false,
        };
        let placed_well = match self.staging.parent_of(node_id) {
            None => is_root,
            Some(p) => !is_root && p != node_id && match self.staging.node(p) {
                Some(parent) => {
                    proof {
                        if parent is Branch && node_index < parent@.len() {
                            let nodes = parent->Branch_0;
                            assert(parent@->Branch_0[node_index as int] == nodes@[node_index as int]@);
                        }
                    }
                    match parent.as_branch() {
                        Some(nodes) => node_index < nodes.len() && match nodes[node_index].node_id {
                            NodeId::Id(id) => id == node_id,
                            NodeId::Address(_) => false,
                        },
                        None => false,
                    }
                },
                None => false,
            },
        };
        if !placed_well {
            return Err(Error::WouldCorrupt);
        }
        let parent_id = match self.staging.remove_parent(node_id) {
            Some(p) => p,
            None => {
                let parent = InternalNodes::Branch(Vec::new());
                assert(parent@ == NodeModel::Branch(Seq::empty())) by {
                    assert(crate::node::branch_entries(Seq::empty()) =~= Seq::empty());
                }
                proof {
                    assert(self@.staging.parent =~= old(self)@.staging.parent);
                }
                let id = self.staging.insert_new(parent);
                self.root_node_id = NodeId::Id(id);
                id
            },
        };
        let ghost rooted = self@;
        let entries = self.place_nodes(pieces, parent_id);
        let ghost placed = self@;
        let ok = match self.staging.node(parent_id) {
            Some(parent) => !parent.is_leaf() && (node_index < parent.len() || (node_index == 0
                && parent.len() == 0)),
            None => false,
        };
        if !ok {
            return Err(Error::WouldCorrupt);
        }
        let mut parent = self.staging.take_node(parent_id).unwrap();
        parent.splice(node_index, entries);
        self.staging.put_node(parent_id, parent);
        proof {
            let want = split_node(old(self)@, store.page_size(), node_id, node_index as int);
            assert(self@.staging.nodes =~= with_node(
                placed,
                parent_id,
                NodeModel::Branch(
                    splice_entries(
                        placed.staging.nodes[parent_id]->Branch_0,
                        node_index as int,
                        crate::node::branch_entries(entries@),
                    ),
                ),
            ).staging.nodes);
        }
        Ok(count)
    }

    /// Splits in the staged tree under `node_id`, entry `node_index` of
    /// its parent: first below its staged children, then the node itself
    /// where it takes more than a page. Returns the number of nodes that
    /// stand in its place afterwards. At most `depth` levels are gone
    /// down.
    pub fn traverse_split(&mut self, store: &NodeManager, node_id: u64, node_index: usize, depth: usize) -> (r:
        Result<usize, Error>)
        ensures
            final(self).transaction_id == old(self).transaction_id,
            final(self).writer == old(self).writer,
            match r {
                Ok(count) => traverse_split(
                    old(self)@,
                    store.page_size(),
                    node_id,
                    node_index as int,
                    depth as nat,
                ) == Ok::<(TxModel, int), Error>((final(self)@, count as int)),
                Err(e) => traverse_split(
                    old(self)@,
                    store.page_size(),
                    node_id,
                    node_index as int,
                    depth as nat,
                ) == Err::<(TxModel, int), Error>(e),
            },
        decreases depth,
    {
        let mut measure: usize = match self.staging.node(node_id) {
            Some(node) => node.len(),
            None => {
                return Err(Error::WouldCorrupt);
            },
        };
        let mut from: usize = 0;
        loop
            invariant
                self.transaction_id == old(self).transaction_id,
                self.writer == old(self).writer,
                split_children(
                    old(self)@,
                    store.page_size(),
                    node_id,
                    0,
                    depth as nat,
                    old(self)@.staging.nodes[node_id].len(),
                ) == split_children(
                    self@,
                    store.page_size(),
                    node_id,
                    from as int,
                    depth as nat,
                    measure as nat,
                ),
                old(self)@.staging.nodes.contains_key(node_id),
            decreases measure,
        {
            let (next, candidate) = match self.staging.node(node_id) {
                Some(node) => {
                    (
                        node.next_dirty_child(from),
                        node.size() > store.page_size() as u64 && node.len() >= 4,
                    )
                },
                None => {
                    return Err(Error::WouldCorrupt);
                },
            };
            let (child, index) = match next {
                Some(x) => x,
                None => {
                    if candidate {
                        return self.split_node(store, node_id, node_index);
                    } else {
                        return Ok(1);
                    }
                },
            };
            if depth == 0 {
                return Err(Error::WouldCorrupt);
            }
            let count = match self.traverse_split(store, child, index, depth - 1) {
                Ok(c) => c,
                Err(e) => {
                    return Err(e);
                },
            };
            let len = match self.staging.node(node_id) {
                Some(node) => node.len(),
                None => {
                    return Err(Error::WouldCorrupt);
                },
            };
            if count < 1 {
                return Err(Error::WouldCorrupt);
            }
            if len < index || len - index < count || len - index - count >= measure {
                return Err(Error::WouldCorrupt);
            }
            measure = len - index - count;
            from = index + count;
        }
    }

    /// Splits in the whole staged tree until every node that can be split
    /// fits a page.
    pub fn split(&mut self, store: &NodeManager) -> (r: Result<(), Error>)
        ensures
            final(self).transaction_id == old(self).transaction_id,
            final(self).writer == old(self).writer,
            match r {
                Ok(()) => split_all(old(self)@, store.page_size(), 64) == Ok::<TxModel, Error>(
                    final(self)@,
                ),
                Err(e) => split_all(old(self)@, store.page_size(), 64) == Err::<TxModel, Error>(e),
            },
    {
        let mut rounds: usize = MAX_STAGED_DEPTH;
        loop
            invariant
                self.transaction_id == old(self).transaction_id,
                self.writer == old(self).writer,
                split_all(old(self)@, store.page_size(), 64) == split_all(
                    self@,
                    store.page_size(),
                    rounds as nat,
                ),
            decreases rounds,
        {
            let id = match self.root_node_id {
                NodeId::Id(id) => id,
                NodeId::Address(_) => {
                    return Ok(());
                },
            };
            let count = match self.traverse_split(store, id, 0, MAX_STAGED_DEPTH) {
                Ok(c) => c,
                Err(e) => {
                    return Err(e);
                },
            };
            if count < 2 {
                return Ok(());
            }
            if rounds == 0 {
                return Err(Error::WouldCorrupt);
            }
            rounds -= 1;
        }
    }
}

} // verus!
