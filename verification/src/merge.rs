use crate::error::Error;
use crate::node::{BranchEntry, InternalNodes, next_dirty, NodeId, NodeModel};
use crate::staging::StagingModel;
use crate::store::{node_at, NodeManager};
use crate::tx::{TxModel, WriteTransaction};
use vstd::prelude::*;

verus! {

/// Most levels of staged nodes that rebalancing and writing go down.
pub const MAX_STAGED_DEPTH: usize = 64;

/// The staged nodes with `node` staged under the next number.
pub open spec fn with_new_node(st: TxModel, node: NodeModel) -> TxModel {
    TxModel {
        staging: StagingModel {
            nodes: st.staging.nodes.insert(st.staging.next_node_id, node),
            next_node_id: (st.staging.next_node_id + 1) as u64,
            ..st.staging
        },
        ..st
    }
}

/// The transaction with `node` in the place of the staged node `id`.
pub open spec fn with_node(st: TxModel, id: u64, node: NodeModel) -> TxModel {
    TxModel { staging: StagingModel { nodes: st.staging.nodes.insert(id, node), ..st.staging }, ..st }
}

/// The transaction without the staged node `id`.
pub open spec fn without_node(st: TxModel, id: u64) -> TxModel {
    TxModel { staging: StagingModel { nodes: st.staging.nodes.remove(id), ..st.staging }, ..st }
}

/// The transaction with `parent` as the map of parents.
pub open spec fn with_parents(st: TxModel, parent: Map<u64, u64>) -> TxModel {
    TxModel { staging: StagingModel { parent, ..st.staging }, ..st }
}

/// The staged child at entry `child_index` of the staged branch
/// `node_id`, and the transaction after the child was staged: a child that
/// is in the file is read, staged under the next number with `node_id` as
/// its parent, its page is put down to be retired, and the entry is
/// pointed at the staged copy.
pub open spec fn stage_child(st: TxModel, image: Seq<u8>, node_id: u64, child_index: int) -> Result<
    (TxModel, u64),
    Error,
> {
    if !st.staging.nodes.contains_key(node_id) {
        Err(Error::WouldCorrupt)
    } else {
        match st.staging.nodes[node_id] {
            NodeModel::Leaf(_) => Err(Error::WouldCorrupt),
            NodeModel::Branch(es) => {
                if child_index < 0 || child_index >= es.len() {
                    Err(Error::WouldCorrupt)
                } else {
                    match es[child_index].node_id {
                        NodeId::Id(child) => Ok((st, child)),
                        NodeId::Address(address) => match node_at(image, address as int) {
                            Err(e) => Err(e),
                            Ok((header, child)) => {
                                if st.staging.next_node_id == u64::MAX || st.staging.next_node_id
                                    == node_id {
                                    Err(Error::WouldCorrupt)
                                } else {
                                    let id = st.staging.next_node_id;
                                    let pointed = NodeModel::Branch(
                                        es.update(
                                            child_index,
                                            BranchEntry {
                                                key: es[child_index].key,
                                                node_id: NodeId::Id(id),
                                            },
                                        ),
                                    );
                                    let staged = with_node(with_new_node(st, child), node_id, pointed);
                                    Ok(
                                        (
                                            TxModel {
                                                pending: st.pending.push((address, header)),
                                                ..with_parents(
                                                    staged,
                                                    st.staging.parent.insert(id, node_id),
                                                )
                                            },
                                            id,
                                        ),
                                    )
                                }
                            },
                        },
                    }
                }
            },
        }
    }
}

/// The map of parents after the staged children among the first `upto`
/// entries of `es` were given the parent `new_parent`.
pub open spec fn reparented(parent: Map<u64, u64>, es: Seq<BranchEntry>, upto: int, new_parent: u64) -> Map<
    u64,
    u64,
>
    decreases upto,
{
    if upto <= 0 {
        parent
    } else {
        let before = reparented(parent, es, upto - 1, new_parent);
        match es[upto - 1].node_id {
            NodeId::Id(child) => before.insert(child, new_parent),
            NodeId::Address(_) => before,
        }
    }
}

/// The map of parents after the staged children of `node` were given the
/// parent `new_parent`.
pub open spec fn adopt(parent: Map<u64, u64>, node: NodeModel, new_parent: u64) -> Map<u64, u64> {
    match node {
        NodeModel::Branch(es) => reparented(parent, es, es.len() as int, new_parent),
        NodeModel::Leaf(_) => parent,
    }
}

/// What merging the root `node_id`, a merge candidate, does: a root
/// without entries gives way to a new empty leaf; a branch with one child
/// gives way to that child, staged first where it is in the file. Tells
/// whether the root counts as merged. A node that is not the root is
/// refused.
pub open spec fn merge_root(st: TxModel, image: Seq<u8>, node_id: u64) -> Result<(TxModel, bool), Error> {
    let node = st.staging.nodes[node_id];
    if st.root != NodeId::Id(node_id) {
        Err(Error::WouldCorrupt)
    } else if node.len() == 0 {
        if st.staging.next_node_id == u64::MAX {
            Err(Error::WouldCorrupt)
        } else {
            Ok(
                (
                    TxModel {
                        root: NodeId::Id(st.staging.next_node_id),
                        ..with_new_node(st, NodeModel::Leaf(Seq::empty()))
                    },
                    false,
                ),
            )
        }
    } else if node is Branch && node.len() == 1 {
        match stage_child(st, image, node_id, 0) {
            Err(e) => Err(e),
            Ok((staged, child)) => Ok(
                (
                    TxModel {
                        root: NodeId::Id(child),
                        ..with_parents(
                            without_node(staged, node_id),
                            staged.staging.parent.remove(child),
                        )
                    },
                    true,
                ),
            ),
        }
    } else {
        Ok((st, true))
    }
}

/// What merging the staged node `node_id`, entry `node_index` of its
/// staged parent `parent_id` and a merge candidate, does. A node without
/// entries leaves the tree. Else, where the parent has another entry, the
/// node takes the entries of the next entry's node when it is the first
/// entry, and gives its own to the node of the entry before when it is
/// not; the node that gave its entries leaves the tree, and its staged
/// children get the other node as parent. Tells whether a node left. A
/// node that entry `node_index` of the parent does not refer to is
/// refused, and so is the root as one of the two nodes.
pub open spec fn merge_inner(st: TxModel, image: Seq<u8>, node_id: u64, node_index: int, parent_id: u64) -> Result<
    (TxModel, bool),
    Error,
> {
    if !st.staging.nodes.contains_key(parent_id) || !(st.staging.nodes[parent_id] is Branch)
        || node_index < 0 || node_index >= st.staging.nodes[parent_id].len()
        || st.staging.nodes[parent_id]->Branch_0[node_index].node_id != NodeId::Id(node_id)
        || st.root == NodeId::Id(node_id) || parent_id == node_id {
        Err(Error::WouldCorrupt)
    } else {
        let node = st.staging.nodes[node_id];
        let parent_entries = st.staging.nodes[parent_id]->Branch_0;
        if node.len() == 0 {
            Ok(
                (
                    with_parents(
                        with_node(
                            without_node(st, node_id),
                            parent_id,
                            NodeModel::Branch(parent_entries.remove(node_index)),
                        ),
                        st.staging.parent.remove(node_id),
                    ),
                    true,
                ),
            )
        } else if parent_entries.len() < 2 {
            Ok((st, false))
        } else {
            let sibling_index = if node_index == 0 {
                1
            } else {
                node_index - 1
            };
            match stage_child(st, image, parent_id, sibling_index) {
                Err(e) => Err(e),
                Ok((staged, sibling_id)) => {
                    if sibling_id == node_id || parent_id == sibling_id || staged.root
                        == NodeId::Id(sibling_id) || !staged.staging.nodes.contains_key(sibling_id)
                        || !staged.staging.nodes.contains_key(node_id)
                        || !staged.staging.nodes.contains_key(parent_id)
                        || (staged.staging.nodes[sibling_id] is Branch)
                        != (staged.staging.nodes[node_id] is Branch) {
                        Err(Error::WouldCorrupt)
                    } else {
                        let (keep, gone, gone_index) = if node_index == 0 {
                            (node_id, sibling_id, 1int)
                        } else {
                            (sibling_id, node_id, node_index)
                        };
                        let gone_node = staged.staging.nodes[gone];
                        let merged = staged.staging.nodes[keep].merge(gone_node);
                        let entries = staged.staging.nodes[parent_id]->Branch_0;
                        Ok(
                            (
                                with_parents(
                                    with_node(
                                        with_node(without_node(staged, gone), keep, merged),
                                        parent_id,
                                        NodeModel::Branch(entries.remove(gone_index)),
                                    ),
                                    adopt(staged.staging.parent, gone_node, keep).remove(gone),
                                ),
                                true,
                            ),
                        )
                    }
                },
            }
        }
    }
}

/// What merging the staged node `node_id`, entry `node_index` of its
/// parent and a merge candidate, does, and whether a node left the tree.
pub open spec fn merge_node(st: TxModel, image: Seq<u8>, node_id: u64, node_index: int) -> Result<
    (TxModel, bool),
    Error,
> {
    if !st.staging.nodes.contains_key(node_id) {
        Err(Error::WouldCorrupt)
    } else if !st.staging.parent.contains_key(node_id) {
        merge_root(st, image, node_id)
    } else {
        merge_inner(st, image, node_id, node_index, st.staging.parent[node_id])
    }
}

/// Whether a node is a candidate for merging on pages of `page_size`
/// bytes: it takes less than a quarter of a page, or it is a branch with
/// no more than two entries or a leaf with no more than one.
pub open spec fn merge_candidate(node: NodeModel, page_size: u32) -> bool {
    node.size() < page_size as nat / 4 || !node.has_min_keys()
}

/// What merging below the staged children of `node_id` from entry `from`
/// on does: each staged child is gone through in turn; after a child that
/// left the tree the next child stands at the same entry. `measure` bounds
/// the entries that are still to be gone through.
pub open spec fn merge_children(
    st: TxModel,
    image: Seq<u8>,
    page_size: u32,
    node_id: u64,
    from: int,
    depth: nat,
    measure: nat,
) -> Result<TxModel, Error>
    decreases depth, 0nat, measure,
{
    if !st.staging.nodes.contains_key(node_id) {
        Err(Error::WouldCorrupt)
    } else {
        match next_dirty(st.staging.nodes[node_id], from) {
            None => Ok(st),
            Some((child, index)) => {
                if depth == 0 {
                    Err(Error::WouldCorrupt)
                } else {
                    match traverse_merge(st, image, page_size, child, index, (depth - 1) as nat) {
                        Err(e) => Err(e),
                        Ok((after, merged)) => {
                            let next_from = if merged {
                                index
                            } else {
                                index + 1
                            };
                            if !after.staging.nodes.contains_key(node_id) {
                                Err(Error::WouldCorrupt)
                            } else {
                                let left = after.staging.nodes[node_id].len() - next_from;
                                if left < 0 || left >= measure {
                                    Err(Error::WouldCorrupt)
                                } else {
                                    merge_children(
                                        after,
                                        image,
                                        page_size,
                                        node_id,
                                        next_from,
                                        depth,
                                        left as nat,
                                    )
                                }
                            }
                        },
                    }
                }
            },
        }
    }
}

/// What merging in the staged tree under `node_id`, entry `node_index` of
/// its parent, does: first below its staged children, then the node
/// itself where it is a merge candidate. Tells whether the node left the
/// tree. At most `depth` levels are gone down.
pub open spec fn traverse_merge(
    st: TxModel,
    image: Seq<u8>,
    page_size: u32,
    node_id: u64,
    node_index: int,
    depth: nat,
) -> Result<(TxModel, bool), Error>
    decreases depth, 1nat, 0nat,
{
    if !st.staging.nodes.contains_key(node_id) {
        Err(Error::WouldCorrupt)
    } else {
        match merge_children(
            st,
            image,
            page_size,
            node_id,
            0,
            depth,
            st.staging.nodes[node_id].len(),
        ) {
            Err(e) => Err(e),
            Ok(after) => {
                if !after.staging.nodes.contains_key(node_id) {
                    Err(Error::WouldCorrupt)
                } else if merge_candidate(after.staging.nodes[node_id], page_size) {
                    merge_node(after, image, node_id, node_index)
                } else {
                    Ok((after, false))
                }
            },
        }
    }
}

/// What merging in the whole staged tree does.
pub open spec fn merge_all(st: TxModel, image: Seq<u8>, page_size: u32) -> Result<TxModel, Error> {
    match st.root {
        NodeId::Address(_) => Ok(st),
        NodeId::Id(id) => match traverse_merge(st, image, page_size, id, 0, 64) {
            Err(e) => Err(e),
            Ok((after, _)) => Ok(after),
        },
    }
}

impl WriteTransaction {
    /// Gives the staged children among the entries of `node` the parent
    /// `new_parent`.
    pub(crate) fn adopt_children(&mut self, node: &InternalNodes, new_parent: u64)
        ensures
            final(self)@ == with_parents(
                old(self)@,
                adopt(old(self)@.staging.parent, node@, new_parent),
            ),
            final(self).transaction_id == old(self).transaction_id,
            final(self).writer == old(self).writer,
    {
        match node {
            InternalNodes::Leaf(_) => {},
            InternalNodes::Branch(nodes) => {
                let ghost es = crate::node::branch_entries(nodes@);
                let mut i: usize = 0;
                while i < nodes.len()
                    invariant
                        i <= nodes@.len(),
                        es == crate::node::branch_entries(nodes@),
                        self@ == with_parents(
                            old(self)@,
                            reparented(old(self)@.staging.parent, es, i as int, new_parent),
                        ),
                        self.transaction_id == old(self).transaction_id,
                        self.writer == old(self).writer,
                    decreases nodes@.len() - i,
                {
                    assert(es[i as int] == nodes@[i as int]@);
                    if let NodeId::Id(child) = nodes[i].node_id {
                        self.staging.insert_parent(child, new_parent);
                    }
                    i += 1;
                }
            },
        }
    }

    /// Merges the root `node_id`, a merge candidate.
    fn merge_root_node(&mut self, store: &NodeManager, node_id: u64) -> (r: Result<bool, Error>)
        requires
            old(self)@.staging.nodes.contains_key(node_id),
        ensures
            final(self).transaction_id == old(self).transaction_id,
            final(self).writer == old(self).writer,
            match r {
                Ok(merged) => merge_root(old(self)@, store@, node_id) == Ok::<(TxModel, bool), Error>(
                    (final(self)@, merged),
                ),
                Err(e) => merge_root(old(self)@, store@, node_id) == Err::<(TxModel, bool), Error>(e),
            },
    {
        let (len, is_leaf) = match self.staging.node(node_id) {
            Some(node) => (node.len(), node.is_leaf()),
            None => (0, true),
        };
        let is_root = match self.root_node_id {
            NodeId::Id(id) => id == node_id,
            NodeId::Address(_) => false,
        };
        if !is_root {
            return Err(Error::WouldCorrupt);
        }
        if len == 0 {
            if !self.staging.has_room() {
                return Err(Error::WouldCorrupt);
            }
            let leaf = InternalNodes::Leaf(Vec::new());
            assert(leaf@ == NodeModel::Leaf(Seq::empty())) by {
                assert(crate::node::leaf_entries(Seq::empty()) =~= Seq::empty());
            }
            let id = self.staging.insert_new(leaf);
            self.root_node_id = NodeId::Id(id);
            return Ok(false);
        }
        if !is_leaf && len == 1 {
            let child = match self.get_child_at_index(store, node_id, 0) {
                Ok(c) => c,
                Err(e) => {
                    return Err(e);
                },
            };
            self.root_node_id = NodeId::Id(child);
            self.staging.remove_parent(child);
            self.staging.take_node(node_id);
            return Ok(true);
        }
        Ok(true)
    }

    /// Merges the staged node `node_id`, entry `node_index` of its staged
    /// parent `parent_id` and a merge candidate.
    fn merge_inner_node(&mut self, store: &NodeManager, node_id: u64, node_index: usize, parent_id: u64) -> (r:
        Result<bool, Error>)
        requires
            old(self)@.staging.nodes.contains_key(node_id),
        ensures
            final(self).transaction_id == old(self).transaction_id,
            final(self).writer == old(self).writer,
            match r {
                Ok(merged) => merge_inner(old(self)@, store@, node_id, node_index as int, parent_id)
                    == Ok::<(TxModel, bool), Error>((final(self)@, merged)),
                Err(e) => merge_inner(old(self)@, store@, node_id, node_index as int, parent_id)
                    == Err::<(TxModel, bool), Error>(e),
            },
    {
        let parent_len = match self.staging.node(parent_id) {
            Some(parent) => {
                let refers = match parent.as_branch() {
                    Some(nodes) => node_index < nodes.len() && match nodes[node_index].node_id {
                        NodeId::Id(id) => id == node_id,
                        NodeId::Address(_) => false,
                    },
                    None => false,
                };
                proof {
                    if parent is Branch && node_index < parent@.len() {
                        let nodes = parent->Branch_0;
                        assert(parent@->Branch_0[node_index as int] == nodes@[node_index as int]@);
                    }
                }
                if !refers {
                    return Err(Error::WouldCorrupt);
                }
                parent.len()
            },
            None => {
                return Err(Error::WouldCorrupt);
            },
        };
        let node_is_root = match self.root_node_id {
            NodeId::Id(id) => id == node_id,
            NodeId::Address(_) => false,
        };
        if node_is_root || parent_id == node_id {
            return Err(Error::WouldCorrupt);
        }
        let node_len = match self.staging.node(node_id) {
            Some(node) => node.len(),
            None => 0,
        };
        if node_len == 0 {
            self.staging.remove_parent(node_id);
            self.staging.take_node(node_id);
            match self.staging.take_node(parent_id) {
                Some(mut parent) => {
                    if !parent.is_leaf() && node_index < parent.len() {
                        parent.remove_child_at(node_index);
                    }
                    self.staging.put_node(parent_id, parent);
                },
                None => {},
            }
            proof {
                let want = merge_inner(old(self)@, store@, node_id, node_index as int, parent_id);
                if parent_id == node_id {
                    assert(self@.staging.nodes =~= want->Ok_0.0.staging.nodes);
                } else {
                    assert(self@.staging.nodes =~= want->Ok_0.0.staging.nodes);
                }
            }
            return Ok(true);
        }
        if parent_len < 2 {
            return Ok(false);
        }
        let sibling_index = if node_index == 0 {
            1
        } else {
            node_index - 1
        };
        let sibling_id = match self.get_child_at_index(store, parent_id, sibling_index) {
            Ok(id) => id,
            Err(e) => {
                return Err(e);
            },
        };
        let ghost staged = self@;
        let sibling_is_root = match self.root_node_id {
            NodeId::Id(id) => id == sibling_id,
            NodeId::Address(_) => false,
        };
        if sibling_id == node_id || parent_id == sibling_id || sibling_is_root {
            return Err(Error::WouldCorrupt);
        }
        let kinds_match = match (self.staging.node(sibling_id), self.staging.node(node_id)) {
            (Some(a), Some(b)) => a.is_leaf() == b.is_leaf(),
            _ => false,
        };
        let parent_ok = match self.staging.node(parent_id) {
            Some(_) => true,
            None => false,
        };
        if !kinds_match || !parent_ok {
            return Err(Error::WouldCorrupt);
        }
        let (keep, gone, gone_index) = if node_index == 0 {
            (node_id, sibling_id, 1usize)
        } else {
            (sibling_id, node_id, node_index)
        };
        let gone_node = self.staging.take_node(gone).unwrap();
        self.adopt_children(&gone_node, keep);
        let mut keep_node = self.staging.take_node(keep).unwrap();
        keep_node.merge(gone_node);
        self.staging.put_node(keep, keep_node);
        let mut parent = self.staging.take_node(parent_id).unwrap();
        proof {
            assert(parent@ == staged.staging.nodes[parent_id]);
            assert(staged.staging.nodes[parent_id].len() == old(self)@.staging.nodes[parent_id].len());
        }
        parent.remove_child_at(gone_index);
        self.staging.put_node(parent_id, parent);
        self.staging.remove_parent(gone);
        proof {
            let want = merge_inner(old(self)@, store@, node_id, node_index as int, parent_id);
            assert(self@.staging.nodes =~= want->Ok_0.0.staging.nodes);
            assert(self@.staging.parent =~= want->Ok_0.0.staging.parent);
        }
        Ok(true)
    }

    /// Merges the staged node `node_id`, entry `node_index` of its parent
    /// and a merge candidate, with a neighbour, or removes it where it
    /// holds nothing. Tells whether a node left the tree.
    pub fn merge_node(&mut self, store: &NodeManager, node_id: u64, node_index: usize) -> (r: Result<
        bool,
        Error,
    >)
        ensures
            final(self).transaction_id == old(self).transaction_id,
            final(self).writer == old(self).writer,
            match r {
                Ok(merged) => merge_node(old(self)@, store@, node_id, node_index as int) == Ok::<
                    (TxModel, bool),
                    Error,
                >((final(self)@, merged)),
                Err(e) => merge_node(old(self)@, store@, node_id, node_index as int) == Err::<
                    (TxModel, bool),
                    Error,
                >(e),
            },
    {
        if self.staging.node(node_id).is_none() {
            return Err(Error::WouldCorrupt);
        }
        match self.staging.parent_of(node_id) {
            None => self.merge_root_node(store, node_id),
            Some(parent_id) => self.merge_inner_node(store, node_id, node_index, parent_id),
        }
    }

    /// Merges in the staged tree under `node_id`, entry `node_index` of
    /// its parent: first below its staged children, then the node itself
    /// where it is a merge candidate. Tells whether the node left the
    /// tree. At most `depth` levels are gone down.
    pub fn traverse_merge(&mut self, store: &NodeManager, node_id: u64, node_index: usize, depth: usize) -> (r:
        Result<bool, Error>)
        ensures
            final(self).transaction_id == old(self).transaction_id,
            final(self).writer == old(self).writer,
            match r {
                Ok(merged) => traverse_merge(
                    old(self)@,
                    store@,
                    store.page_size(),
                    node_id,
                    node_index as int,
                    depth as nat,
                ) == Ok::<(TxModel, bool), Error>((final(self)@, merged)),
                Err(e) => traverse_merge(
                    old(self)@,
                    store@,
                    store.page_size(),
                    node_id,
                    node_index as int,
                    depth as nat,
                ) == Err::<(TxModel, bool), Error>(e),
            },
        decreases depth,
    {
        let mut measure: usize = match self.staging.node(node_id) {
            Some(node) => node.len(),
            None => {
                return Err(Error::WouldCorrupt);
            },
        };
        let mut from: usize = 0;
        loop
            invariant
                self.transaction_id == old(self).transaction_id,
                self.writer == old(self).writer,
                merge_children(
                    old(self)@,
                    store@,
                    store.page_size(),
                    node_id,
                    0,
                    depth as nat,
                    old(self)@.staging.nodes[node_id].len(),
                ) == merge_children(
                    self@,
                    store@,
                    store.page_size(),
                    node_id,
                    from as int,
                    depth as nat,
                    measure as nat,
                ),
                old(self)@.staging.nodes.contains_key(node_id),
            decreases measure,
        {
            let (next, candidate) = match self.staging.node(node_id) {
                Some(node) => {
                    let len = node.len();
                    (
                        node.next_dirty_child(from),
                        node.size() < (store.page_size() as u64) / 4 || !node.has_min_keys(),
                    )
                },
                None => {
                    return Err(Error::WouldCorrupt);
                },
            };
            let (child, index) = match next {
                Some(x) => x,
                None => {
                    if candidate {
                        return self.merge_node(store, node_id, node_index);
                    } else {
                        return Ok(false);
                    }
                },
            };
            if depth == 0 {
                return Err(Error::WouldCorrupt);
            }
            let merged = match self.traverse_merge(store, child, index, depth - 1) {
                Ok(m) => m,
                Err(e) => {
                    return Err(e);
                },
            };
            let next_from = if merged {
                index
            } else {
                index + 1
            };
            let len = match self.staging.node(node_id) {
                Some(node) => node.len(),
                None => {
                    return Err(Error::WouldCorrupt);
                },
            };
            if len < next_from || len - next_from >= measure {
                return Err(Error::WouldCorrupt);
            }
            measure = len - next_from;
            from = next_from;
        }
    }

    /// Merges in the whole staged tree: nodes that hold too little are
    /// joined with a neighbour, nodes that hold nothing are removed.
    pub fn merge(&mut self, store: &NodeManager) -> (r: Result<(), Error>)
        ensures
            final(self).transaction_id == old(self).transaction_id,
            final(self).writer == old(self).writer,
            match r {
                Ok(()) => merge_all(old(self)@, store@, store.page_size()) == Ok::<TxModel, Error>(
                    final(self)@,
                ),
                Err(e) => merge_all(old(self)@, store@, store.page_size()) == Err::<TxModel, Error>(e),
            },
    {
        if let NodeId::Id(node_id) = self.root_node_id {
            match self.traverse_merge(store, node_id, 0, MAX_STAGED_DEPTH) {
                Ok(_) => Ok(()),
                Err(e) => Err(e),
            }
        } else {
            Ok(())
        }
    }

    /// The staged child at entry `child_index` of the staged branch
    /// `node_id`. A child that is in the file is staged first. Where the
    /// call fails nothing has changed.
    pub fn get_child_at_index(&mut self, store: &NodeManager, node_id: u64, child_index: usize) -> (r:
        Result<u64, Error>)
        ensures
            final(self).transaction_id == old(self).transaction_id,
            final(self).writer == old(self).writer,
            match r {
                Ok(child) => stage_child(old(self)@, store@, node_id, child_index as int) == Ok::<
                    (TxModel, u64),
                    Error,
                >((final(self)@, child)),
                Err(e) => stage_child(old(self)@, store@, node_id, child_index as int) == Err::<
                    (TxModel, u64),
                    Error,
                >(e) && final(self)@ == old(self)@,
            },
    {
        let child: NodeId = match self.staging.node(node_id) {
            None => {
                return Err(Error::WouldCorrupt);
            },
            Some(node) => match node.as_branch() {
                None => {
                    return Err(Error::WouldCorrupt);
                },
                Some(nodes) => {
                    if child_index >= nodes.len() {
                        return Err(Error::WouldCorrupt);
                    }
                    assert(crate::node::branch_entries(nodes@)[child_index as int]
                        == nodes@[child_index as int]@);
                    nodes[child_index].node_id
                },
            },
        };
        match child {
            NodeId::Id(child_node_id) => Ok(child_node_id),
            NodeId::Address(page_address) => {
                let (header, node) = match store.read_node(page_address) {
                    Ok(x) => x,
                    Err(e) => {
                        return Err(e);
                    },
                };
                if !self.staging.has_room() || self.staging.next_id() == node_id {
                    return Err(Error::WouldCorrupt);
                }
                let child_node_id = self.staging.insert_new(node);
                self.pending_free_pages.push((page_address, header));
                self.staging.insert_parent(child_node_id, node_id);
                let mut parent = self.staging.take_node(node_id).unwrap();
                parent.set_child_id(child_index, NodeId::Id(child_node_id));
                self.staging.put_node(node_id, parent);
                proof {
                    let want = stage_child(old(self)@, store@, node_id, child_index as int)->Ok_0.0;
                    assert(self@.staging.nodes =~= want.staging.nodes);
                    assert(self@.staging.parent =~= want.staging.parent);
                }
                Ok(child_node_id)
            },
        }
    }
}

} // verus!
