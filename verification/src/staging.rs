use crate::error::Error;
use crate::node::{InternalNodes, NodeId, NodeModel};
use crate::reader::{Loaded, loaded_from_file, Node, NodeReader};
use crate::store::NodeManager;
use std::collections::HashMap;
use vstd::prelude::*;

verus! {

/// What the staged nodes of a write transaction stand for.
pub struct StagingModel {
    /// The staged nodes by their number.
    pub nodes: Map<u64, NodeModel>,
    /// The staged parent of a staged node.
    pub parent: Map<u64, u64>,
    /// The number that the next staged node gets.
    pub next_node_id: u64,
}

impl StagingModel {
    /// Whether every staged node has a number below the next one to be
    /// given out.
    pub open spec fn fresh(self) -> bool {
        forall|id: u64| self.nodes.contains_key(id) ==> id < self.next_node_id
    }
}

/// The nodes that a write transaction has copied or made, held in memory
/// until commit.
pub struct Staging {
    nodes: HashMap<u64, InternalNodes>,
    parent: HashMap<u64, u64>,
    next_node_id: u64,
}

impl View for Staging {
    type V = StagingModel;

    closed spec fn view(&self) -> StagingModel {
        StagingModel {
            nodes: self.nodes@.map_values(|n: InternalNodes| n@),
            parent: self.parent@,
            next_node_id: self.next_node_id,
        }
    }
}

impl Staging {
    /// A staging area without nodes. The first node gets the number 1.
    pub fn new() -> (s: Self)
        ensures
            s@.nodes == Map::<u64, NodeModel>::empty(),
            s@.parent == Map::<u64, u64>::empty(),
            s@.next_node_id == 1,
            s@.fresh(),
    {
        let s = Staging { nodes: HashMap::new(), parent: HashMap::new(), next_node_id: 1 };
        assert(s@.nodes =~= Map::<u64, NodeModel>::empty());
        s
    }

    /// The staged node `id`.
    pub fn node(&self, id: u64) -> (r: Option<&InternalNodes>)
        ensures
            match r {
                Some(n) => self@.nodes.contains_key(id) && self@.nodes[id] == n@,
                None => !self@.nodes.contains_key(id),
            },
    {
        broadcast use vstd::std_specs::hash::group_hash_axioms;

        self.nodes.get(&id)
    }

    /// Takes the staged node `id` out of the staging area.
    pub fn take_node(&mut self, id: u64) -> (r: Option<InternalNodes>)
        ensures
            final(self)@ == (StagingModel { nodes: old(self)@.nodes.remove(id), ..old(self)@ }),
            match r {
                Some(n) => old(self)@.nodes.contains_key(id) && old(self)@.nodes[id] == n@,
                None => !old(self)@.nodes.contains_key(id),
            },
    {
        broadcast use vstd::std_specs::hash::group_hash_axioms;

        let r = self.nodes.remove(&id);
        assert(self@.nodes =~= old(self)@.nodes.remove(id));
        r
    }

    /// Puts `node` into the staging area under the number `id`.
    pub fn put_node(&mut self, id: u64, node: InternalNodes)
        ensures
            final(self)@ == (StagingModel { nodes: old(self)@.nodes.insert(id, node@), ..old(self)@ }),
    {
        broadcast use vstd::std_specs::hash::group_hash_axioms;

        self.nodes.insert(id, node);
        assert(self@.nodes =~= old(self)@.nodes.insert(id, node@));
    }

    /// Whether another number can be given out.
    pub fn has_room(&self) -> (b: bool)
        ensures
            b == (self@.next_node_id < u64::MAX),
    {
        self.next_node_id < u64::MAX
    }

    /// The number that the next staged node gets.
    pub fn next_id(&self) -> (id: u64)
        ensures
            id == self@.next_node_id,
    {
        self.next_node_id
    }

    /// Stages `node` under the next number and returns the number.
    pub fn insert_new(&mut self, node: InternalNodes) -> (id: u64)
        requires
            old(self)@.next_node_id < u64::MAX,
        ensures
            id == old(self)@.next_node_id,
            final(self)@ == (StagingModel {
                nodes: old(self)@.nodes.insert(id, node@),
                next_node_id: (id + 1) as u64,
                ..old(self)@
            }),
            old(self)@.fresh() ==> final(self)@.fresh(),
    {
        let id = self.next_node_id;
        self.next_node_id = self.next_node_id + 1;
        self.put_node(id, node);
        id
    }

    /// The staged parent of the staged node `child`.
    pub fn parent_of(&self, child: u64) -> (r: Option<u64>)
        ensures
            match r {
                Some(p) => self@.parent.contains_key(child) && self@.parent[child] == p,
                None => !self@.parent.contains_key(child),
            },
    {
        broadcast use vstd::std_specs::hash::group_hash_axioms;

        match self.parent.get(&child) {
            Some(p) => Some(*p),
            None => None,
        }
    }

    /// Puts on record that `parent_id` is the parent of `child_id`.
    pub fn insert_parent(&mut self, child_id: u64, parent_id: u64)
        ensures
            final(self)@ == (StagingModel {
                parent: old(self)@.parent.insert(child_id, parent_id),
                ..old(self)@
            }),
    {
        broadcast use vstd::std_specs::hash::group_hash_axioms;

        self.parent.insert(child_id, parent_id);
    }

    /// Forgets the parent of `child_id` and returns it.
    pub fn remove_parent(&mut self, child_id: u64) -> (r: Option<u64>)
        ensures
            final(self)@ == (StagingModel {
                parent: old(self)@.parent.remove(child_id),
                ..old(self)@
            }),
            match r {
                Some(p) => old(self)@.parent.contains_key(child_id) && old(self)@.parent[child_id]
                    == p,
                None => !old(self)@.parent.contains_key(child_id),
            },
    {
        broadcast use vstd::std_specs::hash::group_hash_axioms;

        self.parent.remove(&child_id)
    }
}

/// What reading the node `node_id` gives in a write transaction: a staged
/// node from the staging area, any other from the file.
pub open spec fn loaded_staged(staging: StagingModel, image: Seq<u8>, node_id: NodeId) -> Result<
    Loaded,
    Error,
> {
    match node_id {
        NodeId::Address(_) => loaded_from_file(image, node_id),
        NodeId::Id(id) => {
            if staging.nodes.contains_key(id) {
                Ok(Loaded { header: None, node: staging.nodes[id] })
            } else {
                Err(Error::WouldCorrupt)
            }
        },
    }
}

/// The tree as a write transaction sees it: staged nodes over the file.
pub struct Staged<'a> {
    pub staging: &'a Staging,
    pub store: &'a NodeManager,
}

impl<'a> NodeReader for Staged<'a> {
    open spec fn loaded(&self, node_id: NodeId) -> Result<Loaded, Error> {
        loaded_staged(self.staging@, self.store@, node_id)
    }

    fn read_node(&self, node_id: NodeId) -> (r: Result<Node<'_>, Error>) {
        match node_id {
            NodeId::Address(address) => {
                match self.store.read_node(address) {
                    Ok((header, node)) => Ok(Node::ReadOnly(header, node)),
                    Err(e) => Err(e),
                }
            },
            NodeId::Id(id) => {
                match self.staging.node(id) {
                    Some(node) => Ok(Node::Dirty(node)),
                    None => Err(Error::WouldCorrupt),
                }
            },
        }
    }
}

} // verus!
