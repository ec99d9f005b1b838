use crate::error::Error;
use crate::node::{InternalNodes, NodeId, NodeModel};
use crate::node_codec::NodeHeader;
use crate::store::{node_at, NodeManager};
use vstd::prelude::*;

verus! {

/// What reading a node gives: the entries of the node, and the header it
/// was read with where it came from the file.
pub struct Loaded {
    pub header: Option<NodeHeader>,
    pub node: NodeModel,
}

/// A node as a cursor holds it: staged by a write transaction and
/// borrowed from it, or read from the file.
#[derive(Debug)]
pub enum Node<'a> {
    Dirty(&'a InternalNodes),
    ReadOnly(NodeHeader, InternalNodes),
}

impl<'a> View for Node<'a> {
    type V = Loaded;

    open spec fn view(&self) -> Loaded {
        match self {
            Node::Dirty(node) => Loaded { header: None, node: node@ },
            Node::ReadOnly(header, node) => Loaded { header: Some(*header), node: node@ },
        }
    }
}

impl<'a> Node<'a> {
    /// The entries of the node.
    pub fn as_ref(&self) -> (node: &InternalNodes)
        ensures
            node@ == self@.node,
    {
        match self {
            Node::Dirty(node) => node,
            Node::ReadOnly(_, node) => node,
        }
    }

    /// Whether the node is staged by a write transaction.
    pub fn is_dirty(&self) -> (b: bool)
        ensures
            b == (self@.header is None),
    {
        match self {
            Node::Dirty(_) => true,
            Node::ReadOnly(_, _) => false,
        }
    }
}

/// A source of nodes: what a cursor reads the tree through.
pub trait NodeReader {
    /// What reading the node `node_id` gives.
    spec fn loaded(&self, node_id: NodeId) -> Result<Loaded, Error>;

    /// Reads the node `node_id`.
    fn read_node(&self, node_id: NodeId) -> (r: Result<Node<'_>, Error>)
        ensures
            match r {
                Ok(node) => self.loaded(node_id) == Ok::<Loaded, Error>(node@),
                Err(e) => self.loaded(node_id) == Err::<Loaded, Error>(e),
            },
    ;
}

/// What reading the node `node_id` from the file `image` gives. Staged
/// nodes are not in the file.
pub open spec fn loaded_from_file(image: Seq<u8>, node_id: NodeId) -> Result<Loaded, Error> {
    match node_id {
        NodeId::Address(address) => match node_at(image, address as int) {
            Ok((h, node)) => Ok(Loaded { header: Some(h), node }),
            Err(e) => Err(e),
        },
        NodeId::Id(_) => Err(Error::WouldCorrupt),
    }
}

impl NodeReader for NodeManager {
    open spec fn loaded(&self, node_id: NodeId) -> Result<Loaded, Error> {
        loaded_from_file(self@, node_id)
    }

    fn read_node(&self, node_id: NodeId) -> (r: Result<Node<'_>, Error>) {
        match node_id {
            NodeId::Address(address) => {
                match NodeManager::read_node(self, address) {
                    Ok((header, node)) => Ok(Node::ReadOnly(header, node)),
                    Err(e) => Err(e),
                }
            },
            NodeId::Id(_) => Err(Error::WouldCorrupt),
        }
    }
}

} // verus!
