use crate::key::{compare_keys, copy_bytes, key_lt, key_order, KeyOrder};
use vstd::prelude::*;

verus! {

/// Byte offset of a page in the file.
pub type Address = u64;

/// Number of a transaction. It grows by one with every commit.
pub type TransactionId = u64;

/// Kind of a page that holds a branch.
pub const BRANCH_NODE: u16 = 1;

/// Kind of a page that holds a leaf.
pub const LEAF_NODE: u16 = 2;

/// Kind of a page that holds the free list.
pub const FREELIST_NODE: u16 = 3;

/// Fewest entries a piece of a split node may hold.
pub const MIN_KEYS_PER_PAGE: usize = 2;

/// Bytes that the header takes at the start of a node.
pub const NODE_HEADER_SIZE: u64 = 18;

/// Bytes that one branch entry takes besides its key.
pub const BRANCH_ENTRY_OVERHEAD: u64 = 10;

/// Bytes that one leaf entry takes besides its key and value.
pub const LEAF_ENTRY_OVERHEAD: u64 = 6;

/// `n`, or the largest 64-bit number where `n` does not fit.
pub open spec fn saturate(n: nat) -> u64 {
    if n <= u64::MAX {
        n as u64
    } else {
        u64::MAX
    }
}

/// Where a child of a branch is found: in the file, or among the nodes
/// that a write transaction has staged.
#[derive(Debug, Clone, Copy, PartialEq, Eq, Hash, Structural)]
pub enum NodeId {
    Address(Address),
    Id(u64),
}

impl NodeId {
    /// The address of a child that is in the file.
    pub fn node_address(&self) -> (a: Address)
        requires
            self is Address,
        ensures
            *self == NodeId::Address(a),
    {
        match self {
            NodeId::Address(address) => *address,
            NodeId::Id(_) => 0,
        }
    }

    /// The number of a child that is staged.
    pub fn id(&self) -> (id: u64)
        requires
            self is Id,
        ensures
            *self == NodeId::Id(id),
    {
        match self {
            NodeId::Id(id) => *id,
            NodeId::Address(_) => 0,
        }
    }
}

/// One entry of a branch: a child and the first key below it.
#[derive(Clone, Debug, PartialEq, Eq)]
pub struct BranchInternalNode {
    pub key: Vec<u8>,
    pub node_id: NodeId,
}

/// What a branch entry stands for.
pub struct BranchEntry {
    pub key: Seq<u8>,
    pub node_id: NodeId,
}

impl BranchEntry {
    /// Bytes the entry takes in a page.
    pub open spec fn size(self) -> nat {
        10 + self.key.len()
    }
}

impl View for BranchInternalNode {
    type V = BranchEntry;

    open spec fn view(&self) -> BranchEntry {
        BranchEntry { key: self.key@, node_id: self.node_id }
    }
}

impl BranchInternalNode {
    /// Bytes the entry takes in a page, or `u64::MAX` where that does not
    /// fit.
    pub fn size(&self) -> (n: u64)
        ensures
            n == saturate(self@.size()),
    {
        (self.key.len() as u64).saturating_add(BRANCH_ENTRY_OVERHEAD)
    }

    /// A copy of the entry.
    pub fn duplicate(&self) -> (out: Self)
        ensures
            out@ == self@,
    {
        BranchInternalNode { key: copy_bytes(self.key.as_slice()), node_id: self.node_id }
    }
}

/// One entry of a leaf: a key and its value.
#[derive(Clone, Debug, PartialEq, Eq)]
pub struct LeafInternalNode {
    pub key: Vec<u8>,
    pub value: Vec<u8>,
}

/// What a leaf entry stands for.
pub struct LeafEntry {
    pub key: Seq<u8>,
    pub value: Seq<u8>,
}

impl LeafEntry {
    /// Bytes the entry takes in a page.
    pub open spec fn size(self) -> nat {
        6 + self.key.len() + self.value.len()
    }
}

impl View for LeafInternalNode {
    type V = LeafEntry;

    open spec fn view(&self) -> LeafEntry {
        LeafEntry { key: self.key@, value: self.value@ }
    }
}

impl LeafInternalNode {
    /// Bytes the entry takes in a page, or `u64::MAX` where that does not
    /// fit.
    pub fn size(&self) -> (n: u64)
        ensures
            n == saturate(self@.size()),
    {
        (self.key.len() as u64).saturating_add(self.value.len() as u64).saturating_add(
            LEAF_ENTRY_OVERHEAD,
        )
    }

    /// A copy of the entry.
    pub fn duplicate(&self) -> (out: Self)
        ensures
            out@ == self@,
    {
        LeafInternalNode {
            key: copy_bytes(self.key.as_slice()),
            value: copy_bytes(self.value.as_slice()),
        }
    }
}

/// The entries that a vector of branch entries stands for.
pub open spec fn branch_entries(v: Seq<BranchInternalNode>) -> Seq<BranchEntry> {
    v.map_values(|e: BranchInternalNode| e@)
}

/// The entries that a vector of leaf entries stands for.
pub open spec fn leaf_entries(v: Seq<LeafInternalNode>) -> Seq<LeafEntry> {
    v.map_values(|e: LeafInternalNode| e@)
}

/// Bytes that the branch entries `es` take together.
pub open spec fn branch_entries_size(es: Seq<BranchEntry>) -> nat
    decreases es.len(),
{
    if es.len() == 0 {
        0
    } else {
        branch_entries_size(es.drop_last()) + es.last().size()
    }
}

/// Bytes that the leaf entries `es` take together.
pub open spec fn leaf_entries_size(es: Seq<LeafEntry>) -> nat
    decreases es.len(),
{
    if es.len() == 0 {
        0
    } else {
        leaf_entries_size(es.drop_last()) + es.last().size()
    }
}

/// The size of a branch entry, as a function.
pub open spec fn branch_size_fn() -> spec_fn(BranchEntry) -> nat {
    |e: BranchEntry| e.size()
}

/// The size of a leaf entry, as a function.
pub open spec fn leaf_size_fn() -> spec_fn(LeafEntry) -> nat {
    |e: LeafEntry| e.size()
}

/// The branches that hold the pieces `pieces`.
pub open spec fn branch_pieces(pieces: Seq<Seq<BranchEntry>>) -> Seq<NodeModel> {
    pieces.map_values(|p: Seq<BranchEntry>| NodeModel::Branch(p))
}

/// The leaves that hold the pieces `pieces`.
pub open spec fn leaf_pieces(pieces: Seq<Seq<LeafEntry>>) -> Seq<NodeModel> {
    pieces.map_values(|p: Seq<LeafEntry>| NodeModel::Leaf(p))
}

/// What each node of `v` stands for.
pub open spec fn node_views(v: Seq<InternalNodes>) -> Seq<NodeModel> {
    v.map_values(|n: InternalNodes| n@)
}

/// The pieces that `entries` are split into for pages of `threshold` bytes,
/// given the pieces `done` that are finished, the piece `cur` that is being
/// filled with `cur_size` bytes including the header, and the index `i` of
/// the next entry. A piece is closed when the next entry would take it over
/// `threshold` and it holds at least `MIN_KEYS_PER_PAGE` entries; the last
/// `MIN_KEYS_PER_PAGE` entries always go to the last piece.
pub open spec fn split_from<T>(
    entries: Seq<T>,
    size_of: spec_fn(T) -> nat,
    threshold: nat,
    i: int,
    done: Seq<Seq<T>>,
    cur: Seq<T>,
    cur_size: nat,
) -> Seq<Seq<T>>
    decreases entries.len() - i,
{
    if i < 0 || i + 2 >= entries.len() {
        done.push(cur + entries.skip(i))
    } else if cur_size + size_of(entries[i]) > threshold && cur.len() >= 2 {
        split_from(
            entries,
            size_of,
            threshold,
            i + 1,
            done.push(cur),
            seq![entries[i]],
            18 + size_of(entries[i]),
        )
    } else {
        split_from(
            entries,
            size_of,
            threshold,
            i + 1,
            done,
            cur.push(entries[i]),
            cur_size + size_of(entries[i]),
        )
    }
}

/// The pieces that `entries` are split into for pages of `threshold` bytes.
pub open spec fn split_entries<T>(entries: Seq<T>, size_of: spec_fn(T) -> nat, threshold: nat) -> Seq<
    Seq<T>,
> {
    if entries.len() <= 2 {
        seq![entries]
    } else {
        split_from(entries, size_of, threshold, 0, Seq::empty(), Seq::empty(), 18)
    }
}

/// The entries of a leaf after `entry` was put at `index`: it takes the
/// place of an entry with its key there, else it goes before that entry.
pub open spec fn put_entry(es: Seq<LeafEntry>, index: int, entry: LeafEntry) -> Seq<LeafEntry> {
    if index < es.len() && es[index].key == entry.key {
        es.update(index, entry)
    } else {
        es.insert(index, entry)
    }
}

/// The entries of a branch after `children` took the place of entry
/// `index`; in a branch without entries they are its entries.
pub open spec fn splice_entries(es: Seq<BranchEntry>, index: int, children: Seq<BranchEntry>) -> Seq<
    BranchEntry,
> {
    if es.len() == 0 {
        children
    } else {
        es.take(index) + children + es.skip(index + 1)
    }
}

/// What a node stands for: the entries of a branch or of a leaf.
pub enum NodeModel {
    Branch(Seq<BranchEntry>),
    Leaf(Seq<LeafEntry>),
}

impl NodeModel {
    /// Number of entries.
    pub open spec fn len(self) -> nat {
        match self {
            NodeModel::Branch(es) => es.len(),
            NodeModel::Leaf(es) => es.len(),
        }
    }

    /// The key of entry `i`.
    pub open spec fn key_at(self, i: int) -> Seq<u8> {
        match self {
            NodeModel::Branch(es) => es[i].key,
            NodeModel::Leaf(es) => es[i].key,
        }
    }

    /// The keys of the entries, in their order.
    pub open spec fn keys(self) -> Seq<Seq<u8>> {
        Seq::new(self.len(), |i: int| self.key_at(i))
    }

    /// Bytes the node takes in the file, header included.
    pub open spec fn size(self) -> nat {
        match self {
            NodeModel::Branch(es) => 18 + branch_entries_size(es),
            NodeModel::Leaf(es) => 18 + leaf_entries_size(es),
        }
    }

    /// Whether the node is too full to be a candidate for merging: a branch
    /// with more than two entries, a leaf with more than one.
    pub open spec fn has_min_keys(self) -> bool {
        match self {
            NodeModel::Branch(es) => es.len() > 2,
            NodeModel::Leaf(es) => es.len() > 1,
        }
    }

    /// Whether the keys of the node grow strictly from entry to entry.
    pub open spec fn sorted(self) -> bool {
        forall|i: int, j: int| 0 <= i < j < self.len() ==> key_lt(self.key_at(i), self.key_at(j))
    }

    /// The node with the entries of `other`, a node of the same kind, after
    /// its own.
    pub open spec fn merge(self, other: NodeModel) -> NodeModel {
        match self {
            NodeModel::Branch(es) => NodeModel::Branch(es + other->Branch_0),
            NodeModel::Leaf(es) => NodeModel::Leaf(es + other->Leaf_0),
        }
    }

    /// The pieces the node is split into for pages of `threshold` bytes.
    pub open spec fn split(self, threshold: nat) -> Seq<NodeModel> {
        match self {
            NodeModel::Branch(es) => branch_pieces(split_entries(es, branch_size_fn(), threshold)),
            NodeModel::Leaf(es) => leaf_pieces(split_entries(es, leaf_size_fn(), threshold)),
        }
    }
}

/// The index of the first entry of `es` at or after `from` that refers to
/// a staged node; the number of entries where there is none.
pub open spec fn first_dirty(es: Seq<BranchEntry>, from: int) -> int
    decreases es.len() - from,
{
    if from < 0 || from >= es.len() {
        es.len() as int
    } else if es[from].node_id is Id {
        from
    } else {
        first_dirty(es, from + 1)
    }
}

/// The first staged child of `node` at or after entry `from`, with its
/// index.
pub open spec fn next_dirty(node: NodeModel, from: int) -> Option<(u64, int)> {
    match node {
        NodeModel::Leaf(_) => None,
        NodeModel::Branch(es) => {
            let i = first_dirty(es, from);
            if 0 <= i < es.len() && es[i].node_id is Id {
                Some((es[i].node_id->Id_0, i))
            } else {
                None
            }
        },
    }
}

/// The first staged entry at or after `from` is an entry at or after
/// `from`, or none.
pub proof fn lemma_first_dirty(es: Seq<BranchEntry>, from: int)
    requires
        0 <= from,
    ensures
        from <= first_dirty(es, from) || first_dirty(es, from) == es.len(),
        first_dirty(es, from) <= es.len(),
        first_dirty(es, from) < es.len() ==> es[first_dirty(es, from)].node_id is Id,
    decreases es.len() - from,
{
    if from < es.len() && !(es[from].node_id is Id) {
        lemma_first_dirty(es, from + 1);
    }
}

/// Where a search for `key` among `keys[lo..hi]` by halving ends: whether
/// the key was met, and the index at which it stands or the index at which
/// the search ran out.
pub open spec fn search_keys(keys: Seq<Seq<u8>>, key: Seq<u8>, lo: int, hi: int) -> (bool, int)
    decreases hi - lo,
{
    if lo >= hi {
        (false, lo)
    } else {
        let mid = lo + (hi - lo) / 2;
        match key_order(keys[mid], key) {
            KeyOrder::Equal => (true, mid),
            KeyOrder::Less => search_keys(keys, key, mid + 1, hi),
            KeyOrder::Greater => search_keys(keys, key, lo, mid),
        }
    }
}

/// The entries of a node, held in memory.
#[derive(Debug, Clone)]
pub enum InternalNodes {
    Branch(Vec<BranchInternalNode>),
    Leaf(Vec<LeafInternalNode>),
}

impl View for InternalNodes {
    type V = NodeModel;

    open spec fn view(&self) -> NodeModel {
        match self {
            InternalNodes::Branch(v) => NodeModel::Branch(branch_entries(v@)),
            InternalNodes::Leaf(v) => NodeModel::Leaf(leaf_entries(v@)),
        }
    }
}

/// The entries of a vector with one more entry at its end.
pub proof fn lemma_branch_entries_push(v: Seq<BranchInternalNode>, e: BranchInternalNode)
    ensures
        branch_entries(v.push(e)) == branch_entries(v).push(e@),
{
    assert(branch_entries(v.push(e)) =~= branch_entries(v).push(e@));
}

/// The entries of a vector with one more entry at its end.
pub proof fn lemma_leaf_entries_push(v: Seq<LeafInternalNode>, e: LeafInternalNode)
    ensures
        leaf_entries(v.push(e)) == leaf_entries(v).push(e@),
{
    assert(leaf_entries(v.push(e)) =~= leaf_entries(v).push(e@));
}

/// What a vector of nodes with one more node at its end stands for.
pub proof fn lemma_node_views_push(v: Seq<InternalNodes>, n: InternalNodes)
    ensures
        node_views(v.push(n)) == node_views(v).push(n@),
{
    assert(node_views(v.push(n)) =~= node_views(v).push(n@));
}

/// Taking away the last entry takes away its size.
pub proof fn lemma_branch_size_push(es: Seq<BranchEntry>, e: BranchEntry)
    ensures
        branch_entries_size(es.push(e)) == branch_entries_size(es) + e.size(),
{
    assert(es.push(e).drop_last() =~= es);
}

/// Taking away the last entry takes away its size.
pub proof fn lemma_leaf_size_push(es: Seq<LeafEntry>, e: LeafEntry)
    ensures
        leaf_entries_size(es.push(e)) == leaf_entries_size(es) + e.size(),
{
    assert(es.push(e).drop_last() =~= es);
}

impl InternalNodes {
    /// Bytes the node takes in the file, header included, or `u64::MAX`
    /// where that does not fit.
    pub fn size(&self) -> (n: u64)
        ensures
            n == saturate(self@.size()),
    {
        let mut total: u64 = NODE_HEADER_SIZE;
        match self {
            InternalNodes::Branch(nodes) => {
                let mut i: usize = 0;
                assert(branch_entries(nodes@).take(0) =~= Seq::<BranchEntry>::empty());
                while i < nodes.len()
                    invariant
                        i <= nodes@.len(),
                        total == saturate(18 + branch_entries_size(branch_entries(nodes@).take(i as int))),
                    decreases nodes@.len() - i,
                {
                    proof {
                        let es = branch_entries(nodes@);
                        assert(es.take(i + 1) =~= es.take(i as int).push(es[i as int]));
                        lemma_branch_size_push(es.take(i as int), es[i as int]);
                    }
                    total = total.saturating_add(nodes[i].size());
                    i += 1;
                }
                assert(branch_entries(nodes@).take(i as int) =~= branch_entries(nodes@));
            },
            InternalNodes::Leaf(nodes) => {
                let mut i: usize = 0;
                assert(leaf_entries(nodes@).take(0) =~= Seq::<LeafEntry>::empty());
                while i < nodes.len()
                    invariant
                        i <= nodes@.len(),
                        total == saturate(18 + leaf_entries_size(leaf_entries(nodes@).take(i as int))),
                    decreases nodes@.len() - i,
                {
                    proof {
                        let es = leaf_entries(nodes@);
                        assert(es.take(i + 1) =~= es.take(i as int).push(es[i as int]));
                        lemma_leaf_size_push(es.take(i as int), es[i as int]);
                    }
                    total = total.saturating_add(nodes[i].size());
                    i += 1;
                }
                assert(leaf_entries(nodes@).take(i as int) =~= leaf_entries(nodes@));
            },
        }
        total
    }

    /// Number of entries.
    pub fn len(&self) -> (n: usize)
        ensures
            n == self@.len(),
    {
        match self {
            InternalNodes::Branch(nodes) => nodes.len(),
            InternalNodes::Leaf(nodes) => nodes.len(),
        }
    }

    /// The key of entry `index`.
    pub fn key_at(&self, index: usize) -> (key: &[u8])
        requires
            index < self@.len(),
        ensures
            key@ == self@.key_at(index as int),
    {
        match self {
            InternalNodes::Branch(nodes) => nodes[index].key.as_slice(),
            InternalNodes::Leaf(nodes) => nodes[index].key.as_slice(),
        }
    }

    /// Whether the node holds no entry.
    pub fn is_empty(&self) -> (b: bool)
        ensures
            b == (self@.len() == 0),
    {
        self.len() == 0
    }

    /// The first entry of a branch that has one.
    pub fn first_child(&self) -> (r: Option<&BranchInternalNode>)
        ensures
            match r {
                Some(e) => self@ matches NodeModel::Branch(es) && es.len() > 0 && e@ == es[0],
                None => self@ is Leaf || self@.len() == 0,
            },
    {
        match self {
            InternalNodes::Branch(nodes) => {
                if nodes.len() > 0 {
                    Some(&nodes[0])
                } else {
                    None
                }
            },
            InternalNodes::Leaf(_) => None,
        }
    }

    /// The first staged child at or after `start_index`, with its index.
    pub fn next_dirty_child(&self, start_index: usize) -> (r: Option<(u64, usize)>)
        ensures
            match r {
                Some((id, index)) => next_dirty(self@, start_index as int) == Some(
                    (id, index as int),
                ),
                None => next_dirty(self@, start_index as int) == None::<(u64, int)>,
            },
            match r {
                Some((id, index)) => {
                    &&& self@ matches NodeModel::Branch(es)
                    &&& start_index <= index < es.len()
                    &&& es[index as int].node_id == NodeId::Id(id)
                    &&& forall|j: int| start_index <= j < index ==> es[j].node_id is Address
                },
                None => self@ matches NodeModel::Branch(es) ==> forall|j: int|
                    start_index <= j < es.len() ==> es[j].node_id is Address,
            },
    {
        if let InternalNodes::Branch(nodes) = self {
            let mut i: usize = start_index;
            while i < nodes.len()
                invariant
                    start_index <= i,
                    self@ == NodeModel::Branch(branch_entries(nodes@)),
                    first_dirty(branch_entries(nodes@), start_index as int) == first_dirty(
                        branch_entries(nodes@),
                        i as int,
                    ) || (i >= nodes@.len() && first_dirty(
                        branch_entries(nodes@),
                        start_index as int,
                    ) == nodes@.len()),
                    forall|j: int|
                        start_index <= j < i && j < nodes@.len() ==> branch_entries(
                            nodes@,
                        )[j].node_id is Address,
                decreases nodes@.len() - i,
            {
                assert(branch_entries(nodes@)[i as int] == nodes@[i as int]@);
                if let NodeId::Id(id) = nodes[i].node_id {
                    return Some((id, i));
                }
                i += 1;
            }
        }
        None
    }

    /// The entries of a branch.
    pub fn as_branch(&self) -> (r: Option<&Vec<BranchInternalNode>>)
        ensures
            match r {
                Some(nodes) => *self == InternalNodes::Branch(*nodes),
                None => self is Leaf,
            },
    {
        match self {
            InternalNodes::Branch(nodes) => Some(nodes),
            InternalNodes::Leaf(_) => None,
        }
    }

    /// Whether the node is too full to be a candidate for merging.
    pub fn has_min_keys(&self) -> (b: bool)
        ensures
            b == self@.has_min_keys(),
    {
        match self {
            InternalNodes::Branch(nodes) => nodes.len() > 2,
            InternalNodes::Leaf(nodes) => nodes.len() > 1,
        }
    }

    /// Whether the node is a leaf.
    pub fn is_leaf(&self) -> (b: bool)
        ensures
            b == (self@ is Leaf),
    {
        match self {
            InternalNodes::Branch(_) => false,
            InternalNodes::Leaf(_) => true,
        }
    }

    /// A copy of the node.
    pub fn duplicate(&self) -> (out: Self)
        ensures
            out@ == self@,
    {
        match self {
            InternalNodes::Branch(nodes) => {
                let mut v: Vec<BranchInternalNode> = Vec::with_capacity(nodes.len());
                let mut i: usize = 0;
                while i < nodes.len()
                    invariant
                        i <= nodes@.len(),
                        branch_entries(v@) == branch_entries(nodes@).take(i as int),
                    decreases nodes@.len() - i,
                {
                    let e = nodes[i].duplicate();
                    proof {
                        lemma_branch_entries_push(v@, e);
                        let es = branch_entries(nodes@);
                        assert(es.take(i + 1) =~= es.take(i as int).push(es[i as int]));
                    }
                    v.push(e);
                    i += 1;
                }
                assert(branch_entries(nodes@).take(i as int) =~= branch_entries(nodes@));
                InternalNodes::Branch(v)
            },
            InternalNodes::Leaf(nodes) => {
                let mut v: Vec<LeafInternalNode> = Vec::with_capacity(nodes.len());
                let mut i: usize = 0;
                while i < nodes.len()
                    invariant
                        i <= nodes@.len(),
                        leaf_entries(v@) == leaf_entries(nodes@).take(i as int),
                    decreases nodes@.len() - i,
                {
                    let e = nodes[i].duplicate();
                    proof {
                        lemma_leaf_entries_push(v@, e);
                        let es = leaf_entries(nodes@);
                        assert(es.take(i + 1) =~= es.take(i as int).push(es[i as int]));
                    }
                    v.push(e);
                    i += 1;
                }
                assert(leaf_entries(nodes@).take(i as int) =~= leaf_entries(nodes@));
                InternalNodes::Leaf(v)
            },
        }
    }

    /// Takes entry `index` out of a branch.
    pub fn remove_child_at(&mut self, index: usize)
        requires
            old(self)@ is Branch,
            index < old(self)@.len(),
        ensures
            final(self)@ == NodeModel::Branch(old(self)@->Branch_0.remove(index as int)),
    {
        match self {
            InternalNodes::Branch(nodes) => {
                let ghost before = nodes@;
                nodes.remove(index);
                assert(branch_entries(nodes@) =~= branch_entries(before).remove(index as int));
            },
            InternalNodes::Leaf(_) => {},
        }
    }

    /// Takes entry `index` out of a leaf.
    pub fn remove_entry_at(&mut self, index: usize)
        requires
            old(self)@ is Leaf,
            index < old(self)@.len(),
        ensures
            final(self)@ == NodeModel::Leaf(old(self)@->Leaf_0.remove(index as int)),
    {
        match self {
            InternalNodes::Leaf(nodes) => {
                let ghost before = nodes@;
                nodes.remove(index);
                assert(leaf_entries(nodes@) =~= leaf_entries(before).remove(index as int));
            },
            InternalNodes::Branch(_) => {},
        }
    }

    /// Puts `key` with `value` into a leaf at `index`: where entry `index`
    /// has that key its value is replaced, else a new entry goes before it.
    pub fn put_entry_at(&mut self, index: usize, key: Vec<u8>, value: Vec<u8>)
        requires
            old(self)@ is Leaf,
            index <= old(self)@.len(),
        ensures
            final(self)@ == NodeModel::Leaf(
                put_entry(old(self)@->Leaf_0, index as int, LeafEntry { key: key@, value: value@ }),
            ),
    {
        match self {
            InternalNodes::Leaf(nodes) => {
                let ghost before = nodes@;
                let ghost entry = LeafEntry { key: key@, value: value@ };
                if index < nodes.len() && crate::key::keys_equal(
                    nodes[index].key.as_slice(),
                    key.as_slice(),
                ) {
                    assert(leaf_entries(before)[index as int] == before[index as int]@);
                    nodes.set(index, LeafInternalNode { key, value });
                    assert(leaf_entries(nodes@) =~= leaf_entries(before).update(index as int, entry));
                } else {
                    proof {
                        if index < before.len() {
                            assert(leaf_entries(before)[index as int] == before[index as int]@);
                        }
                    }
                    nodes.insert(index, LeafInternalNode { key, value });
                    assert(leaf_entries(nodes@) =~= leaf_entries(before).insert(index as int, entry));
                }
            },
            InternalNodes::Branch(_) => {},
        }
    }

    /// Moves the entries of `other` to the end of this node.
    pub fn merge(&mut self, other: InternalNodes)
        requires
            old(self)@ is Branch <==> other@ is Branch,
        ensures
            final(self)@ == old(self)@.merge(other@),
    {
        match (self, other) {
            (InternalNodes::Branch(self_nodes), InternalNodes::Branch(mut other_nodes)) => {
                let ghost a = self_nodes@;
                let ghost b = other_nodes@;
                self_nodes.append(&mut other_nodes);
                assert(branch_entries(self_nodes@) =~= branch_entries(a) + branch_entries(b));
            },
            (InternalNodes::Leaf(self_nodes), InternalNodes::Leaf(mut other_nodes)) => {
                let ghost a = self_nodes@;
                let ghost b = other_nodes@;
                self_nodes.append(&mut other_nodes);
                assert(leaf_entries(self_nodes@) =~= leaf_entries(a) + leaf_entries(b));
            },
            _ => {},
        }
    }

    /// Puts `child_nodes` in the place of entry `index` of a branch. In a
    /// branch without entries they become its entries.
    pub fn splice(&mut self, index: usize, child_nodes: Vec<BranchInternalNode>)
        requires
            old(self)@ is Branch,
            index < old(self)@.len() || (index == 0 && old(self)@.len() == 0),
        ensures
            final(self)@ == NodeModel::Branch(
                splice_entries(old(self)@->Branch_0, index as int, branch_entries(child_nodes@)),
            ),
    {
        match self {
            InternalNodes::Branch(nodes) => {
                let ghost before = nodes@;
                let mut child_nodes = child_nodes;
                let ghost children = child_nodes@;
                if nodes.len() == 0 {
                    nodes.append(&mut child_nodes);
                    assert(nodes@ =~= children);
                } else {
                    let mut tail = nodes.split_off(index + 1);
                    let ghost tail_before = tail@;
                    assert(tail_before =~= before.skip(index + 1));
                    nodes.truncate(index);
                    assert(nodes@ =~= before.take(index as int));
                    nodes.append(&mut child_nodes);
                    nodes.append(&mut tail);
                    assert(nodes@ =~= before.take(index as int) + children + before.skip(index + 1));
                    assert(branch_entries(nodes@) =~= branch_entries(before).take(index as int)
                        + branch_entries(children) + branch_entries(before).skip(index + 1));
                }
            },
            InternalNodes::Leaf(_) => {},
        }
    }

    /// Points entry `child_index` of a branch, which is a staged child, at
    /// the page where that child was written.
    pub fn set_page_address(&mut self, child_index: usize, child_page_address: Address)
        requires
            old(self)@ matches NodeModel::Branch(es) && child_index < es.len()
                && es[child_index as int].node_id is Id,
        ensures
            final(self)@ == NodeModel::Branch(
                old(self)@->Branch_0.update(
                    child_index as int,
                    BranchEntry {
                        key: old(self)@->Branch_0[child_index as int].key,
                        node_id: NodeId::Address(child_page_address),
                    },
                ),
            ),
    {
        self.set_child_id(child_index, NodeId::Address(child_page_address));
    }

    /// Points entry `child_index` of a branch at `node_id`.
    pub fn set_child_id(&mut self, child_index: usize, node_id: NodeId)
        requires
            old(self)@ is Branch,
            child_index < old(self)@.len(),
        ensures
            final(self)@ == NodeModel::Branch(
                old(self)@->Branch_0.update(
                    child_index as int,
                    BranchEntry { key: old(self)@->Branch_0[child_index as int].key, node_id },
                ),
            ),
    {
        match self {
            InternalNodes::Branch(nodes) => {
                let ghost before = nodes@;
                assert(branch_entries(before)[child_index as int] == before[child_index as int]@);
                let key = copy_bytes(nodes[child_index].key.as_slice());
                nodes.set(child_index, BranchInternalNode { key, node_id });
                assert(branch_entries(nodes@) =~= branch_entries(before).update(
                    child_index as int,
                    BranchEntry { key: before[child_index as int].key@, node_id },
                ));
            },
            InternalNodes::Leaf(_) => {},
        }
    }

    /// Gives entry `child_index` of a branch the key `key`.
    pub fn set_child_key(&mut self, child_index: usize, key: Vec<u8>)
        requires
            old(self)@ is Branch,
            child_index < old(self)@.len(),
        ensures
            final(self)@ == NodeModel::Branch(
                old(self)@->Branch_0.update(
                    child_index as int,
                    BranchEntry {
                        key: key@,
                        node_id: old(self)@->Branch_0[child_index as int].node_id,
                    },
                ),
            ),
    {
        match self {
            InternalNodes::Branch(nodes) => {
                let ghost before = nodes@;
                assert(branch_entries(before)[child_index as int] == before[child_index as int]@);
                let node_id = nodes[child_index].node_id;
                nodes.set(child_index, BranchInternalNode { key, node_id });
                assert(branch_entries(nodes@) =~= branch_entries(before).update(
                    child_index as int,
                    BranchEntry { key: key@, node_id },
                ));
            },
            InternalNodes::Leaf(_) => {},
        }
    }

    /// Splits the node into pieces for pages of `threshold` bytes. Each
    /// piece holds at least `MIN_KEYS_PER_PAGE` entries; a node with no
    /// more entries than that stays whole.
    pub fn split(self, threshold: u64) -> (pieces: Vec<InternalNodes>)
        ensures
            node_views(pieces@) == self@.split(threshold as nat),
    {
        match self {
            InternalNodes::Branch(nodes) => Self::split_branch(nodes, threshold),
            InternalNodes::Leaf(nodes) => Self::split_leaf(nodes, threshold),
        }
    }

    /// Splits the entries of a branch into pieces for pages of `threshold`
    /// bytes.
    pub fn split_branch(internal_nodes: Vec<BranchInternalNode>, threshold: u64) -> (pieces: Vec<InternalNodes>)
        ensures
            node_views(pieces@) == NodeModel::Branch(branch_entries(internal_nodes@)).split(
                threshold as nat,
            ),
    {
        let ghost es = branch_entries(internal_nodes@);
        let n = internal_nodes.len();
        let mut result: Vec<InternalNodes> = Vec::new();
        if n <= MIN_KEYS_PER_PAGE {
            result.push(InternalNodes::Branch(internal_nodes));
            assert(node_views(result@) =~= branch_pieces(seq![es]));
            return result;
        }
        let mut size: u64 = NODE_HEADER_SIZE;
        let mut new_node: Vec<BranchInternalNode> = Vec::new();
        let ghost mut done: Seq<Seq<BranchEntry>> = Seq::empty();
        let ghost mut cur_size: nat = 18;
        let mut i: usize = 0;
        assert(node_views(result@) =~= branch_pieces(done));
        assert(branch_entries(new_node@) =~= Seq::<BranchEntry>::empty());
        while i + MIN_KEYS_PER_PAGE < n
            invariant
                n == internal_nodes@.len(),
                es == branch_entries(internal_nodes@),
                i + 2 <= n,
                size == saturate(cur_size),
                cur_size >= 18,
                node_views(result@) == branch_pieces(done),
                split_from(
                    es,
                    branch_size_fn(),
                    threshold as nat,
                    i as int,
                    done,
                    branch_entries(new_node@),
                    cur_size,
                ) == split_entries(es, branch_size_fn(), threshold as nat),
            decreases n - i,
        {
            let entry = internal_nodes[i].duplicate();
            let entry_size = entry.size();
            assert(es[i as int] == internal_nodes@[i as int]@);
            let exceeds = match size.checked_add(entry_size) {
                Some(sum) => sum > threshold,
                None => true,
            };
            proof {
                lemma_branch_entries_push(new_node@, entry);
            }
            if exceeds && new_node.len() >= MIN_KEYS_PER_PAGE {
                let mut piece: Vec<BranchInternalNode> = Vec::new();
                piece.push(entry);
                std::mem::swap(&mut piece, &mut new_node);
                proof {
                    assert(branch_pieces(done.push(branch_entries(piece@))) =~= branch_pieces(done).push(
                        NodeModel::Branch(branch_entries(piece@)),
                    ));
                    done = done.push(branch_entries(piece@));
                    cur_size = 18 + es[i as int].size();
                    assert(branch_entries(new_node@) =~= seq![es[i as int]]);
                }
                let full = InternalNodes::Branch(piece);
                proof {
                    lemma_node_views_push(result@, full);
                }
                result.push(full);
                size = NODE_HEADER_SIZE.saturating_add(entry_size);
                assert(node_views(result@) =~= branch_pieces(done));
            } else {
                new_node.push(entry);
                size = size.saturating_add(entry_size);
                proof {
                    cur_size = cur_size + es[i as int].size();
                }
            }
            i += 1;
        }
        let ghost head = branch_entries(new_node@);
        let ghost from = i as int;
        assert(es.subrange(from, i as int) =~= Seq::<BranchEntry>::empty());
        assert(head + es.subrange(from, i as int) =~= head);
        while i < n
            invariant
                n == internal_nodes@.len(),
                es == branch_entries(internal_nodes@),
                0 <= from <= i <= n,
                es.len() == n,
                node_views(result@) == branch_pieces(done),
                branch_entries(new_node@) == head + es.subrange(from, i as int),
            decreases n - i,
        {
            let entry = internal_nodes[i].duplicate();
            proof {
                lemma_branch_entries_push(new_node@, entry);
                assert(es[i as int] == internal_nodes@[i as int]@);
                assert(head + es.subrange(from, i + 1) =~= (head + es.subrange(from, i as int)).push(
                    es[i as int],
                ));
            }
            new_node.push(entry);
            i += 1;
        }
        assert(es.subrange(from, n as int) =~= es.skip(from));
        let last = InternalNodes::Branch(new_node);
        proof {
            lemma_node_views_push(result@, last);
            assert(branch_pieces(done.push(head + es.skip(from))) =~= branch_pieces(done).push(
                NodeModel::Branch(head + es.skip(from)),
            ));
        }
        result.push(last);
        result
    }

    /// Splits the entries of a leaf into pieces for pages of `threshold`
    /// bytes.
    pub fn split_leaf(internal_nodes: Vec<LeafInternalNode>, threshold: u64) -> (pieces: Vec<InternalNodes>)
        ensures
            node_views(pieces@) == NodeModel::Leaf(leaf_entries(internal_nodes@)).split(
                threshold as nat,
            ),
    {
        let ghost es = leaf_entries(internal_nodes@);
        let n = internal_nodes.len();
        let mut result: Vec<InternalNodes> = Vec::new();
        if n <= MIN_KEYS_PER_PAGE {
            result.push(InternalNodes::Leaf(internal_nodes));
            assert(node_views(result@) =~= leaf_pieces(seq![es]));
            return result;
        }
        let mut size: u64 = NODE_HEADER_SIZE;
        let mut new_node: Vec<LeafInternalNode> = Vec::new();
        let ghost mut done: Seq<Seq<LeafEntry>> = Seq::empty();
        let ghost mut cur_size: nat = 18;
        let mut i: usize = 0;
        assert(node_views(result@) =~= leaf_pieces(done));
        assert(leaf_entries(new_node@) =~= Seq::<LeafEntry>::empty());
        while i + MIN_KEYS_PER_PAGE < n
            invariant
                n == internal_nodes@.len(),
                es == leaf_entries(internal_nodes@),
                i + 2 <= n,
                size == saturate(cur_size),
                cur_size >= 18,
                node_views(result@) == leaf_pieces(done),
                split_from(
                    es,
                    leaf_size_fn(),
                    threshold as nat,
                    i as int,
                    done,
                    leaf_entries(new_node@),
                    cur_size,
                ) == split_entries(es, leaf_size_fn(), threshold as nat),
            decreases n - i,
        {
            let entry = internal_nodes[i].duplicate();
            let entry_size = entry.size();
            assert(es[i as int] == internal_nodes@[i as int]@);
            let exceeds = match size.checked_add(entry_size) {
                Some(sum) => sum > threshold,
                None => true,
            };
            proof {
                lemma_leaf_entries_push(new_node@, entry);
            }
            if exceeds && new_node.len() >= MIN_KEYS_PER_PAGE {
                let mut piece: Vec<LeafInternalNode> = Vec::new();
                piece.push(entry);
                std::mem::swap(&mut piece, &mut new_node);
                proof {
                    assert(leaf_pieces(done.push(leaf_entries(piece@))) =~= leaf_pieces(done).push(
                        NodeModel::Leaf(leaf_entries(piece@)),
                    ));
                    done = done.push(leaf_entries(piece@));
                    cur_size = 18 + es[i as int].size();
                    assert(leaf_entries(new_node@) =~= seq![es[i as int]]);
                }
                let full = InternalNodes::Leaf(piece);
                proof {
                    lemma_node_views_push(result@, full);
                }
                result.push(full);
                size = NODE_HEADER_SIZE.saturating_add(entry_size);
                assert(node_views(result@) =~= leaf_pieces(done));
            } else {
                new_node.push(entry);
                size = size.saturating_add(entry_size);
                proof {
                    cur_size = cur_size + es[i as int].size();
                }
            }
            i += 1;
        }
        let ghost head = leaf_entries(new_node@);
        let ghost from = i as int;
        assert(es.subrange(from, i as int) =~= Seq::<LeafEntry>::empty());
        assert(head + es.subrange(from, i as int) =~= head);
        while i < n
            invariant
                n == internal_nodes@.len(),
                es == leaf_entries(internal_nodes@),
                0 <= from <= i <= n,
                es.len() == n,
                node_views(result@) == leaf_pieces(done),
                leaf_entries(new_node@) == head + es.subrange(from, i as int),
            decreases n - i,
        {
            let entry = internal_nodes[i].duplicate();
            proof {
                lemma_leaf_entries_push(new_node@, entry);
                assert(es[i as int] == internal_nodes@[i as int]@);
                assert(head + es.subrange(from, i + 1) =~= (head + es.subrange(from, i as int)).push(
                    es[i as int],
                ));
            }
            new_node.push(entry);
            i += 1;
        }
        assert(es.subrange(from, n as int) =~= es.skip(from));
        let last = InternalNodes::Leaf(new_node);
        proof {
            lemma_node_views_push(result@, last);
            assert(leaf_pieces(done.push(head + es.skip(from))) =~= leaf_pieces(done).push(
                NodeModel::Leaf(head + es.skip(from)),
            ));
        }
        result.push(last);
        result
    }

    /// Searches the node for `key` by halving. Tells whether the key was
    /// met, and the index at which it stands or the search ran out.
    pub fn search(&self, key: &[u8]) -> (r: (bool, usize))
        ensures
            (r.0, r.1 as int) == search_keys(self@.keys(), key@, 0, self@.len() as int),
            r.1 <= self@.len(),
            r.0 ==> r.1 < self@.len() && self@.key_at(r.1 as int) == key@,
    {
        let mut lo: usize = 0;
        let mut hi: usize = self.len();
        while lo < hi
            invariant
                lo <= hi <= self@.len(),
                search_keys(self@.keys(), key@, 0, self@.len() as int) == search_keys(
                    self@.keys(),
                    key@,
                    lo as int,
                    hi as int,
                ),
            decreases hi - lo,
        {
            let mid = lo + (hi - lo) / 2;
            match compare_keys(self.key_at(mid), key) {
                KeyOrder::Equal => {
                    proof {
                        crate::key::lemma_key_order_equal(self@.key_at(mid as int), key@);
                    }
                    return (true, mid);
                },
                KeyOrder::Less => {
                    lo = mid + 1;
                },
                KeyOrder::Greater => {
                    hi = mid;
                },
            }
        }
        (false, lo)
    }
}

} // verus!
