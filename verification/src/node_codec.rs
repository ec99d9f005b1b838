use crate::checksum::{crc32, spec_crc32};
use crate::error::Error;
use crate::format::{
    lemma_u16_round_trip, lemma_u32_round_trip, lemma_u64_round_trip, read_u16, read_u32, read_u64,
    Reader, spec_u16_from_be, spec_u16_to_be, spec_u32_from_be, spec_u32_to_be, spec_u64_from_be,
    spec_u64_to_be, write_u16, write_u32, write_u64, Writer,
};
use crate::node::{
    Address, branch_entries, BRANCH_NODE, BranchEntry, BranchInternalNode, InternalNodes,
    leaf_entries, LEAF_NODE, LeafEntry, LeafInternalNode, lemma_branch_entries_push,
    lemma_leaf_entries_push, NodeId, NodeModel, TransactionId,
};
use vstd::prelude::*;

verus! {

/// Bytes that each of the two meta records is given at the start of the
/// file.
pub const META_PAGE_SIZE: u64 = 1024;

/// Bytes that a meta record takes.
pub const META_SIZE: usize = 40;

/// What every page of a node starts with.
#[derive(Debug, Clone, Copy, PartialEq, Eq, Structural)]
pub struct NodeHeader {
    /// The kind of the node.
    pub flags: u16,
    /// Number of entries.
    pub internal_nodes_len: u64,
    /// Number of pages the node takes after its first.
    pub overflow_len: u64,
}

/// The bytes that stand for a header.
pub open spec fn header_bytes(h: NodeHeader) -> Seq<u8> {
    spec_u16_to_be(h.flags) + spec_u64_to_be(h.internal_nodes_len) + spec_u64_to_be(h.overflow_len)
}

/// The header at the start of `s` and the bytes after it.
pub open spec fn parse_header(s: Seq<u8>) -> Result<(NodeHeader, Seq<u8>), Error> {
    if s.len() < 18 {
        Err(Error::Io)
    } else {
        Ok(
            (
                NodeHeader {
                    flags: spec_u16_from_be(s.take(2)) as u16,
                    internal_nodes_len: spec_u64_from_be(s.skip(2).take(8)) as u64,
                    overflow_len: spec_u64_from_be(s.skip(10).take(8)) as u64,
                },
                s.skip(18),
            ),
        )
    }
}

/// Pages that a node of `size` bytes takes after its first, with pages of
/// `page_size` bytes.
pub open spec fn overflow_pages(size: nat, page_size: nat) -> nat {
    if size == 0 || page_size == 0 {
        0
    } else {
        ((size - 1) / page_size as int) as nat
    }
}

/// The bytes that stand for a branch entry.
pub open spec fn branch_entry_bytes(e: BranchEntry) -> Seq<u8> {
    spec_u64_to_be(e.node_id->Address_0) + spec_u16_to_be(e.key.len() as u16) + e.key
}

/// The bytes that stand for a leaf entry.
pub open spec fn leaf_entry_bytes(e: LeafEntry) -> Seq<u8> {
    spec_u16_to_be(e.key.len() as u16) + e.key + spec_u32_to_be(e.value.len() as u32) + e.value
}

/// The bytes that stand for the branch entries `es`, one after the other.
pub open spec fn branch_entries_bytes(es: Seq<BranchEntry>) -> Seq<u8>
    decreases es.len(),
{
    if es.len() == 0 {
        Seq::empty()
    } else {
        branch_entries_bytes(es.drop_last()) + branch_entry_bytes(es.last())
    }
}

/// The bytes that stand for the leaf entries `es`, one after the other.
pub open spec fn leaf_entries_bytes(es: Seq<LeafEntry>) -> Seq<u8>
    decreases es.len(),
{
    if es.len() == 0 {
        Seq::empty()
    } else {
        leaf_entries_bytes(es.drop_last()) + leaf_entry_bytes(es.last())
    }
}

/// The branch entry at the start of `s` and the bytes after it.
#[verifier::opaque]
pub open spec fn parse_branch_entry(s: Seq<u8>) -> Result<(BranchEntry, Seq<u8>), Error> {
    if s.len() < 10 {
        Err(Error::Io)
    } else {
        let address = spec_u64_from_be(s.take(8)) as u64;
        let key_len = spec_u16_from_be(s.skip(8).take(2));
        let rest = s.skip(10);
        if rest.len() < key_len {
            Err(Error::Io)
        } else {
            Ok(
                (
                    BranchEntry { key: rest.take(key_len), node_id: NodeId::Address(address) },
                    rest.skip(key_len),
                ),
            )
        }
    }
}

/// The leaf entry at the start of `s` and the bytes after it.
#[verifier::opaque]
pub open spec fn parse_leaf_entry(s: Seq<u8>) -> Result<(LeafEntry, Seq<u8>), Error> {
    if s.len() < 2 {
        Err(Error::Io)
    } else {
        let key_len = spec_u16_from_be(s.take(2));
        let s1 = s.skip(2);
        if s1.len() < key_len {
            Err(Error::Io)
        } else {
            let s2 = s1.skip(key_len);
            if s2.len() < 4 {
                Err(Error::Io)
            } else {
                let value_len = spec_u32_from_be(s2.take(4));
                let s3 = s2.skip(4);
                if s3.len() < value_len {
                    Err(Error::Io)
                } else {
                    Ok(
                        (
                            LeafEntry { key: s1.take(key_len), value: s3.take(value_len) },
                            s3.skip(value_len),
                        ),
                    )
                }
            }
        }
    }
}

/// `acc` followed by the `count` branch entries at the start of `s`, and
/// the bytes after them.
pub open spec fn parse_branch_entries(s: Seq<u8>, count: nat, acc: Seq<BranchEntry>) -> Result<
    (Seq<BranchEntry>, Seq<u8>),
    Error,
>
    decreases count,
{
    if count == 0 {
        Ok((acc, s))
    } else {
        match parse_branch_entry(s) {
            Ok((e, rest)) => parse_branch_entries(rest, (count - 1) as nat, acc.push(e)),
            Err(e) => Err(e),
        }
    }
}

/// `acc` followed by the `count` leaf entries at the start of `s`, and the
/// bytes after them.
pub open spec fn parse_leaf_entries(s: Seq<u8>, count: nat, acc: Seq<LeafEntry>) -> Result<
    (Seq<LeafEntry>, Seq<u8>),
    Error,
>
    decreases count,
{
    if count == 0 {
        Ok((acc, s))
    } else {
        match parse_leaf_entry(s) {
            Ok((e, rest)) => parse_leaf_entries(rest, (count - 1) as nat, acc.push(e)),
            Err(e) => Err(e),
        }
    }
}

/// The node at the start of `s`, with its header, and the bytes after it.
/// A header of another kind than branch or leaf is no node.
pub open spec fn parse_node(s: Seq<u8>) -> Result<(NodeHeader, NodeModel, Seq<u8>), Error> {
    match parse_header(s) {
        Err(e) => Err(e),
        Ok((h, rest)) => {
            if h.flags == BRANCH_NODE {
                match parse_branch_entries(rest, h.internal_nodes_len as nat, Seq::empty()) {
                    Ok((es, after)) => Ok((h, NodeModel::Branch(es), after)),
                    Err(e) => Err(e),
                }
            } else if h.flags == LEAF_NODE {
                match parse_leaf_entries(rest, h.internal_nodes_len as nat, Seq::empty()) {
                    Ok((es, after)) => Ok((h, NodeModel::Leaf(es), after)),
                    Err(e) => Err(e),
                }
            } else {
                Err(Error::Corruption)
            }
        },
    }
}

impl NodeModel {
    /// Whether the node can be written to a page: every key fits a 16-bit
    /// length and every value a 32-bit one, every child of a branch is in
    /// the file, and the size fits 64 bits.
    pub open spec fn serializable(self) -> bool {
        &&& self.size() < u64::MAX
        &&& match self {
            NodeModel::Branch(es) => forall|i: int|
                0 <= i < es.len() ==> (#[trigger] es[i]).key.len() <= u16::MAX
                    && es[i].node_id is Address,
            NodeModel::Leaf(es) => forall|i: int|
                0 <= i < es.len() ==> (#[trigger] es[i]).key.len() <= u16::MAX
                    && es[i].value.len() <= u32::MAX,
        }
    }

    /// The header that the node is written with on pages of `page_size`
    /// bytes.
    pub open spec fn header(self, page_size: nat) -> NodeHeader {
        NodeHeader {
            flags: if self is Branch {
                BRANCH_NODE
            } else {
                LEAF_NODE
            },
            internal_nodes_len: self.len() as u64,
            overflow_len: overflow_pages(self.size(), page_size) as u64,
        }
    }

    /// The bytes that stand for the entries of the node.
    pub open spec fn entries_bytes(self) -> Seq<u8> {
        match self {
            NodeModel::Branch(es) => branch_entries_bytes(es),
            NodeModel::Leaf(es) => leaf_entries_bytes(es),
        }
    }

    /// The bytes that stand for the node on pages of `page_size` bytes.
    pub open spec fn bytes(self, page_size: nat) -> Seq<u8> {
        header_bytes(self.header(page_size)) + self.entries_bytes()
    }
}

impl NodeHeader {
    /// Reads a header. Where fewer bytes are left than a header takes,
    /// nothing is read.
    pub fn read(reader: &mut Reader) -> (r: Result<Self, Error>)
        ensures
            match r {
                Ok(h) => parse_header(old(reader)@) == Ok::<(NodeHeader, Seq<u8>), Error>(
                    (h, final(reader)@),
                ),
                Err(e) => parse_header(old(reader)@) == Err::<(NodeHeader, Seq<u8>), Error>(e)
                    && final(reader)@ == old(reader)@,
            },
    {
        if reader.remaining() < 18 {
            return Err(Error::Io);
        }
        let ghost s = reader@;
        let flags = match read_u16(reader) {
            Ok(v) => v,
            Err(e) => {
                return Err(e);
            },
        };
        let internal_nodes_len = match read_u64(reader) {
            Ok(v) => v,
            Err(e) => {
                return Err(e);
            },
        };
        let overflow_len = match read_u64(reader) {
            Ok(v) => v,
            Err(e) => {
                return Err(e);
            },
        };
        proof {
            assert(s.skip(2).skip(8) =~= s.skip(10));
            assert(s.skip(10).skip(8) =~= s.skip(18));
        }
        Ok(NodeHeader { flags, internal_nodes_len, overflow_len })
    }

    /// Writes the header.
    pub fn write(&self, writer: &mut Writer)
        ensures
            final(writer)@ == old(writer)@ + header_bytes(*self),
    {
        write_u16(writer, self.flags);
        write_u64(writer, self.internal_nodes_len);
        write_u64(writer, self.overflow_len);
        assert(writer@ =~= old(writer)@ + header_bytes(*self));
    }

    /// Bytes that a header takes.
    pub fn size() -> (n: u64)
        ensures
            n == 18,
    {
        18
    }
}

impl BranchInternalNode {
    /// Reads a branch entry. Where the bytes left do not hold one, nothing
    /// is read.
    pub fn read(reader: &mut Reader) -> (r: Result<Self, Error>)
        ensures
            match r {
                Ok(entry) => parse_branch_entry(old(reader)@) == Ok::<(BranchEntry, Seq<u8>), Error>(
                    (entry@, final(reader)@),
                ),
                Err(e) => parse_branch_entry(old(reader)@) == Err::<(BranchEntry, Seq<u8>), Error>(
                    e,
                ) && final(reader)@ == old(reader)@,
            },
    {
        reveal(parse_branch_entry);
        let saved = *reader;
        let ghost s = reader@;
        if reader.remaining() < 10 {
            return Err(Error::Io);
        }
        let address = match read_u64(reader) {
            Ok(v) => v,
            Err(e) => {
                return Err(e);
            },
        };
        let key_len = match read_u16(reader) {
            Ok(v) => v,
            Err(e) => {
                return Err(e);
            },
        };
        proof {
            assert(s.skip(8).skip(2) =~= s.skip(10));
        }
        match reader.read_bytes(key_len as usize) {
            Ok(key) => Ok(BranchInternalNode { key, node_id: NodeId::Address(address) }),
            Err(e) => {
                *reader = saved;
                Err(e)
            },
        }
    }

    /// Writes the entry, whose child is in the file and whose key fits a
    /// 16-bit length.
    pub fn write(&self, writer: &mut Writer) -> (n: u64)
        requires
            self@.node_id is Address,
            self@.key.len() <= u16::MAX,
        ensures
            final(writer)@ == old(writer)@ + branch_entry_bytes(self@),
            n == self@.size(),
    {
        write_u64(writer, self.node_id.node_address());
        write_u16(writer, self.key.len() as u16);
        writer.write_all(self.key.as_slice());
        assert(writer@ =~= old(writer)@ + branch_entry_bytes(self@));
        self.key.len() as u64 + 10
    }
}

impl LeafInternalNode {
    /// Reads a leaf entry. Where the bytes left do not hold one, nothing is
    /// read.
    pub fn read(reader: &mut Reader) -> (r: Result<Self, Error>)
        ensures
            match r {
                Ok(entry) => parse_leaf_entry(old(reader)@) == Ok::<(LeafEntry, Seq<u8>), Error>(
                    (entry@, final(reader)@),
                ),
                Err(e) => parse_leaf_entry(old(reader)@) == Err::<(LeafEntry, Seq<u8>), Error>(e)
                    && final(reader)@ == old(reader)@,
            },
    {
        reveal(parse_leaf_entry);
        let saved = *reader;
        let key_len = match read_u16(reader) {
            Ok(v) => v,
            Err(e) => {
                return Err(e);
            },
        };
        let key = match reader.read_bytes(key_len as usize) {
            Ok(v) => v,
            Err(e) => {
                *reader = saved;
                return Err(e);
            },
        };
        let value_len = match read_u32(reader) {
            Ok(v) => v,
            Err(e) => {
                *reader = saved;
                return Err(e);
            },
        };
        match reader.read_bytes(value_len as usize) {
            Ok(value) => Ok(LeafInternalNode { key, value }),
            Err(e) => {
                *reader = saved;
                Err(e)
            },
        }
    }

    /// Writes the entry, whose key fits a 16-bit length and whose value a
    /// 32-bit one.
    pub fn write(&self, writer: &mut Writer)
        requires
            self@.key.len() <= u16::MAX,
            self@.value.len() <= u32::MAX,
        ensures
            final(writer)@ == old(writer)@ + leaf_entry_bytes(self@),
    {
        write_u16(writer, self.key.len() as u16);
        writer.write_all(self.key.as_slice());
        write_u32(writer, self.value.len() as u32);
        writer.write_all(self.value.as_slice());
        assert(writer@ =~= old(writer)@ + leaf_entry_bytes(self@));
    }
}

/// The bytes of branch entries with one more entry at their end.
pub proof fn lemma_branch_bytes_push(es: Seq<BranchEntry>, e: BranchEntry)
    ensures
        branch_entries_bytes(es.push(e)) == branch_entries_bytes(es) + branch_entry_bytes(e),
{
    assert(es.push(e).drop_last() =~= es);
}

/// The bytes of leaf entries with one more entry at their end.
pub proof fn lemma_leaf_bytes_push(es: Seq<LeafEntry>, e: LeafEntry)
    ensures
        leaf_entries_bytes(es.push(e)) == leaf_entries_bytes(es) + leaf_entry_bytes(e),
{
    assert(es.push(e).drop_last() =~= es);
}

impl InternalNodes {
    /// Tells whether the node can be written to a page.
    pub fn is_serializable(&self) -> (b: bool)
        ensures
            b == self@.serializable(),
    {
        if self.size() == u64::MAX {
            return false;
        }
        match self {
            InternalNodes::Branch(nodes) => {
                let mut i: usize = 0;
                while i < nodes.len()
                    invariant
                        i <= nodes@.len(),
                        self@ == NodeModel::Branch(branch_entries(nodes@)),
                        forall|j: int|
                            0 <= j < i ==> (#[trigger] branch_entries(nodes@)[j]).key.len()
                                <= u16::MAX && branch_entries(nodes@)[j].node_id is Address,
                    decreases nodes@.len() - i,
                {
                    assert(branch_entries(nodes@)[i as int] == nodes@[i as int]@);
                    let fits = nodes[i].key.len() <= 0xffff;
                    let stored = match nodes[i].node_id {
                        NodeId::Address(_) => true,
                        NodeId::Id(_) => false,
                    };
                    if !fits || !stored {
                        return false;
                    }
                    i += 1;
                }
                true
            },
            InternalNodes::Leaf(nodes) => {
                let mut i: usize = 0;
                while i < nodes.len()
                    invariant
                        i <= nodes@.len(),
                        self@ == NodeModel::Leaf(leaf_entries(nodes@)),
                        forall|j: int|
                            0 <= j < i ==> (#[trigger] leaf_entries(nodes@)[j]).key.len()
                                <= u16::MAX && leaf_entries(nodes@)[j].value.len() <= u32::MAX,
                    decreases nodes@.len() - i,
                {
                    assert(leaf_entries(nodes@)[i as int] == nodes@[i as int]@);
                    if nodes[i].key.len() > 0xffff || nodes[i].value.len() > 0xffff_ffff {
                        return false;
                    }
                    i += 1;
                }
                true
            },
        }
    }

    /// Reads a node with its header. Where the bytes left do not hold a
    /// node, nothing is read.
    pub fn read(reader: &mut Reader) -> (r: Result<(NodeHeader, Self), Error>)
        ensures
            match r {
                Ok((h, node)) => parse_node(old(reader)@) == Ok::<
                    (NodeHeader, NodeModel, Seq<u8>),
                    Error,
                >((h, node@, final(reader)@)),
                Err(e) => parse_node(old(reader)@) == Err::<(NodeHeader, NodeModel, Seq<u8>), Error>(
                    e,
                ) && final(reader)@ == old(reader)@,
            },
    {
        let saved = *reader;
        let header = match NodeHeader::read(reader) {
            Ok(h) => h,
            Err(e) => {
                return Err(e);
            },
        };
        let ghost body = reader@;
        let count = header.internal_nodes_len;
        if header.flags == BRANCH_NODE {
            let mut nodes: Vec<BranchInternalNode> = Vec::new();
            let mut i: u64 = 0;
            assert(branch_entries(nodes@) =~= Seq::<BranchEntry>::empty());
            while i < count
                invariant
                    i <= count,
                    saved@ == old(reader)@,
                    parse_header(old(reader)@) == Ok::<(NodeHeader, Seq<u8>), Error>((header, body)),
                    header.flags == BRANCH_NODE,
                    count == header.internal_nodes_len,
                    parse_branch_entries(body, count as nat, Seq::empty()) == parse_branch_entries(
                        reader@,
                        (count - i) as nat,
                        branch_entries(nodes@),
                    ),
                decreases count - i,
            {
                match BranchInternalNode::read(reader) {
                    Ok(entry) => {
                        proof {
                            lemma_branch_entries_push(nodes@, entry);
                        }
                        nodes.push(entry);
                    },
                    Err(e) => {
                        *reader = saved;
                        return Err(e);
                    },
                }
                i += 1;
            }
            return Ok((header, InternalNodes::Branch(nodes)));
        }
        if header.flags == LEAF_NODE {
            let mut nodes: Vec<LeafInternalNode> = Vec::new();
            let mut i: u64 = 0;
            assert(leaf_entries(nodes@) =~= Seq::<LeafEntry>::empty());
            while i < count
                invariant
                    i <= count,
                    saved@ == old(reader)@,
                    parse_header(old(reader)@) == Ok::<(NodeHeader, Seq<u8>), Error>((header, body)),
                    header.flags == LEAF_NODE,
                    count == header.internal_nodes_len,
                    parse_leaf_entries(body, count as nat, Seq::empty()) == parse_leaf_entries(
                        reader@,
                        (count - i) as nat,
                        leaf_entries(nodes@),
                    ),
                decreases count - i,
            {
                match LeafInternalNode::read(reader) {
                    Ok(entry) => {
                        proof {
                            lemma_leaf_entries_push(nodes@, entry);
                        }
                        nodes.push(entry);
                    },
                    Err(e) => {
                        *reader = saved;
                        return Err(e);
                    },
                }
                i += 1;
            }
            return Ok((header, InternalNodes::Leaf(nodes)));
        }
        *reader = saved;
        Err(Error::Corruption)
    }

    /// Writes the node with its header for pages of `page_size` bytes, and
    /// returns the header. A node that cannot be written to a page, and a
    /// page size of zero, are refused and nothing is written.
    pub fn write(&self, writer: &mut Writer, page_size: u64) -> (r: Result<NodeHeader, Error>)
        ensures
            match r {
                Ok(h) => self@.serializable() && page_size > 0 && h == self@.header(
                    page_size as nat,
                ) && final(writer)@ == old(writer)@ + self@.bytes(page_size as nat),
                Err(e) => !(self@.serializable() && page_size > 0) && e == Error::InvalidArgument
                    && final(writer)@ == old(writer)@,
            },
    {
        if page_size == 0 || !self.is_serializable() {
            return Err(Error::InvalidArgument);
        }
        let node_header = self.write_header(writer, page_size);
        let ghost start = writer@;
        match self {
            InternalNodes::Branch(nodes) => {
                let mut i: usize = 0;
                assert(branch_entries(nodes@).take(0) =~= Seq::<BranchEntry>::empty());
                assert(start + Seq::<u8>::empty() =~= start);
                while i < nodes.len()
                    invariant
                        i <= nodes@.len(),
                        self@ == NodeModel::Branch(branch_entries(nodes@)),
                        self@.serializable(),
                        writer@ == start + branch_entries_bytes(
                            branch_entries(nodes@).take(i as int),
                        ),
                    decreases nodes@.len() - i,
                {
                    proof {
                        let es = branch_entries(nodes@);
                        assert(es[i as int] == nodes@[i as int]@);
                        assert(es.take(i + 1) =~= es.take(i as int).push(es[i as int]));
                        lemma_branch_bytes_push(es.take(i as int), es[i as int]);
                    }
                    nodes[i].write(writer);
                    i += 1;
                    assert(writer@ =~= start + branch_entries_bytes(
                        branch_entries(nodes@).take(i as int),
                    ));
                }
                assert(branch_entries(nodes@).take(i as int) =~= branch_entries(nodes@));
            },
            InternalNodes::Leaf(nodes) => {
                let mut i: usize = 0;
                assert(leaf_entries(nodes@).take(0) =~= Seq::<LeafEntry>::empty());
                assert(start + Seq::<u8>::empty() =~= start);
                while i < nodes.len()
                    invariant
                        i <= nodes@.len(),
                        self@ == NodeModel::Leaf(leaf_entries(nodes@)),
                        self@.serializable(),
                        writer@ == start + leaf_entries_bytes(leaf_entries(nodes@).take(i as int)),
                    decreases nodes@.len() - i,
                {
                    proof {
                        let es = leaf_entries(nodes@);
                        assert(es[i as int] == nodes@[i as int]@);
                        assert(es.take(i + 1) =~= es.take(i as int).push(es[i as int]));
                        lemma_leaf_bytes_push(es.take(i as int), es[i as int]);
                    }
                    nodes[i].write(writer);
                    i += 1;
                    assert(writer@ =~= start + leaf_entries_bytes(
                        leaf_entries(nodes@).take(i as int),
                    ));
                }
                assert(leaf_entries(nodes@).take(i as int) =~= leaf_entries(nodes@));
            },
        }
        assert(writer@ =~= old(writer)@ + self@.bytes(page_size as nat));
        Ok(node_header)
    }

    /// Writes the header of the node for pages of `page_size` bytes.
    pub fn write_header(&self, writer: &mut Writer, page_size: u64) -> (h: NodeHeader)
        requires
            page_size > 0,
            self@.size() < u64::MAX,
        ensures
            h == self@.header(page_size as nat),
            final(writer)@ == old(writer)@ + header_bytes(h),
    {
        let flags = match self {
            InternalNodes::Branch(_) => BRANCH_NODE,
            InternalNodes::Leaf(_) => LEAF_NODE,
        };
        let data_size = self.size();
        let overflow_len = (data_size - 1) / page_size;
        let node_header = NodeHeader {
            flags,
            internal_nodes_len: self.len() as u64,
            overflow_len,
        };
        node_header.write(writer);
        node_header
    }
}

/// The root record of a snapshot.
#[derive(Debug, Clone, Copy, PartialEq, Eq, Structural)]
pub struct MetaNode {
    /// Bytes per page.
    pub page_size: u32,
    /// Where the root of the tree is.
    pub root_node: Address,
    /// Where the free list is.
    pub free_list_node: Address,
    /// The transaction that wrote the record.
    pub transaction_id: TransactionId,
    /// Where the used part of the file ends.
    pub end_address: Address,
}

/// The bytes that stand for the fields of a meta record.
pub open spec fn meta_fields_bytes(m: MetaNode) -> Seq<u8> {
    spec_u32_to_be(m.page_size) + spec_u64_to_be(m.root_node) + spec_u64_to_be(m.free_list_node)
        + spec_u64_to_be(m.transaction_id) + spec_u64_to_be(m.end_address)
}

/// The bytes that stand for a meta record: its fields, then the checksum
/// of their bytes.
pub open spec fn meta_bytes(m: MetaNode) -> Seq<u8> {
    meta_fields_bytes(m) + spec_u32_to_be(spec_crc32(meta_fields_bytes(m)))
}

/// The fields of the meta record at the start of `s`, which holds at least
/// 40 bytes.
pub open spec fn parse_meta_fields(s: Seq<u8>) -> MetaNode {
    MetaNode {
        page_size: spec_u32_from_be(s.take(4)) as u32,
        root_node: spec_u64_from_be(s.skip(4).take(8)) as u64,
        free_list_node: spec_u64_from_be(s.skip(12).take(8)) as u64,
        transaction_id: spec_u64_from_be(s.skip(20).take(8)) as u64,
        end_address: spec_u64_from_be(s.skip(28).take(8)) as u64,
    }
}

/// The meta record at the start of `s` and the bytes after it. A record
/// whose checksum is not that of its fields is no record.
pub open spec fn parse_meta(s: Seq<u8>) -> Result<(MetaNode, Seq<u8>), Error> {
    if s.len() < 40 {
        Err(Error::Io)
    } else {
        let m = parse_meta_fields(s);
        let stored = spec_u32_from_be(s.skip(36).take(4)) as u32;
        if stored == spec_crc32(meta_fields_bytes(m)) {
            Ok((m, s.skip(40)))
        } else {
            Err(Error::Corruption)
        }
    }
}

impl MetaNode {
    /// Bytes that a meta record takes.
    pub fn size() -> (n: usize)
        ensures
            n == 40,
    {
        META_SIZE
    }

    /// Bytes that each of the two meta records is given in the file.
    pub fn page_size() -> (n: u64)
        ensures
            n == 1024,
    {
        META_PAGE_SIZE
    }

    /// Accepts the record when the checksum `stored` with it is the
    /// checksum `computed` from its fields.
    pub fn verify(self, stored: u32, computed: u32) -> (r: Result<MetaNode, Error>)
        ensures
            stored == computed ==> r == Ok::<MetaNode, Error>(self),
            stored != computed ==> r == Err::<MetaNode, Error>(Error::Corruption),
    {
        if stored == computed {
            Ok(self)
        } else {
            Err(Error::Corruption)
        }
    }

    /// Writes the fields of the record.
    fn write_fields(&self, writer: &mut Writer)
        ensures
            final(writer)@ == old(writer)@ + meta_fields_bytes(*self),
    {
        write_u32(writer, self.page_size);
        write_u64(writer, self.root_node);
        write_u64(writer, self.free_list_node);
        write_u64(writer, self.transaction_id);
        write_u64(writer, self.end_address);
        assert(writer@ =~= old(writer)@ + meta_fields_bytes(*self));
    }

    /// The checksum of the fields of the record.
    pub fn checksum(&self) -> (sum: u32)
        ensures
            sum == spec_crc32(meta_fields_bytes(*self)),
    {
        let mut w = Writer::new();
        self.write_fields(&mut w);
        let bytes = w.into_inner();
        assert(bytes@ =~= meta_fields_bytes(*self));
        crc32(bytes.as_slice())
    }

    /// Reads a meta record. Where the bytes left do not hold a record with
    /// a matching checksum, nothing is read.
    pub fn read(reader: &mut Reader) -> (r: Result<Self, Error>)
        ensures
            match r {
                Ok(m) => parse_meta(old(reader)@) == Ok::<(MetaNode, Seq<u8>), Error>(
                    (m, final(reader)@),
                ),
                Err(e) => parse_meta(old(reader)@) == Err::<(MetaNode, Seq<u8>), Error>(e)
                    && final(reader)@ == old(reader)@,
            },
    {
        let saved = *reader;
        let ghost s = reader@;
        if reader.remaining() < 40 {
            return Err(Error::Io);
        }
        let page_size = match read_u32(reader) {
            Ok(v) => v,
            Err(e) => {
                return Err(e);
            },
        };
        let root_node = match read_u64(reader) {
            Ok(v) => v,
            Err(e) => {
                return Err(e);
            },
        };
        let free_list_node = match read_u64(reader) {
            Ok(v) => v,
            Err(e) => {
                return Err(e);
            },
        };
        let transaction_id = match read_u64(reader) {
            Ok(v) => v,
            Err(e) => {
                return Err(e);
            },
        };
        let end_address = match read_u64(reader) {
            Ok(v) => v,
            Err(e) => {
                return Err(e);
            },
        };
        let stored = match read_u32(reader) {
            Ok(v) => v,
            Err(e) => {
                return Err(e);
            },
        };
        proof {
            assert(s.skip(4).skip(8) =~= s.skip(12));
            assert(s.skip(12).skip(8) =~= s.skip(20));
            assert(s.skip(20).skip(8) =~= s.skip(28));
            assert(s.skip(28).skip(8) =~= s.skip(36));
            assert(s.skip(36).skip(4) =~= s.skip(40));
        }
        let meta_node = MetaNode { page_size, root_node, free_list_node, transaction_id, end_address };
        let computed = meta_node.checksum();
        match meta_node.verify(stored, computed) {
            Ok(m) => Ok(m),
            Err(e) => {
                *reader = saved;
                Err(e)
            },
        }
    }

    /// Writes the record with its checksum.
    pub fn write(&self, writer: &mut Writer)
        ensures
            final(writer)@ == old(writer)@ + meta_bytes(*self),
    {
        self.write_fields(writer);
        write_u32(writer, self.checksum());
        assert(writer@ =~= old(writer)@ + meta_bytes(*self));
    }
}

/// A header that was written is read back, whatever follows it.
pub proof fn lemma_header_round_trip(h: NodeHeader, rest: Seq<u8>)
    ensures
        parse_header(header_bytes(h) + rest) == Ok::<(NodeHeader, Seq<u8>), Error>((h, rest)),
{
    let s = header_bytes(h) + rest;
    lemma_u16_round_trip(h.flags);
    lemma_u64_round_trip(h.internal_nodes_len);
    lemma_u64_round_trip(h.overflow_len);
    assert(s.take(2) =~= spec_u16_to_be(h.flags));
    assert(s.skip(2).take(8) =~= spec_u64_to_be(h.internal_nodes_len));
    assert(s.skip(10).take(8) =~= spec_u64_to_be(h.overflow_len));
    assert(s.skip(18) =~= rest);
}

/// A branch entry that was written is read back, whatever follows it.
pub proof fn lemma_branch_entry_round_trip(e: BranchEntry, rest: Seq<u8>)
    requires
        e.node_id is Address,
        e.key.len() <= u16::MAX,
    ensures
        parse_branch_entry(branch_entry_bytes(e) + rest) == Ok::<(BranchEntry, Seq<u8>), Error>(
            (e, rest),
        ),
{
    reveal(parse_branch_entry);
    let s = branch_entry_bytes(e) + rest;
    lemma_u64_round_trip(e.node_id->Address_0);
    lemma_u16_round_trip(e.key.len() as u16);
    assert(s.take(8) =~= spec_u64_to_be(e.node_id->Address_0));
    assert(s.skip(8).take(2) =~= spec_u16_to_be(e.key.len() as u16));
    assert(s.skip(10) =~= e.key + rest);
    assert((e.key + rest).take(e.key.len() as int) =~= e.key);
    assert((e.key + rest).skip(e.key.len() as int) =~= rest);
}

/// A leaf entry that was written is read back, whatever follows it.
pub proof fn lemma_leaf_entry_round_trip(e: LeafEntry, rest: Seq<u8>)
    requires
        e.key.len() <= u16::MAX,
        e.value.len() <= u32::MAX,
    ensures
        parse_leaf_entry(leaf_entry_bytes(e) + rest) == Ok::<(LeafEntry, Seq<u8>), Error>(
            (e, rest),
        ),
{
    reveal(parse_leaf_entry);
    let s = leaf_entry_bytes(e) + rest;
    lemma_u16_round_trip(e.key.len() as u16);
    lemma_u32_round_trip(e.value.len() as u32);
    let s1 = s.skip(2);
    let s2 = s1.skip(e.key.len() as int);
    let s3 = s2.skip(4);
    assert(s.take(2) =~= spec_u16_to_be(e.key.len() as u16));
    assert(s1 =~= e.key + spec_u32_to_be(e.value.len() as u32) + e.value + rest);
    assert(s1.take(e.key.len() as int) =~= e.key);
    assert(s2 =~= spec_u32_to_be(e.value.len() as u32) + e.value + rest);
    assert(s2.take(4) =~= spec_u32_to_be(e.value.len() as u32));
    assert(s3 =~= e.value + rest);
    assert(s3.take(e.value.len() as int) =~= e.value);
    assert(s3.skip(e.value.len() as int) =~= rest);
}

/// The bytes of entries that start with `e`.
pub proof fn lemma_branch_bytes_front(e: BranchEntry, es: Seq<BranchEntry>)
    ensures
        branch_entries_bytes(seq![e] + es) == branch_entry_bytes(e) + branch_entries_bytes(es),
    decreases es.len(),
{
    if es.len() == 0 {
        assert(seq![e] + es =~= seq![e]);
        assert(seq![e] =~= Seq::<BranchEntry>::empty().push(e));
        lemma_branch_bytes_push(Seq::<BranchEntry>::empty(), e);
        assert(branch_entries_bytes(seq![e]) =~= branch_entry_bytes(e));
        assert(branch_entry_bytes(e) + branch_entries_bytes(es) =~= branch_entry_bytes(e));
    } else {
        let all = seq![e] + es;
        assert(all.drop_last() =~= seq![e] + es.drop_last());
        assert(all.last() == es.last());
        lemma_branch_bytes_front(e, es.drop_last());
        assert(branch_entries_bytes(all) =~= branch_entry_bytes(e) + branch_entries_bytes(es));
    }
}

/// The bytes of entries that start with `e`.
pub proof fn lemma_leaf_bytes_front(e: LeafEntry, es: Seq<LeafEntry>)
    ensures
        leaf_entries_bytes(seq![e] + es) == leaf_entry_bytes(e) + leaf_entries_bytes(es),
    decreases es.len(),
{
    if es.len() == 0 {
        assert(seq![e] + es =~= seq![e]);
        assert(seq![e] =~= Seq::<LeafEntry>::empty().push(e));
        lemma_leaf_bytes_push(Seq::<LeafEntry>::empty(), e);
        assert(leaf_entries_bytes(seq![e]) =~= leaf_entry_bytes(e));
        assert(leaf_entry_bytes(e) + leaf_entries_bytes(es) =~= leaf_entry_bytes(e));
    } else {
        let all = seq![e] + es;
        assert(all.drop_last() =~= seq![e] + es.drop_last());
        assert(all.last() == es.last());
        lemma_leaf_bytes_front(e, es.drop_last());
        assert(leaf_entries_bytes(all) =~= leaf_entry_bytes(e) + leaf_entries_bytes(es));
    }
}

/// Branch entries that were written are read back after `acc`, whatever
/// follows them.
pub proof fn lemma_branch_entries_round_trip(
    es: Seq<BranchEntry>,
    rest: Seq<u8>,
    acc: Seq<BranchEntry>,
)
    requires
        forall|i: int|
            0 <= i < es.len() ==> (#[trigger] es[i]).key.len() <= u16::MAX
                && es[i].node_id is Address,
    ensures
        parse_branch_entries(branch_entries_bytes(es) + rest, es.len(), acc) == Ok::<
            (Seq<BranchEntry>, Seq<u8>),
            Error,
        >((acc + es, rest)),
    decreases es.len(),
{
    if es.len() == 0 {
        assert(branch_entries_bytes(es) + rest =~= rest);
        assert(acc + es =~= acc);
    } else {
        let e = es[0];
        let tail = es.skip(1);
        let full = branch_entries_bytes(es) + rest;
        let inner = branch_entries_bytes(tail) + rest;
        assert(full == branch_entry_bytes(e) + inner) by {
            assert(es =~= seq![e] + tail);
            lemma_branch_bytes_front(e, tail);
            assert(branch_entries_bytes(es) + rest =~= branch_entry_bytes(e) + inner);
        }
        assert(parse_branch_entry(full) == Ok::<(BranchEntry, Seq<u8>), Error>((e, inner))) by {
            lemma_branch_entry_round_trip(e, inner);
        }
        assert(parse_branch_entries(inner, tail.len(), acc.push(e)) == Ok::<
            (Seq<BranchEntry>, Seq<u8>),
            Error,
        >((acc + es, rest))) by {
            assert forall|i: int| 0 <= i < tail.len() implies (#[trigger] tail[i]).key.len()
                <= u16::MAX && tail[i].node_id is Address by {
                assert(tail[i] == es[i + 1]);
            }
            lemma_branch_entries_round_trip(tail, rest, acc.push(e));
            assert(acc.push(e) + tail =~= acc + es);
        }
    }
}

/// Leaf entries that were written are read back after `acc`, whatever
/// follows them.
pub proof fn lemma_leaf_entries_round_trip(es: Seq<LeafEntry>, rest: Seq<u8>, acc: Seq<LeafEntry>)
    requires
        forall|i: int|
            0 <= i < es.len() ==> (#[trigger] es[i]).key.len() <= u16::MAX && es[i].value.len()
                <= u32::MAX,
    ensures
        parse_leaf_entries(leaf_entries_bytes(es) + rest, es.len(), acc) == Ok::<
            (Seq<LeafEntry>, Seq<u8>),
            Error,
        >((acc + es, rest)),
    decreases es.len(),
{
    if es.len() == 0 {
        assert(leaf_entries_bytes(es) + rest =~= rest);
        assert(acc + es =~= acc);
    } else {
        let e = es[0];
        let tail = es.skip(1);
        let full = leaf_entries_bytes(es) + rest;
        let inner = leaf_entries_bytes(tail) + rest;
        assert(full == leaf_entry_bytes(e) + inner) by {
            assert(es =~= seq![e] + tail);
            lemma_leaf_bytes_front(e, tail);
            assert(leaf_entries_bytes(es) + rest =~= leaf_entry_bytes(e) + inner);
        }
        assert(parse_leaf_entry(full) == Ok::<(LeafEntry, Seq<u8>), Error>((e, inner))) by {
            lemma_leaf_entry_round_trip(e, inner);
        }
        assert(parse_leaf_entries(inner, tail.len(), acc.push(e)) == Ok::<
            (Seq<LeafEntry>, Seq<u8>),
            Error,
        >((acc + es, rest))) by {
            assert forall|i: int| 0 <= i < tail.len() implies (#[trigger] tail[i]).key.len()
                <= u16::MAX && tail[i].value.len() <= u32::MAX by {
                assert(tail[i] == es[i + 1]);
            }
            lemma_leaf_entries_round_trip(tail, rest, acc.push(e));
            assert(acc.push(e) + tail =~= acc + es);
        }
    }
}

/// Branch entries take at least ten bytes each.
pub proof fn lemma_branch_size_bound(es: Seq<BranchEntry>)
    ensures
        crate::node::branch_entries_size(es) >= 10 * es.len(),
    decreases es.len(),
{
    if es.len() > 0 {
        lemma_branch_size_bound(es.drop_last());
    }
}

/// Leaf entries take at least six bytes each.
pub proof fn lemma_leaf_size_bound(es: Seq<LeafEntry>)
    ensures
        crate::node::leaf_entries_size(es) >= 6 * es.len(),
    decreases es.len(),
{
    if es.len() > 0 {
        lemma_leaf_size_bound(es.drop_last());
    }
}

/// Writing a node and reading the bytes back gives the header it was
/// written with and an equal node, whatever follows the bytes.
pub proof fn lemma_node_round_trip(node: NodeModel, page_size: nat, rest: Seq<u8>)
    requires
        node.serializable(),
        page_size > 0,
    ensures
        parse_node(node.bytes(page_size) + rest) == Ok::<(NodeHeader, NodeModel, Seq<u8>), Error>(
            (node.header(page_size), node, rest),
        ),
{
    let h = node.header(page_size);
    let body = node.entries_bytes() + rest;
    assert(node.bytes(page_size) + rest =~= header_bytes(h) + body);
    lemma_header_round_trip(h, body);
    match node {
        NodeModel::Branch(es) => {
            lemma_branch_size_bound(es);
            lemma_branch_entries_round_trip(es, rest, Seq::empty());
            assert(Seq::<BranchEntry>::empty() + es =~= es);
        },
        NodeModel::Leaf(es) => {
            lemma_leaf_size_bound(es);
            lemma_leaf_entries_round_trip(es, rest, Seq::empty());
            assert(Seq::<LeafEntry>::empty() + es =~= es);
        },
    }
}

/// A meta record takes 40 bytes.
pub proof fn lemma_meta_len(m: MetaNode)
    ensures
        meta_bytes(m).len() == 40,
        meta_fields_bytes(m).len() == 36,
{
    lemma_u32_round_trip(m.page_size);
    lemma_u64_round_trip(m.root_node);
    lemma_u64_round_trip(m.free_list_node);
    lemma_u64_round_trip(m.transaction_id);
    lemma_u64_round_trip(m.end_address);
    lemma_u32_round_trip(spec_crc32(meta_fields_bytes(m)));
}

/// Writing a meta record and reading the bytes back gives an equal record,
/// whatever follows the bytes.
pub proof fn lemma_meta_round_trip(m: MetaNode, rest: Seq<u8>)
    ensures
        parse_meta(meta_bytes(m) + rest) == Ok::<(MetaNode, Seq<u8>), Error>((m, rest)),
{
    let s = meta_bytes(m) + rest;
    let sum = spec_crc32(meta_fields_bytes(m));
    let f1 = spec_u32_to_be(m.page_size);
    let f2 = spec_u64_to_be(m.root_node);
    let f3 = spec_u64_to_be(m.free_list_node);
    let f4 = spec_u64_to_be(m.transaction_id);
    let f5 = spec_u64_to_be(m.end_address);
    let f6 = spec_u32_to_be(sum);
    lemma_u32_round_trip(m.page_size);
    lemma_u64_round_trip(m.root_node);
    lemma_u64_round_trip(m.free_list_node);
    lemma_u64_round_trip(m.transaction_id);
    lemma_u64_round_trip(m.end_address);
    lemma_u32_round_trip(sum);
    assert(s =~= f1 + (f2 + (f3 + (f4 + (f5 + (f6 + rest))))));
    lemma_split_front(f1, f2 + (f3 + (f4 + (f5 + (f6 + rest)))));
    assert(s.skip(4) == f2 + (f3 + (f4 + (f5 + (f6 + rest)))));
    lemma_split_front(f2, f3 + (f4 + (f5 + (f6 + rest))));
    assert(s.skip(12) == f3 + (f4 + (f5 + (f6 + rest)))) by {
        assert(s.skip(4).skip(8) =~= s.skip(12));
    }
    lemma_split_front(f3, f4 + (f5 + (f6 + rest)));
    assert(s.skip(20) == f4 + (f5 + (f6 + rest))) by {
        assert(s.skip(12).skip(8) =~= s.skip(20));
    }
    lemma_split_front(f4, f5 + (f6 + rest));
    assert(s.skip(28) == f5 + (f6 + rest)) by {
        assert(s.skip(20).skip(8) =~= s.skip(28));
    }
    lemma_split_front(f5, f6 + rest);
    assert(s.skip(36) == f6 + rest) by {
        assert(s.skip(28).skip(8) =~= s.skip(36));
    }
    lemma_split_front(f6, rest);
    assert(s.skip(40) == rest) by {
        assert(s.skip(36).skip(4) =~= s.skip(40));
    }
    assert(parse_meta_fields(s) == m);
}

/// The branch entries that are read from bytes refer to pages.
pub proof fn lemma_parsed_children(s: Seq<u8>, count: nat, acc: Seq<BranchEntry>)
    requires
        forall|i: int| 0 <= i < acc.len() ==> (#[trigger] acc[i]).node_id is Address,
    ensures
        parse_branch_entries(s, count, acc) matches Ok((es, _)) ==> forall|i: int|
            0 <= i < es.len() ==> (#[trigger] es[i]).node_id is Address,
    decreases count,
{
    reveal(parse_branch_entry);
    if count > 0 {
        match parse_branch_entry(s) {
            Ok((e, rest)) => {
                let next = acc.push(e);
                assert forall|i: int| 0 <= i < next.len() implies (#[trigger] next[i]).node_id is Address by {
                    if i < acc.len() {
                        assert(next[i] == acc[i]);
                    }
                }
                lemma_parsed_children(rest, (count - 1) as nat, next);
            },
            Err(_) => {},
        }
    }
}

/// The entries of a branch that is read from bytes refer to pages.
pub proof fn lemma_parsed_node_children(s: Seq<u8>)
    ensures
        parse_node(s) matches Ok((_, NodeModel::Branch(es), _)) ==> forall|i: int|
            0 <= i < es.len() ==> (#[trigger] es[i]).node_id is Address,
{
    match parse_header(s) {
        Ok((h, rest)) => {
            lemma_parsed_children(rest, h.internal_nodes_len as nat, Seq::empty());
        },
        Err(_) => {},
    }
}

/// Whether a meta record is read, and which, is decided by the first 40
/// bytes.
pub proof fn lemma_parse_meta_local(x: Seq<u8>, y: Seq<u8>)
    requires
        x.len() >= 40,
        y.len() >= 40,
        x.take(40) == y.take(40),
    ensures
        match (parse_meta(x), parse_meta(y)) {
            (Ok((a, _)), Ok((b, _))) => a == b,
            (Err(a), Err(b)) => a == b,
            _ => false,
        },
{
    assert(x.take(4) =~= x.take(40).take(4));
    assert(y.take(4) =~= y.take(40).take(4));
    assert(x.skip(4).take(8) =~= x.take(40).skip(4).take(8));
    assert(y.skip(4).take(8) =~= y.take(40).skip(4).take(8));
    assert(x.skip(12).take(8) =~= x.take(40).skip(12).take(8));
    assert(y.skip(12).take(8) =~= y.take(40).skip(12).take(8));
    assert(x.skip(20).take(8) =~= x.take(40).skip(20).take(8));
    assert(y.skip(20).take(8) =~= y.take(40).skip(20).take(8));
    assert(x.skip(28).take(8) =~= x.take(40).skip(28).take(8));
    assert(y.skip(28).take(8) =~= y.take(40).skip(28).take(8));
    assert(x.skip(36).take(4) =~= x.take(40).skip(36).take(4));
    assert(y.skip(36).take(4) =~= y.take(40).skip(36).take(4));
}

/// The front of a run of bytes that starts with `a`, and what follows it.
pub proof fn lemma_split_front(a: Seq<u8>, b: Seq<u8>)
    ensures
        (a + b).take(a.len() as int) == a,
        (a + b).skip(a.len() as int) == b,
{
    assert((a + b).take(a.len() as int) =~= a);
    assert((a + b).skip(a.len() as int) =~= b);
}

} // verus!
