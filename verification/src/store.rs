use crate::error::Error;
use crate::format::{Reader, Writer};
use crate::free_list::{FreeList, parse_free_list};
use crate::node::{Address, InternalNodes, NodeModel};
use crate::node_codec::{meta_bytes, META_PAGE_SIZE, MetaNode, NodeHeader, parse_meta, parse_node};
use vstd::prelude::*;

verus! {

/// The bytes of `image` from `address` on; none where `address` lies past
/// its end.
pub open spec fn tail(image: Seq<u8>, address: int) -> Seq<u8> {
    if 0 <= address <= image.len() {
        image.skip(address)
    } else {
        Seq::empty()
    }
}

/// `image` with `bytes` in the place of the bytes from `address` on.
pub open spec fn overwrite(image: Seq<u8>, address: int, bytes: Seq<u8>) -> Seq<u8> {
    image.take(address) + bytes + image.skip(address + bytes.len())
}

/// The node that the page at `address` of `image` holds, with its header.
pub open spec fn node_at(image: Seq<u8>, address: int) -> Result<(NodeHeader, NodeModel), Error> {
    match parse_node(tail(image, address)) {
        Ok((h, node, _)) => Ok((h, node)),
        Err(e) => Err(e),
    }
}

/// The free list that the page at `address` of `image` holds: its header
/// and its addresses.
pub open spec fn free_list_at(image: Seq<u8>, address: int) -> Result<(NodeHeader, Seq<u64>), Error> {
    match parse_free_list(tail(image, address)) {
        Ok((h, addresses, _)) => Ok((h, addresses)),
        Err(e) => Err(e),
    }
}

/// The meta record in slot `slot` of `image`.
pub open spec fn meta_at(image: Seq<u8>, slot: int) -> Result<MetaNode, Error> {
    match parse_meta(tail(image, slot * 1024)) {
        Ok((m, _)) => Ok(m),
        Err(e) => Err(e),
    }
}

/// The slot that the meta record of transaction `transaction_id` goes to.
pub open spec fn meta_slot(transaction_id: u64) -> int {
    transaction_id as int % 2
}

/// The bytes of the database file, held in memory, and the page size they
/// are laid out with.
pub struct NodeManager {
    data: Vec<u8>,
    page_size: u32,
}

impl View for NodeManager {
    type V = Seq<u8>;

    closed spec fn view(&self) -> Seq<u8> {
        self.data@
    }
}

impl NodeManager {
    /// The page size the bytes are laid out with.
    pub closed spec fn spec_page_size(&self) -> u32 {
        self.page_size
    }

    /// A store over the bytes `data`, laid out in pages of `page_size`
    /// bytes.
    pub fn new(data: Vec<u8>, page_size: u32) -> (r: Self)
        ensures
            r@ == data@,
            r.spec_page_size() == page_size,
    {
        NodeManager { data, page_size }
    }

    /// The page size the bytes are laid out with.
    #[verifier::when_used_as_spec(spec_page_size)]
    pub fn page_size(&self) -> (n: u32)
        ensures
            n == self.spec_page_size(),
    {
        self.page_size
    }

    /// Length of the file in bytes.
    pub fn size(&self) -> (n: u64)
        ensures
            n == self@.len(),
    {
        self.data.len() as u64
    }

    /// The bytes of the file.
    pub fn bytes(&self) -> (b: &[u8])
        ensures
            b@ == self@,
    {
        self.data.as_slice()
    }

    /// Gives up the bytes of the file.
    pub fn into_bytes(self) -> (b: Vec<u8>)
        ensures
            b@ == self@,
    {
        self.data
    }

    /// Makes the file `new_size` bytes long: bytes of zero are added at
    /// its end, or the bytes past `new_size` are cut off.
    pub fn set_size(&mut self, new_size: u64) -> (r: Result<(), Error>)
        ensures
            final(self).spec_page_size() == old(self).spec_page_size(),
            match r {
                Ok(()) => new_size <= usize::MAX && final(self)@.len() == new_size
                    && final(self)@.take(vstd::math::min(old(self)@.len() as int, new_size as int))
                    == old(self)@.take(vstd::math::min(old(self)@.len() as int, new_size as int))
                    && forall|i: int|
                    old(self)@.len() <= i < new_size ==> #[trigger] final(self)@[i] == 0u8,
                Err(e) => new_size > usize::MAX && e == Error::Io && final(self)@ == old(self)@,
            },
    {
        if new_size > usize::MAX as u64 {
            return Err(Error::Io);
        }
        let target = new_size as usize;
        if target <= self.data.len() {
            self.data.truncate(target);
            assert(self@.take(new_size as int) =~= old(self)@.take(new_size as int));
        } else {
            let ghost before = self@;
            while self.data.len() < target
                invariant
                    self.page_size == old(self).page_size,
                    before == old(self)@,
                    before.len() <= self@.len() <= target,
                    self@.take(before.len() as int) == before,
                    forall|i: int| before.len() <= i < self@.len() ==> #[trigger] self@[i] == 0u8,
                decreases target - self@.len(),
            {
                let ghost prev = self@;
                self.data.push(0);
                assert(self@.take(before.len() as int) =~= prev.take(before.len() as int));
            }
            assert(before.take(before.len() as int) =~= before);
        }
        Ok(())
    }

    /// Puts `bytes` into the file from `address` on. The file does not
    /// grow: bytes that would go past its end are refused.
    pub fn write_at(&mut self, address: Address, bytes: &[u8]) -> (r: Result<(), Error>)
        ensures
            final(self).spec_page_size() == old(self).spec_page_size(),
            match r {
                Ok(()) => address + bytes@.len() <= old(self)@.len() && final(self)@ == overwrite(
                    old(self)@,
                    address as int,
                    bytes@,
                ),
                Err(e) => address + bytes@.len() > old(self)@.len() && e == Error::Io && final(self)@ == old(self)@,
            },
    {
        let total = self.data.len();
        if address > total as u64 || total - (address as usize) < bytes.len() {
            return Err(Error::Io);
        }
        let start = address as usize;
        let mut i: usize = 0;
        assert(self@ =~= overwrite(old(self)@, address as int, bytes@.take(0)));
        while i < bytes.len()
            invariant
                i <= bytes@.len(),
                start == address,
                start + bytes@.len() <= old(self)@.len(),
                old(self)@.len() == total,
                self.page_size == old(self).page_size,
                self@.len() == old(self)@.len(),
                self@ == overwrite(old(self)@, address as int, bytes@.take(i as int)),
            decreases bytes@.len() - i,
        {
            self.data.set(start + i, bytes[i]);
            i += 1;
            assert(self@ =~= overwrite(old(self)@, address as int, bytes@.take(i as int)));
        }
        assert(bytes@.take(i as int) =~= bytes@);
        Ok(())
    }

    /// Writes `node` to the page at `page_address`. A node that cannot be
    /// written to a page is refused, and so is one that would go past the
    /// end of the file.
    pub fn write_node(&mut self, page_address: Address, node: &InternalNodes) -> (r: Result<
        (),
        Error,
    >)
        ensures
            final(self).spec_page_size() == old(self).spec_page_size(),
            match r {
                Ok(()) => {
                    &&& node@.serializable()
                    &&& old(self).spec_page_size() > 0
                    &&& page_address + node@.bytes(old(self).spec_page_size() as nat).len() <= old(self)@.len()
                    &&& final(self)@ == overwrite(
                        old(self)@,
                        page_address as int,
                        node@.bytes(old(self).spec_page_size() as nat),
                    )
                },
                Err(e) => {
                    &&& final(self)@ == old(self)@
                    &&& if node@.serializable() && old(self).spec_page_size() > 0 {
                        e == Error::Io && page_address + node@.bytes(
                            old(self).spec_page_size() as nat,
                        ).len() > old(self)@.len()
                    } else {
                        e == Error::InvalidArgument
                    }
                },
            },
    {
        let mut w = Writer::new();
        match node.write(&mut w, self.page_size as u64) {
            Ok(_) => {},
            Err(e) => {
                return Err(e);
            },
        }
        let bytes = w.into_inner();
        assert(bytes@ =~= node@.bytes(self.spec_page_size() as nat));
        self.write_at(page_address, bytes.as_slice())
    }

    /// Writes `free_list` to the page at `page_address` and returns the
    /// header it was written with.
    pub fn write_free_list(&mut self, page_address: Address, free_list: &FreeList) -> (r: Result<
        NodeHeader,
        Error,
    >)
        ensures
            final(self).spec_page_size() == old(self).spec_page_size(),
            match r {
                Ok(h) => {
                    &&& old(self).spec_page_size() > 0
                    &&& h == free_list@.header(old(self).spec_page_size() as nat)
                    &&& crate::ordered::increasing(free_list@.image())
                    &&& 18 + 8 * free_list@.image().len() <= u64::MAX
                    &&& final(self)@ == overwrite(
                        old(self)@,
                        page_address as int,
                        free_list@.bytes(old(self).spec_page_size() as nat),
                    )
                    &&& page_address + free_list@.bytes(old(self).spec_page_size() as nat).len() <= old(self)@.len()
                },
                Err(e) => {
                    &&& final(self)@ == old(self)@
                    &&& if old(self).spec_page_size() > 0 && 18 + 8 * free_list@.image().len()
                        <= u64::MAX {
                        e == Error::Io && page_address + free_list@.bytes(
                            old(self).spec_page_size() as nat,
                        ).len() > old(self)@.len()
                    } else {
                        e == Error::InvalidArgument
                    }
                },
            },
    {
        let mut w = Writer::new();
        let header = match free_list.write(&mut w, self.page_size) {
            Ok(h) => h,
            Err(e) => {
                return Err(e);
            },
        };
        let bytes = w.into_inner();
        assert(bytes@ =~= free_list@.bytes(self.spec_page_size() as nat));
        match self.write_at(page_address, bytes.as_slice()) {
            Ok(()) => Ok(header),
            Err(e) => Err(e),
        }
    }

    /// Writes `meta_node` to the slot of its transaction: slot 0 for an
    /// even transaction, slot 1 for an odd one. No byte outside the 40
    /// bytes of the record changes.
    pub fn write_meta(&mut self, meta_node: &MetaNode) -> (r: Result<(), Error>)
        ensures
            final(self).spec_page_size() == old(self).spec_page_size(),
            match r {
                Ok(()) => meta_slot(meta_node.transaction_id) * 1024 + 40 <= old(self)@.len()
                    && final(self)@ == overwrite(
                    old(self)@,
                    meta_slot(meta_node.transaction_id) * 1024,
                    meta_bytes(*meta_node),
                ),
                Err(e) => meta_slot(meta_node.transaction_id) * 1024 + 40 > old(self)@.len() && e
                    == Error::Io && final(self)@ == old(self)@,
            },
    {
        let mut w = Writer::new();
        meta_node.write(&mut w);
        let bytes = w.into_inner();
        proof {
            crate::node_codec::lemma_meta_len(*meta_node);
            assert(bytes@ =~= meta_bytes(*meta_node));
        }
        let page_address = (meta_node.transaction_id % 2) * META_PAGE_SIZE;
        self.write_at(page_address, bytes.as_slice())
    }

    /// Reads the node on the page at `page_address`, with its header.
    pub fn read_node(&self, page_address: Address) -> (r: Result<(NodeHeader, InternalNodes), Error>)
        ensures
            match r {
                Ok((h, node)) => node_at(self@, page_address as int) == Ok::<
                    (NodeHeader, NodeModel),
                    Error,
                >((h, node@)),
                Err(e) => node_at(self@, page_address as int) == Err::<
                    (NodeHeader, NodeModel),
                    Error,
                >(e),
            },
    {
        if page_address > self.data.len() as u64 {
            proof {
                assert(tail(self@, page_address as int) =~= Seq::<u8>::empty());
            }
            let empty: Vec<u8> = Vec::new();
            let mut reader = Reader::new(empty.as_slice());
            return InternalNodes::read(&mut reader);
        }
        let mut reader = Reader::at(self.data.as_slice(), page_address as usize);
        InternalNodes::read(&mut reader)
    }

    /// Reads the free list on the page at `page_address`, with its header.
    pub fn read_free_list(&self, page_address: Address) -> (r: Result<(NodeHeader, FreeList), Error>)
        ensures
            match r {
                Ok((h, list)) => {
                    &&& free_list_at(self@, page_address as int) matches Ok((ph, addresses))
                    &&& ph == h
                    &&& list@.free == addresses.to_set()
                    &&& list@.allocated_by == Map::<u64, u64>::empty()
                    &&& list@.pending_allocated == Set::<u64>::empty()
                    &&& list@.pending_free == Map::<u64, Set<u64>>::empty()
                },
                Err(e) => free_list_at(self@, page_address as int) == Err::<
                    (NodeHeader, Seq<u64>),
                    Error,
                >(e),
            },
    {
        if page_address > self.data.len() as u64 {
            proof {
                assert(tail(self@, page_address as int) =~= Seq::<u8>::empty());
            }
            let empty: Vec<u8> = Vec::new();
            let mut reader = Reader::new(empty.as_slice());
            return FreeList::read(&mut reader);
        }
        let mut reader = Reader::at(self.data.as_slice(), page_address as usize);
        FreeList::read(&mut reader)
    }

    /// Reads the meta record in slot `slot`, which is 0 or 1.
    pub fn read_meta(&self, slot: u8) -> (r: Result<MetaNode, Error>)
        requires
            slot < 2,
        ensures
            r == meta_at(self@, slot as int),
    {
        let offset: usize = if slot == 0 {
            0
        } else {
            1024
        };
        if offset > self.data.len() {
            proof {
                assert(tail(self@, slot * 1024) =~= Seq::<u8>::empty());
            }
            let empty: Vec<u8> = Vec::new();
            let mut reader = Reader::new(empty.as_slice());
            return MetaNode::read(&mut reader);
        }
        let mut reader = Reader::at(self.data.as_slice(), offset);
        MetaNode::read(&mut reader)
    }
}

} // verus!
