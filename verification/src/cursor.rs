use crate::error::Error;
use crate::node::{InternalNodes, NodeId, NodeModel, search_keys};
use crate::reader::{Loaded, Node, NodeReader};
use vstd::prelude::*;

verus! {

/// Most levels a tree may have for a cursor to walk it.
pub const MAX_DEPTH: usize = 64;

/// Most empty leaves in a row that a cursor steps over.
pub const MAX_SKIPS: u64 = 0xffff_ffff_ffff_ffff;

/// One level of the path of a cursor: a node and the index of the entry
/// the path goes through.
#[derive(Debug)]
pub struct CursorNodeRef<'a> {
    pub node: Node<'a>,
    pub node_id: NodeId,
    pub index: usize,
}

/// What one level of the path of a cursor stands for.
pub struct Frame {
    pub node: Loaded,
    pub node_id: NodeId,
    pub index: nat,
}

impl Frame {
    /// Number of entries of the node.
    pub open spec fn len(self) -> nat {
        self.node.node.len()
    }

    /// The frame with another index.
    pub open spec fn at(self, index: nat) -> Frame {
        Frame { index, ..self }
    }
}

impl<'a> View for CursorNodeRef<'a> {
    type V = Frame;

    open spec fn view(&self) -> Frame {
        Frame { node: self.node@, node_id: self.node_id, index: self.index as nat }
    }
}

/// What a stack of levels stands for.
pub open spec fn frames(stack: Seq<CursorNodeRef>) -> Seq<Frame> {
    stack.map_values(|f: CursorNodeRef| f@)
}

/// The frame a cursor enters the node `node` at: at its first entry, or at
/// its last when walking backwards.
pub open spec fn enter(node: Loaded, node_id: NodeId, last: bool) -> Frame {
    Frame {
        node,
        node_id,
        index: if last && node.node.len() > 0 {
            (node.node.len() - 1) as nat
        } else {
            0
        },
    }
}

/// Levels that may still be added to a path of `len` levels.
pub open spec fn depth_left(len: nat) -> nat {
    if len <= 64 {
        (64 - len) as nat
    } else {
        0
    }
}

/// The path `stack` taken down to a leaf, through the child at the index
/// of each branch and, below the last frame of `stack`, through first or
/// last children. It fails where a node cannot be read, where the index of
/// a branch is not one of its entries, and where more than `fuel` levels
/// would be added.
pub open spec fn descend_from<R: NodeReader>(r: &R, stack: Seq<Frame>, last: bool, fuel: nat) -> Result<
    Seq<Frame>,
    Error,
>
    decreases fuel,
{
    if stack.len() == 0 {
        Err(Error::WouldCorrupt)
    } else {
        let top = stack.last();
        match top.node.node {
            NodeModel::Leaf(_) => Ok(stack),
            NodeModel::Branch(es) => {
                if top.index >= es.len() || fuel == 0 {
                    Err(Error::Corruption)
                } else {
                    let child = es[top.index as int].node_id;
                    match r.loaded(child) {
                        Err(e) => Err(e),
                        Ok(node) => descend_from(
                            r,
                            stack.push(enter(node, child, last)),
                            last,
                            (fuel - 1) as nat,
                        ),
                    }
                }
            },
        }
    }
}

/// The path `stack` taken down to a leaf.
pub open spec fn descend<R: NodeReader>(r: &R, stack: Seq<Frame>, last: bool) -> Result<
    Seq<Frame>,
    Error,
> {
    descend_from(r, stack, last, depth_left(stack.len()))
}

/// The deepest level at or above level `i` of `stack` whose index can move
/// one entry on (or, walking backwards, one entry back); -1 where there is
/// none.
pub open spec fn room(stack: Seq<Frame>, i: int, back: bool) -> int
    decreases i + 1,
{
    if i < 0 || i >= stack.len() {
        -1
    } else if (back && stack[i].index > 0) || (!back && stack[i].index + 1 < stack[i].len()) {
        i
    } else {
        room(stack, i - 1, back)
    }
}

/// The path cut off below level `i`, with the index of level `i` moved by
/// one entry.
pub open spec fn step_at(stack: Seq<Frame>, i: int, back: bool) -> Seq<Frame> {
    stack.take(i).push(
        stack[i].at(
            if back {
                (stack[i].index - 1) as nat
            } else {
                stack[i].index + 1
            },
        ),
    )
}

/// The path with the index of its last level set to `index`.
pub open spec fn with_top_index(stack: Seq<Frame>, index: nat) -> Seq<Frame> {
    stack.drop_last().push(stack.last().at(index))
}

/// Where a cursor at `stack` stands after moving to the next entry: the
/// deepest level that has a further entry moves on by one, and the path
/// goes down from there through first children; leaves without entries are
/// stepped over, at most `budget` of them. Where no level has a further
/// entry the cursor is past the end: the index of its last level is the
/// number of entries there.
pub open spec fn advance<R: NodeReader>(r: &R, stack: Seq<Frame>, budget: nat) -> Result<
    Seq<Frame>,
    Error,
>
    decreases budget,
{
    if stack.len() == 0 {
        Err(Error::WouldCorrupt)
    } else {
        let i = room(stack, stack.len() - 1, false);
        if i < 0 {
            Ok(with_top_index(stack, stack.last().len()))
        } else if budget == 0 {
            Err(Error::Corruption)
        } else {
            match descend(r, step_at(stack, i, false), false) {
                Err(e) => Err(e),
                Ok(below) => {
                    if below.last().len() > 0 {
                        Ok(below)
                    } else {
                        advance(r, below, (budget - 1) as nat)
                    }
                },
            }
        }
    }
}

/// Where a cursor at `stack` stands after moving to the entry before, and
/// whether there was one: the deepest level that has an earlier entry
/// moves back by one, and the path goes down from there through last
/// children; leaves without entries are stepped over.
pub open spec fn retreat<R: NodeReader>(r: &R, stack: Seq<Frame>, budget: nat) -> Result<
    (Seq<Frame>, bool),
    Error,
>
    decreases budget,
{
    if stack.len() == 0 {
        Err(Error::WouldCorrupt)
    } else {
        let i = room(stack, stack.len() - 1, true);
        if i < 0 {
            Ok((stack, false))
        } else if budget == 0 {
            Err(Error::Corruption)
        } else {
            match descend(r, step_at(stack, i, true), true) {
                Err(e) => Err(e),
                Ok(below) => {
                    if below.last().len() > 0 {
                        Ok((below, true))
                    } else {
                        retreat(r, below, (budget - 1) as nat)
                    }
                },
            }
        }
    }
}

/// The entry of a branch with keys `keys` that a search for `key` goes
/// down through: the entry with that key, else the entry before the place
/// where the key would stand, and the first entry where it would stand
/// before all.
pub open spec fn branch_slot(keys: Seq<Seq<u8>>, key: Seq<u8>) -> int {
    let (found, index) = search_keys(keys, key, 0, keys.len() as int);
    if found || index == 0 {
        index
    } else {
        index - 1
    }
}

/// Where a cursor at `stack` that looks for `key` ends: it goes down
/// through the entry of each branch that the search goes through, at most
/// `fuel` levels, and stands in the leaf at the entry with the key, or at
/// the place where the key would stand; where that is past the last entry
/// of the leaf, it moves on to the next entry.
pub open spec fn seek_from<R: NodeReader>(r: &R, stack: Seq<Frame>, key: Seq<u8>, fuel: nat) -> Result<
    Seq<Frame>,
    Error,
>
    decreases fuel,
{
    if stack.len() == 0 {
        Err(Error::WouldCorrupt)
    } else {
        let top = stack.last();
        match top.node.node {
            NodeModel::Branch(es) => {
                if es.len() == 0 || fuel == 0 {
                    Err(Error::Corruption)
                } else {
                    let slot = branch_slot(top.node.node.keys(), key);
                    let child = es[slot].node_id;
                    match r.loaded(child) {
                        Err(e) => Err(e),
                        Ok(node) => seek_from(
                            r,
                            with_top_index(stack, slot as nat).push(enter(node, child, false)),
                            key,
                            (fuel - 1) as nat,
                        ),
                    }
                }
            },
            NodeModel::Leaf(es) => {
                if es.len() == 0 {
                    advance(r, stack, MAX_SKIPS as nat)
                } else {
                    let (found, index) = search_keys(top.node.node.keys(), key, 0, es.len() as int);
                    if index >= es.len() {
                        advance(
                            r,
                            with_top_index(stack, (es.len() - 1) as nat),
                            MAX_SKIPS as nat,
                        )
                    } else {
                        Ok(with_top_index(stack, index as nat))
                    }
                }
            },
        }
    }
}

/// The path from `stack` down to the leaf in which `key` belongs, with
/// the index in the leaf at which the key stands or would stand; that
/// index is the number of entries where the key is after them all. The
/// path goes down through the entry of each branch that a search goes
/// through, at most `fuel` levels.
pub open spec fn find_from<R: NodeReader>(r: &R, stack: Seq<Frame>, key: Seq<u8>, fuel: nat) -> Result<
    Seq<Frame>,
    Error,
>
    decreases fuel,
{
    if stack.len() == 0 {
        Err(Error::WouldCorrupt)
    } else {
        let top = stack.last();
        match top.node.node {
            NodeModel::Branch(es) => {
                if es.len() == 0 || fuel == 0 {
                    Err(Error::Corruption)
                } else {
                    let slot = branch_slot(top.node.node.keys(), key);
                    let child = es[slot].node_id;
                    match r.loaded(child) {
                        Err(e) => Err(e),
                        Ok(node) => find_from(
                            r,
                            with_top_index(stack, slot as nat).push(enter(node, child, false)),
                            key,
                            (fuel - 1) as nat,
                        ),
                    }
                }
            },
            NodeModel::Leaf(es) => Ok(
                with_top_index(
                    stack,
                    search_keys(top.node.node.keys(), key, 0, es.len() as int).1 as nat,
                ),
            ),
        }
    }
}

/// The path from the first level of `stack` down to the leaf in which
/// `key` belongs.
pub open spec fn find_in<R: NodeReader>(r: &R, stack: Seq<Frame>, key: Seq<u8>) -> Result<
    Seq<Frame>,
    Error,
> {
    if stack.len() == 0 {
        Err(Error::WouldCorrupt)
    } else {
        find_from(r, stack.take(1), key, 63)
    }
}

/// Where a cursor stands after going to the first entry (or, with `last`,
/// to the last) of the tree under the first level of `stack`.
pub open spec fn rewind<R: NodeReader>(r: &R, stack: Seq<Frame>, last: bool) -> Result<
    Seq<Frame>,
    Error,
> {
    if stack.len() == 0 {
        Err(Error::WouldCorrupt)
    } else {
        let root = enter(stack[0].node, stack[0].node_id, last);
        match descend(r, seq![root], last) {
            Err(e) => Err(e),
            Ok(below) => {
                if below.last().len() > 0 {
                    Ok(below)
                } else {
                    advance(r, below, MAX_SKIPS as nat)
                }
            },
        }
    }
}

/// Where a cursor stands after looking for `key` in the tree under the
/// first level of `stack`.
pub open spec fn seek_in<R: NodeReader>(r: &R, stack: Seq<Frame>, key: Seq<u8>) -> Result<
    Seq<Frame>,
    Error,
> {
    if stack.len() == 0 {
        Err(Error::WouldCorrupt)
    } else {
        seek_from(r, stack.take(1), key, 63)
    }
}

/// Where a new cursor over the tree with root `root` stands: at its first
/// entry.
pub open spec fn open_at<R: NodeReader>(r: &R, root: NodeId) -> Result<Seq<Frame>, Error> {
    match r.loaded(root) {
        Err(e) => Err(e),
        Ok(node) => rewind(r, seq![enter(node, root, false)], false),
    }
}

/// A position in the tree: the path from the root to a leaf, with an index
/// at each level.
pub struct Cursor<'a, R: NodeReader> {
    pub root_node_id: NodeId,
    pub stack: Vec<CursorNodeRef<'a>>,
    pub node_reader: &'a R,
}

impl<'a, R: NodeReader> View for Cursor<'a, R> {
    type V = Seq<Frame>;

    open spec fn view(&self) -> Seq<Frame> {
        frames(self.stack@)
    }
}

/// What a stack with one more level stands for.
pub proof fn lemma_frames_push(stack: Seq<CursorNodeRef>, f: CursorNodeRef)
    ensures
        frames(stack.push(f)) == frames(stack).push(f@),
{
    assert(frames(stack.push(f)) =~= frames(stack).push(f@));
}

impl<'a, R: NodeReader> Cursor<'a, R> {
    /// Whether the cursor stands at an entry.
    pub open spec fn spec_is_valid(&self) -> bool {
        self@.len() > 0 && self@.last().index < self@.last().len()
    }

    /// Whether the cursor stands at an entry.
    #[verifier::when_used_as_spec(spec_is_valid)]
    pub fn is_valid(&self) -> (b: bool)
        ensures
            b == self.spec_is_valid(),
    {
        let n = self.stack.len();
        if n == 0 {
            return false;
        }
        assert(self@.last() == self.stack@[n - 1]@);
        self.stack[n - 1].index < self.stack[n - 1].node.as_ref().len()
    }

    /// The key of the entry the cursor stands at, in a leaf.
    pub fn key(&self) -> (key: &[u8])
        requires
            self.spec_is_valid(),
            self@.last().node.node is Leaf,
        ensures
            key@ == self@.last().node.node->Leaf_0[self@.last().index as int].key,
    {
        let n = self.stack.len();
        assert(self@.last() == self.stack@[n - 1]@);
        self.stack[n - 1].node.as_ref().key_at(self.stack[n - 1].index)
    }

    /// The value of the entry the cursor stands at, in a leaf.
    pub fn value(&self) -> (value: &[u8])
        requires
            self.spec_is_valid(),
            self@.last().node.node is Leaf,
        ensures
            value@ == self@.last().node.node->Leaf_0[self@.last().index as int].value,
    {
        let n = self.stack.len();
        assert(self@.last() == self.stack@[n - 1]@);
        match self.stack[n - 1].node.as_ref() {
            InternalNodes::Leaf(nodes) => {
                assert(crate::node::leaf_entries(nodes@)[self.stack@[n - 1].index as int]
                    == nodes@[self.stack@[n - 1].index as int]@);
                nodes[self.stack[n - 1].index].value.as_slice()
            },
            InternalNodes::Branch(_) => {
                let empty: &[u8] = &[];
                empty
            },
        }
    }
}

/// The level that `room` finds is a level of the path at or above `i`, and
/// its index can move.
pub proof fn lemma_room_found(stack: Seq<Frame>, i: int, back: bool)
    ensures
        room(stack, i, back) >= 0 ==> {
            let k = room(stack, i, back);
            &&& k <= i
            &&& k < stack.len()
            &&& back ==> stack[k].index > 0
            &&& !back ==> stack[k].index + 1 < stack[k].len()
        },
    decreases i + 1,
{
    if 0 <= i < stack.len() {
        if !((back && stack[i].index > 0) || (!back && stack[i].index + 1 < stack[i].len())) {
            lemma_room_found(stack, i - 1, back);
        }
    }
}

/// A path that was taken down is not shorter than before and ends at a
/// leaf.
pub proof fn lemma_descend_ends<R: NodeReader>(r: &R, stack: Seq<Frame>, last: bool, fuel: nat)
    ensures
        descend_from(r, stack, last, fuel) matches Ok(below) ==> below.len() >= stack.len()
            && below.len() > 0 && below.last().node.node is Leaf && below.take(
            stack.len() as int,
        ) == stack,
    decreases fuel,
{
    if stack.len() > 0 {
        let top = stack.last();
        match top.node.node {
            NodeModel::Leaf(_) => {
                assert(stack.take(stack.len() as int) =~= stack);
            },
            NodeModel::Branch(es) => {
                if !(top.index >= es.len() || fuel == 0) {
                    let child = es[top.index as int].node_id;
                    match r.loaded(child) {
                        Err(e) => {},
                        Ok(node) => {
                            let next = stack.push(enter(node, child, last));
                            lemma_descend_ends(r, next, last, (fuel - 1) as nat);
                            match descend_from(r, next, last, (fuel - 1) as nat) {
                                Ok(below) => {
                                    assert(below.take(stack.len() as int) =~= below.take(
                                        next.len() as int,
                                    ).take(stack.len() as int));
                                    assert(next.take(stack.len() as int) =~= stack);
                                },
                                Err(_) => {},
                            }
                        },
                    }
                }
            },
        }
    }
}

impl<'a, R: NodeReader> Cursor<'a, R> {
    /// A cursor over the tree with root `root_node_id`, at its first entry.
    pub fn new(root_node_id: NodeId, node_reader: &'a R) -> (r: Result<Self, Error>)
        ensures
            match r {
                Ok(cursor) => open_at(node_reader, root_node_id) == Ok::<Seq<Frame>, Error>(cursor@)
                    && cursor.root_node_id == root_node_id && cursor.node_reader == node_reader,
                Err(e) => open_at(node_reader, root_node_id) == Err::<Seq<Frame>, Error>(e),
            },
    {
        let root = match node_reader.read_node(root_node_id) {
            Ok(node) => node,
            Err(e) => {
                return Err(e);
            },
        };
        let mut stack: Vec<CursorNodeRef<'a>> = Vec::new();
        let frame = CursorNodeRef { node: root, node_id: root_node_id, index: 0 };
        proof {
            lemma_frames_push(stack@, frame);
            assert(frames(stack@) =~= Seq::<Frame>::empty());
        }
        stack.push(frame);
        let mut cursor = Cursor { root_node_id, stack, node_reader };
        assert(cursor@ =~= seq![enter(root@, root_node_id, false)]);
        match cursor.first() {
            Ok(()) => Ok(cursor),
            Err(e) => Err(e),
        }
    }

    /// Sets the index of the last level.
    fn set_top_index(&mut self, index: usize)
        requires
            old(self)@.len() > 0,
        ensures
            final(self)@ == with_top_index(old(self)@, index as nat),
            final(self).node_reader == old(self).node_reader,
            final(self).root_node_id == old(self).root_node_id,
    {
        let ghost before = self.stack@;
        let mut frame = self.stack.pop().unwrap();
        frame.index = index;
        proof {
            lemma_frames_push(self.stack@, frame);
            assert(frames(before.drop_last()) =~= frames(before).drop_last());
            assert(frames(before).last() == before.last()@);
        }
        self.stack.push(frame);
    }

    /// Cuts the path off below level `i` and moves the index of level `i`
    /// by one entry.
    fn step_level(&mut self, i: usize, back: bool)
        requires
            i < old(self)@.len(),
            back ==> old(self)@[i as int].index > 0,
            !back ==> old(self)@[i as int].index + 1 < old(self)@[i as int].len(),
        ensures
            final(self)@ == step_at(old(self)@, i as int, back),
            final(self).node_reader == old(self).node_reader,
            final(self).root_node_id == old(self).root_node_id,
    {
        let ghost before = self.stack@;
        let n = self.stack.len();
        assert(i < n);
        self.stack.truncate(i + 1);
        let mut frame = self.stack.pop().unwrap();
        assert(frame == before[i as int]);
        assert(frames(before)[i as int] == before[i as int]@);
        let len = frame.node.as_ref().len();
        if back {
            frame.index = frame.index - 1;
        } else {
            assert(frame.index + 1 < len);
            frame.index = frame.index + 1;
        }
        proof {
            lemma_frames_push(self.stack@, frame);
            assert(self.stack@ =~= before.take(i as int));
            assert(frames(before.take(i as int)) =~= frames(before).take(i as int));
        }
        self.stack.push(frame);
    }

    /// The deepest level whose index can move by one entry.
    fn find_room(&self, back: bool) -> (r: Option<usize>)
        ensures
            match r {
                Some(i) => room(self@, self@.len() - 1, back) == i,
                None => room(self@, self@.len() - 1, back) < 0,
            },
    {
        let mut i: usize = self.stack.len();
        while i > 0
            invariant
                i <= self.stack@.len(),
                room(self@, self@.len() - 1, back) == room(self@, i - 1, back),
            decreases i,
        {
            assert(frames(self.stack@)[i - 1] == self.stack@[i - 1]@);
            let frame = &self.stack[i - 1];
            let len = frame.node.as_ref().len();
            let has = if back {
                frame.index > 0
            } else {
                frame.index < len && frame.index + 1 < len
            };
            if has {
                return Some(i - 1);
            }
            i -= 1;
        }
        None
    }

    /// Takes the path down to a leaf through first children, or through
    /// last children. Where that fails the cursor is left without a path.
    fn descend_to_leaf(&mut self, last: bool) -> (r: Result<(), Error>)
        ensures
            final(self).node_reader == old(self).node_reader,
            final(self).root_node_id == old(self).root_node_id,
            match r {
                Ok(()) => descend(old(self).node_reader, old(self)@, last) == Ok::<Seq<Frame>, Error>(
                    final(self)@,
                ),
                Err(e) => descend(old(self).node_reader, old(self)@, last) == Err::<Seq<Frame>, Error>(e)
                    && final(self)@.len() == 0,
            },
    {
        loop
            invariant
                self.node_reader == old(self).node_reader,
                self.root_node_id == old(self).root_node_id,
                descend(old(self).node_reader, old(self)@, last) == descend(self.node_reader, self@, last),
            decreases depth_left(self@.len()),
        {
            let n = self.stack.len();
            if n == 0 {
                return Err(Error::WouldCorrupt);
            }
            assert(self@.last() == self.stack@[n - 1]@);
            let index = self.stack[n - 1].index;
            let child: Option<NodeId> = match self.stack[n - 1].node.as_ref() {
                InternalNodes::Leaf(_) => {
                    return Ok(());
                },
                InternalNodes::Branch(nodes) => {
                    if index >= nodes.len() || n >= MAX_DEPTH {
                        None
                    } else {
                        assert(crate::node::branch_entries(nodes@)[index as int]
                            == nodes@[index as int]@);
                        Some(nodes[index].node_id)
                    }
                },
            };
            let child = match child {
                Some(c) => c,
                None => {
                    self.stack.clear();
                    assert(self@ =~= Seq::<Frame>::empty());
                    return Err(Error::Corruption);
                },
            };
            match self.node_reader.read_node(child) {
                Err(e) => {
                    self.stack.clear();
                    assert(self@ =~= Seq::<Frame>::empty());
                    return Err(e);
                },
                Ok(node) => {
                    let len = node.as_ref().len();
                    let at = if last && len > 0 {
                        len - 1
                    } else {
                        0
                    };
                    let frame = CursorNodeRef { node, node_id: child, index: at };
                    proof {
                        lemma_frames_push(self.stack@, frame);
                    }
                    self.stack.push(frame);
                },
            }
        }
    }

    /// Takes the path down to a leaf through first children.
    pub fn move_to_first_leaf(&mut self) -> (r: Result<(), Error>)
        ensures
            final(self).node_reader == old(self).node_reader,
            final(self).root_node_id == old(self).root_node_id,
            match r {
                Ok(()) => descend(old(self).node_reader, old(self)@, false) == Ok::<Seq<Frame>, Error>(
                    final(self)@,
                ),
                Err(e) => descend(old(self).node_reader, old(self)@, false) == Err::<Seq<Frame>, Error>(
                    e,
                ) && final(self)@.len() == 0,
            },
    {
        self.descend_to_leaf(false)
    }

    /// Takes the path down to a leaf through last children.
    pub fn move_to_last_leaf(&mut self) -> (r: Result<(), Error>)
        ensures
            final(self).node_reader == old(self).node_reader,
            final(self).root_node_id == old(self).root_node_id,
            match r {
                Ok(()) => descend(old(self).node_reader, old(self)@, true) == Ok::<Seq<Frame>, Error>(
                    final(self)@,
                ),
                Err(e) => descend(old(self).node_reader, old(self)@, true) == Err::<Seq<Frame>, Error>(e)
                    && final(self)@.len() == 0,
            },
    {
        self.descend_to_leaf(true)
    }

    /// Whether the leaf at the end of the path holds an entry.
    fn top_has_entries(&self) -> (b: bool)
        requires
            self@.len() > 0,
        ensures
            b == (self@.last().len() > 0),
    {
        let n = self.stack.len();
        assert(self@.last() == self.stack@[n - 1]@);
        !self.stack[n - 1].node.as_ref().is_empty()
    }

    /// Moves to the next entry. Past the last entry the cursor is no
    /// longer valid. Where that fails the cursor is left without a path.
    pub fn next(&mut self) -> (r: Result<(), Error>)
        ensures
            final(self).node_reader == old(self).node_reader,
            final(self).root_node_id == old(self).root_node_id,
            match r {
                Ok(()) => advance(old(self).node_reader, old(self)@, MAX_SKIPS as nat) == Ok::<
                    Seq<Frame>,
                    Error,
                >(final(self)@),
                Err(e) => advance(old(self).node_reader, old(self)@, MAX_SKIPS as nat) == Err::<
                    Seq<Frame>,
                    Error,
                >(e) && final(self)@.len() == 0,
            },
    {
        let mut budget: u64 = MAX_SKIPS;
        loop
            invariant
                self.node_reader == old(self).node_reader,
                self.root_node_id == old(self).root_node_id,
                advance(old(self).node_reader, old(self)@, MAX_SKIPS as nat) == advance(
                    self.node_reader,
                    self@,
                    budget as nat,
                ),
            decreases budget,
        {
            let n = self.stack.len();
            if n == 0 {
                return Err(Error::WouldCorrupt);
            }
            match self.find_room(false) {
                None => {
                    assert(self@.last() == self.stack@[n - 1]@);
                    let len = self.stack[n - 1].node.as_ref().len();
                    self.set_top_index(len);
                    return Ok(());
                },
                Some(i) => {
                    if budget == 0 {
                        self.stack.clear();
                        assert(self@ =~= Seq::<Frame>::empty());
                        return Err(Error::Corruption);
                    }
                    proof {
                        lemma_room_found(self@, self@.len() - 1, false);
                    }
                    self.step_level(i, false);
                    let ghost stepped = self@;
                    match self.descend_to_leaf(false) {
                        Err(e) => {
                            return Err(e);
                        },
                        Ok(()) => {},
                    }
                    proof {
                        lemma_descend_ends(self.node_reader, stepped, false, depth_left(stepped.len()));
                    }
                    if self.top_has_entries() {
                        return Ok(());
                    }
                    budget -= 1;
                },
            }
        }
    }

    /// Moves to the entry before. Tells whether there was one; where there
    /// was none the cursor stays where it is. Where that fails the cursor
    /// is left without a path.
    pub fn prev(&mut self) -> (r: Result<bool, Error>)
        ensures
            final(self).node_reader == old(self).node_reader,
            final(self).root_node_id == old(self).root_node_id,
            match r {
                Ok(moved) => retreat(old(self).node_reader, old(self)@, MAX_SKIPS as nat) == Ok::<
                    (Seq<Frame>, bool),
                    Error,
                >((final(self)@, moved)),
                Err(e) => retreat(old(self).node_reader, old(self)@, MAX_SKIPS as nat) == Err::<
                    (Seq<Frame>, bool),
                    Error,
                >(e) && final(self)@.len() == 0,
            },
    {
        let mut budget: u64 = MAX_SKIPS;
        loop
            invariant
                self.node_reader == old(self).node_reader,
                self.root_node_id == old(self).root_node_id,
                retreat(old(self).node_reader, old(self)@, MAX_SKIPS as nat) == retreat(
                    self.node_reader,
                    self@,
                    budget as nat,
                ),
            decreases budget,
        {
            let n = self.stack.len();
            if n == 0 {
                return Err(Error::WouldCorrupt);
            }
            match self.find_room(true) {
                None => {
                    return Ok(false);
                },
                Some(i) => {
                    if budget == 0 {
                        self.stack.clear();
                        assert(self@ =~= Seq::<Frame>::empty());
                        return Err(Error::Corruption);
                    }
                    proof {
                        lemma_room_found(self@, self@.len() - 1, true);
                    }
                    self.step_level(i, true);
                    let ghost stepped = self@;
                    match self.descend_to_leaf(true) {
                        Err(e) => {
                            return Err(e);
                        },
                        Ok(()) => {},
                    }
                    proof {
                        lemma_descend_ends(self.node_reader, stepped, true, depth_left(stepped.len()));
                    }
                    if self.top_has_entries() {
                        return Ok(true);
                    }
                    budget -= 1;
                },
            }
        }
    }

    /// Goes to the first entry of the tree, or with `last` to the last.
    fn rewind_to(&mut self, last: bool) -> (r: Result<(), Error>)
        ensures
            final(self).node_reader == old(self).node_reader,
            final(self).root_node_id == old(self).root_node_id,
            match r {
                Ok(()) => rewind(old(self).node_reader, old(self)@, last) == Ok::<Seq<Frame>, Error>(
                    final(self)@,
                ),
                Err(e) => rewind(old(self).node_reader, old(self)@, last) == Err::<Seq<Frame>, Error>(e)
                    && final(self)@.len() == 0,
            },
    {
        if self.stack.len() == 0 {
            return Err(Error::WouldCorrupt);
        }
        let ghost before = self.stack@;
        self.stack.truncate(1);
        proof {
            assert(self.stack@ =~= before.take(1));
            assert(frames(before.take(1)) =~= frames(before).take(1));
            assert(self@.last() == self.stack@[0]@);
            assert(frames(before)[0] == before[0]@);
        }
        let len = self.stack[0].node.as_ref().len();
        let at = if last && len > 0 {
            len - 1
        } else {
            0
        };
        self.set_top_index(at);
        assert(self@ =~= seq![enter(old(self)@[0].node, old(self)@[0].node_id, last)]);
        let ghost start = self@;
        match self.descend_to_leaf(last) {
            Err(e) => {
                return Err(e);
            },
            Ok(()) => {},
        }
        proof {
            lemma_descend_ends(self.node_reader, start, last, depth_left(start.len()));
        }
        if self.top_has_entries() {
            Ok(())
        } else {
            self.next()
        }
    }

    /// Goes to the first entry of the tree; the cursor is not valid where
    /// the tree holds none. Where that fails the cursor is left without a
    /// path.
    pub fn first(&mut self) -> (r: Result<(), Error>)
        ensures
            final(self).node_reader == old(self).node_reader,
            final(self).root_node_id == old(self).root_node_id,
            match r {
                Ok(()) => rewind(old(self).node_reader, old(self)@, false) == Ok::<Seq<Frame>, Error>(
                    final(self)@,
                ),
                Err(e) => rewind(old(self).node_reader, old(self)@, false) == Err::<Seq<Frame>, Error>(e)
                    && final(self)@.len() == 0,
            },
    {
        self.rewind_to(false)
    }

    /// Goes to the last entry of the rightmost leaf of the tree; the
    /// cursor is not valid where that leaf holds none. Where that fails
    /// the cursor is left without a path.
    pub fn last(&mut self) -> (r: Result<(), Error>)
        ensures
            final(self).node_reader == old(self).node_reader,
            final(self).root_node_id == old(self).root_node_id,
            match r {
                Ok(()) => rewind(old(self).node_reader, old(self)@, true) == Ok::<Seq<Frame>, Error>(
                    final(self)@,
                ),
                Err(e) => rewind(old(self).node_reader, old(self)@, true) == Err::<Seq<Frame>, Error>(e)
                    && final(self)@.len() == 0,
            },
    {
        self.rewind_to(true)
    }

    /// Goes to the entry with the key `key`, or to the entry that follows
    /// the place where the key would stand; the cursor is not valid where
    /// that is past the last entry. Where that fails the cursor is left
    /// without a path.
    pub fn seek(&mut self, key: &[u8]) -> (r: Result<(), Error>)
        ensures
            final(self).node_reader == old(self).node_reader,
            final(self).root_node_id == old(self).root_node_id,
            match r {
                Ok(()) => seek_in(old(self).node_reader, old(self)@, key@) == Ok::<Seq<Frame>, Error>(
                    final(self)@,
                ),
                Err(e) => seek_in(old(self).node_reader, old(self)@, key@) == Err::<Seq<Frame>, Error>(e)
                    && final(self)@.len() == 0,
            },
    {
        if self.stack.len() == 0 {
            return Err(Error::WouldCorrupt);
        }
        let ghost before = self.stack@;
        self.stack.truncate(1);
        proof {
            assert(self.stack@ =~= before.take(1));
            assert(frames(before.take(1)) =~= frames(before).take(1));
        }
        loop
            invariant
                self.node_reader == old(self).node_reader,
                self.root_node_id == old(self).root_node_id,
                0 < self@.len() <= 64,
                seek_in(old(self).node_reader, old(self)@, key@) == seek_from(
                    self.node_reader,
                    self@,
                    key@,
                    depth_left(self@.len()),
                ),
            decreases depth_left(self@.len()),
        {
            let n = self.stack.len();
            assert(self@.last() == self.stack@[n - 1]@);
            let node = self.stack[n - 1].node.as_ref();
            let len = node.len();
            let (found, index) = node.search(key);
            let child: Option<(usize, NodeId)> = match node {
                InternalNodes::Leaf(_) => {
                    if len == 0 {
                        return self.next();
                    }
                    if index >= len {
                        self.set_top_index(len - 1);
                        return self.next();
                    }
                    self.set_top_index(index);
                    return Ok(());
                },
                InternalNodes::Branch(nodes) => {
                    if len == 0 || n >= MAX_DEPTH {
                        None
                    } else {
                        let slot = if found || index == 0 {
                            index
                        } else {
                            index - 1
                        };
                        assert(crate::node::branch_entries(nodes@)[slot as int]
                            == nodes@[slot as int]@);
                        Some((slot, nodes[slot].node_id))
                    }
                },
            };
            let (slot, child) = match child {
                Some(c) => c,
                None => {
                    self.stack.clear();
                    assert(self@ =~= Seq::<Frame>::empty());
                    return Err(Error::Corruption);
                },
            };
            self.set_top_index(slot);
            match self.node_reader.read_node(child) {
                Err(e) => {
                    self.stack.clear();
                    assert(self@ =~= Seq::<Frame>::empty());
                    return Err(e);
                },
                Ok(node) => {
                    let frame = CursorNodeRef { node, node_id: child, index: 0 };
                    proof {
                        lemma_frames_push(self.stack@, frame);
                    }
                    self.stack.push(frame);
                },
            }
        }
    }

    /// Goes to the leaf in which `key` belongs and stands at the entry
    /// with the key, or at the place where the key would stand, which is
    /// past the last entry where the key is after them all. Unlike `seek`
    /// it does not move on from there. Where that fails the cursor is left
    /// without a path.
    pub fn seek_internal(&mut self, key: &[u8]) -> (r: Result<(), Error>)
        ensures
            final(self).node_reader == old(self).node_reader,
            final(self).root_node_id == old(self).root_node_id,
            match r {
                Ok(()) => find_in(old(self).node_reader, old(self)@, key@) == Ok::<Seq<Frame>, Error>(
                    final(self)@,
                ),
                Err(e) => find_in(old(self).node_reader, old(self)@, key@) == Err::<Seq<Frame>, Error>(
                    e,
                ) && final(self)@.len() == 0,
            },
    {
        if self.stack.len() == 0 {
            return Err(Error::WouldCorrupt);
        }
        let ghost before = self.stack@;
        self.stack.truncate(1);
        proof {
            assert(self.stack@ =~= before.take(1));
            assert(frames(before.take(1)) =~= frames(before).take(1));
        }
        loop
            invariant
                self.node_reader == old(self).node_reader,
                self.root_node_id == old(self).root_node_id,
                0 < self@.len() <= 64,
                find_in(self.node_reader, old(self)@, key@) == find_from(
                    self.node_reader,
                    self@,
                    key@,
                    depth_left(self@.len()),
                ),
            decreases depth_left(self@.len()),
        {
            let n = self.stack.len();
            assert(self@.last() == self.stack@[n - 1]@);
            let node = self.stack[n - 1].node.as_ref();
            let len = node.len();
            let (found, index) = node.search(key);
            let child: Option<(usize, NodeId)> = match node {
                InternalNodes::Leaf(_) => {
                    self.set_top_index(index);
                    return Ok(());
                },
                InternalNodes::Branch(nodes) => {
                    if len == 0 || n >= MAX_DEPTH {
                        None
                    } else {
                        let slot = if found || index == 0 {
                            index
                        } else {
                            index - 1
                        };
                        assert(crate::node::branch_entries(nodes@)[slot as int]
                            == nodes@[slot as int]@);
                        Some((slot, nodes[slot].node_id))
                    }
                },
            };
            let (slot, child) = match child {
                Some(c) => c,
                None => {
                    self.stack.clear();
                    assert(self@ =~= Seq::<Frame>::empty());
                    return Err(Error::Corruption);
                },
            };
            self.set_top_index(slot);
            match self.node_reader.read_node(child) {
                Err(e) => {
                    self.stack.clear();
                    assert(self@ =~= Seq::<Frame>::empty());
                    return Err(e);
                },
                Ok(node) => {
                    let frame = CursorNodeRef { node, node_id: child, index: 0 };
                    proof {
                        lemma_frames_push(self.stack@, frame);
                    }
                    self.stack.push(frame);
                },
            }
        }
    }
}

} // verus!
