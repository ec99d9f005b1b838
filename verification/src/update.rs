use crate::cursor::{Cursor, CursorNodeRef, Frame, frames};
use crate::error::Error;
use crate::key::{copy_bytes, keys_equal};
use crate::merge::{with_new_node, with_node, with_parents};
use crate::node::{Address, BranchEntry, InternalNodes, LeafEntry, NodeId, NodeModel, put_entry};
use crate::node_codec::NodeHeader;
use crate::path::{lemma_find_in_complete, lemma_open_complete};
use crate::reader::{Node, NodeReader};
use crate::staging::Staged;
use crate::store::NodeManager;
use crate::tx::{found_value, locate_leaf, TxModel, WriteTransaction};
use vstd::prelude::*;

verus! {

/// One level of the path to the entry that an update changes, without the
/// borrow of the staging area: the node itself where it was read from the
/// file.
pub struct PlanFrame {
    pub index: usize,
    pub node_id: NodeId,
    pub loaded: Option<(NodeHeader, InternalNodes)>,
}

/// What a level of a plan stands for.
pub struct PlanModel {
    pub index: nat,
    pub node_id: NodeId,
    pub loaded: Option<(NodeHeader, NodeModel)>,
}

impl View for PlanFrame {
    type V = PlanModel;

    open spec fn view(&self) -> PlanModel {
        PlanModel {
            index: self.index as nat,
            node_id: self.node_id,
            loaded: match self.loaded {
                Some((h, n)) => Some((h, n@)),
                None => None,
            },
        }
    }
}

/// The level of a plan that stands for a level of a path.
pub open spec fn plan_of_frame(f: Frame) -> PlanModel {
    PlanModel {
        index: f.index,
        node_id: f.node_id,
        loaded: match f.node.header {
            Some(h) => Some((h, f.node.node)),
            None => None,
        },
    }
}

/// What a plan stands for.
pub open spec fn plan_models(plan: Seq<PlanFrame>) -> Seq<PlanModel> {
    plan.map_values(|p: PlanFrame| p@)
}

/// Turns the path of a cursor into a plan, level by level.
pub fn plan_of(stack: Vec<CursorNodeRef>) -> (plan: Vec<PlanFrame>)
    ensures
        plan_models(plan@) == frames(stack@).map_values(|f: Frame| plan_of_frame(f)),
{
    let ghost goal = frames(stack@).map_values(|f: Frame| plan_of_frame(f));
    let mut stack = stack;
    let mut reversed: Vec<PlanFrame> = Vec::new();
    let ghost n = stack@.len() as int;
    while stack.len() > 0
        invariant
            n == goal.len(),
            stack@.len() + reversed@.len() == n,
            frames(stack@).map_values(|f: Frame| plan_of_frame(f)) == goal.take(
                stack@.len() as int,
            ),
            forall|i: int|
                0 <= i < reversed@.len() ==> (#[trigger] reversed@[i])@ == goal[n - 1 - i],
        decreases stack@.len(),
    {
        let ghost before = stack@;
        let frame = stack.pop().unwrap();
        let loaded = match frame.node {
            Node::ReadOnly(h, n) => Some((h, n)),
            Node::Dirty(_) => None,
        };
        let p = PlanFrame { index: frame.index, node_id: frame.node_id, loaded };
        proof {
            let k = before.len() - 1;
            assert(frames(before)[k] == before[k]@);
            assert(frames(before).map_values(|f: Frame| plan_of_frame(f))[k] == plan_of_frame(
                frames(before)[k],
            ));
            assert(goal.take(before.len() as int)[k] == goal[k]);
            assert(p@ == goal[k]);
            assert(frames(stack@).map_values(|f: Frame| plan_of_frame(f)) =~= goal.take(
                stack@.len() as int,
            )) by {
                assert(stack@ =~= before.take(k));
                assert forall|i: int| 0 <= i < k implies frames(stack@).map_values(
                    |f: Frame| plan_of_frame(f),
                )[i] == goal[i] by {
                    assert(frames(stack@)[i] == stack@[i]@);
                    assert(frames(before)[i] == before[i]@);
                    assert(frames(before).map_values(|f: Frame| plan_of_frame(f))[i]
                        == plan_of_frame(frames(before)[i]));
                    assert(goal.take(before.len() as int)[i] == goal[i]);
                }
            }
        }
        reversed.push(p);
    }
    let mut plan: Vec<PlanFrame> = Vec::new();
    while reversed.len() > 0
        invariant
            plan@.len() + reversed@.len() == n,
            n == goal.len(),
            forall|i: int|
                0 <= i < reversed@.len() ==> (#[trigger] reversed@[i])@ == goal[n - 1 - i],
            forall|i: int| 0 <= i < plan@.len() ==> (#[trigger] plan@[i])@ == goal[i],
        decreases reversed@.len(),
    {
        let p = reversed.pop().unwrap();
        plan.push(p);
    }
    assert(plan_models(plan@) =~= goal);
    plan
}

/// A change to the tree: a key with its new value, or a key to take out.
pub enum Update {
    Put(Vec<u8>, Vec<u8>),
    Delete(Vec<u8>),
}

/// What a change stands for.
pub enum Change {
    Put(Seq<u8>, Seq<u8>),
    Delete(Seq<u8>),
}

impl Change {
    /// The key that the change is about.
    pub open spec fn key(self) -> Seq<u8> {
        match self {
            Change::Put(key, _) => key,
            Change::Delete(key) => key,
        }
    }

    /// The entries of a leaf after the change was made at `index`.
    pub open spec fn apply(self, es: Seq<LeafEntry>, index: int) -> Seq<LeafEntry> {
        match self {
            Change::Put(key, value) => put_entry(es, index, LeafEntry { key, value }),
            Change::Delete(_) => es.remove(index),
        }
    }

    /// Whether the key and the value are short enough to be stored.
    pub open spec fn fits(self) -> bool {
        match self {
            Change::Put(key, value) => key.len() <= u16::MAX && value.len() <= u32::MAX,
            Change::Delete(_) => true,
        }
    }
}

impl View for Update {
    type V = Change;

    open spec fn view(&self) -> Change {
        match self {
            Update::Put(key, value) => Change::Put(key@, value@),
            Update::Delete(key) => Change::Delete(key@),
        }
    }
}

impl Update {
    /// The key that the update is about.
    pub fn key(&self) -> (k: &[u8])
        ensures
            k@ == self@.key(),
    {
        match self {
            Update::Put(key, _) => key.as_slice(),
            Update::Delete(key) => key.as_slice(),
        }
    }
}

/// The address that a reference to a page holds; 0 for a reference to a
/// staged node.
pub open spec fn address_of(id: NodeId) -> u64 {
    match id {
        NodeId::Address(a) => a,
        NodeId::Id(_) => 0,
    }
}

/// How many levels at the end of `plan` were read from the file.
pub open spec fn cloned_levels(plan: Seq<PlanModel>) -> nat
    decreases plan.len(),
{
    if plan.len() == 0 || plan.last().loaded is None {
        0
    } else {
        1 + cloned_levels(plan.drop_last())
    }
}

/// Whether the change `change` can be made at `index` in `node`: it is a
/// leaf, and the index is one of its entries, or for a key that is put
/// the place after its last.
pub open spec fn leaf_fits(node: NodeModel, index: nat, change: Change) -> bool {
    &&& node is Leaf
    &&& change is Put ==> index <= node.len()
    &&& change is Delete ==> index < node.len()
}

/// Whether the last `cloned` levels of `plan`, which were read from the
/// file, can take the change: the last is a leaf with room at its index,
/// and the others are branches with an entry at their index.
pub open spec fn sound(plan: Seq<PlanModel>, cloned: nat, change: Change) -> bool {
    &&& cloned > 0 ==> leaf_fits(plan.last().loaded->Some_0.1, plan.last().index, change)
    &&& forall|i: int|
        plan.len() - cloned <= i < plan.len() - 1 ==> {
            &&& (#[trigger] plan[i]).loaded->Some_0.1 is Branch
            &&& plan[i].index < plan[i].loaded->Some_0.1.len()
        }
}

/// A branch with entry `index` pointed at the staged node `child`.
pub open spec fn pointed_at(node: NodeModel, index: int, child: u64) -> NodeModel {
    NodeModel::Branch(
        node->Branch_0.update(
            index,
            BranchEntry { key: node->Branch_0[index].key, node_id: NodeId::Id(child) },
        ),
    )
}

/// The transaction after the levels of `plan` from level
/// `plan.len() - 1 - done` up to level `plan.len() - cloned` were staged
/// as copies, each under the next number, with its entry pointed at the
/// copy below, which is `last_id` for the first of them, and with its page
/// put down to be retired.
pub open spec fn chain_from(st: TxModel, plan: Seq<PlanModel>, cloned: nat, done: nat, last_id: u64) -> TxModel
    decreases cloned - done,
{
    if done >= cloned {
        st
    } else {
        let f = plan[plan.len() - 1 - done];
        let id = st.staging.next_node_id;
        let copy = pointed_at(f.loaded->Some_0.1, f.index as int, last_id);
        let staged = TxModel {
            pending: st.pending.push((address_of(f.node_id), f.loaded->Some_0.0)),
            ..with_parents(with_new_node(st, copy), st.staging.parent.insert(last_id, id))
        };
        chain_from(staged, plan, cloned, done + 1, id)
    }
}

/// The transaction after the last `cloned` levels of `plan` were staged
/// as copies: the leaf with `change` made at its index, and above it each
/// branch with its entry pointed at the copy below. The topmost copy hangs
/// from the staged node above it, or is the new root.
#[verifier::opaque]
pub open spec fn with_copies(st: TxModel, plan: Seq<PlanModel>, cloned: nat, change: Change) -> TxModel {
    let n = plan.len();
    let leaf = plan[n - 1];
    let first = st.staging.next_node_id;
    let leaf_staged = TxModel {
        pending: st.pending.push((address_of(leaf.node_id), leaf.loaded->Some_0.0)),
        ..with_new_node(
            st,
            NodeModel::Leaf(change.apply(leaf.loaded->Some_0.1->Leaf_0, leaf.index as int)),
        )
    };
    let chained = chain_from(leaf_staged, plan, cloned, 1, first);
    let last = (first + cloned - 1) as u64;
    if cloned < n {
        let stitch = plan[n - 1 - cloned];
        let id = stitch.node_id->Id_0;
        with_parents(
            with_node(
                chained,
                id,
                pointed_at(chained.staging.nodes[id], stitch.index as int, last),
            ),
            chained.staging.parent.insert(last, id),
        )
    } else {
        TxModel { root: NodeId::Id(last), ..chained }
    }
}

/// The transaction after `change` was staged at the end of the path that
/// `plan` stands for. The levels at the end of the path that were read
/// from the file are staged as copies; a leaf that is staged already is
/// changed in place. A path that cannot be, because a staged node hangs
/// from a page, or a level is not what the level above refers to, or the
/// numbers for staged nodes have run out, is refused.
#[verifier::opaque]
pub open spec fn staged_change(st: TxModel, plan: Seq<PlanModel>, change: Change) -> Result<
    TxModel,
    Error,
> {
    let n = plan.len();
    let cloned = cloned_levels(plan);
    if n == 0 {
        Err(Error::WouldCorrupt)
    } else if cloned < n && (plan[n - 1 - cloned].node_id is Address || st.root is Address) {
        Err(Error::WouldCorrupt)
    } else if cloned >= u64::MAX - st.staging.next_node_id || !sound(plan, cloned, change) {
        Err(Error::WouldCorrupt)
    } else if cloned == 0 {
        let id = plan[n - 1].node_id->Id_0;
        if !st.staging.nodes.contains_key(id) || !leaf_fits(
            st.staging.nodes[id],
            plan[n - 1].index,
            change,
        ) {
            Err(Error::WouldCorrupt)
        } else {
            Ok(
                with_node(
                    st,
                    id,
                    NodeModel::Leaf(
                        change.apply(st.staging.nodes[id]->Leaf_0, plan[n - 1].index as int),
                    ),
                ),
            )
        }
    } else if cloned < n && !({
        let stitch = plan[n - 1 - cloned];
        let id = stitch.node_id->Id_0;
        &&& id < st.staging.next_node_id
        &&& st.staging.nodes.contains_key(id)
        &&& st.staging.nodes[id] is Branch
        &&& stitch.index < st.staging.nodes[id].len()
    }) {
        Err(Error::WouldCorrupt)
    } else {
        Ok(with_copies(st, plan, cloned, change))
    }
}

/// What making `change` in the tree that `r` reads leaves of the
/// transaction `st`. A key or a value that is too long is refused. A key
/// that is taken out and is not in the leaf in which it belongs changes
/// nothing. Else the change is staged at the end of the path to that
/// leaf, at the index at which the key stands or would stand.
pub open spec fn update_result<R: NodeReader>(r: &R, st: TxModel, change: Change) -> Result<
    TxModel,
    Error,
> {
    if !change.fits() {
        Err(Error::InvalidArgument)
    } else {
        match locate_leaf(r, st.root, change.key()) {
            Err(e) => Err(e),
            Ok(path) => {
                if change is Delete && found_value(path, change.key()) is None {
                    Ok(st)
                } else {
                    staged_change(st, path.map_values(|f: Frame| plan_of_frame(f)), change)
                }
            },
        }
    }
}

/// Copies in the chain leave the staged nodes with numbers below the
/// first copy as they are, and give out one number each.
pub proof fn lemma_chain_keeps(st: TxModel, plan: Seq<PlanModel>, cloned: nat, done: nat, last_id: u64)
    requires
        done <= cloned,
        st.staging.next_node_id + (cloned - done) < u64::MAX,
    ensures
        chain_from(st, plan, cloned, done, last_id).staging.next_node_id
            == st.staging.next_node_id + (cloned - done),
        chain_from(st, plan, cloned, done, last_id).root == st.root,
        forall|k: u64|
            k < st.staging.next_node_id ==> (#[trigger] chain_from(
                st,
                plan,
                cloned,
                done,
                last_id,
            ).staging.nodes.contains_key(k)) == st.staging.nodes.contains_key(k),
        forall|k: u64|
            k < st.staging.next_node_id ==> (#[trigger] chain_from(
                st,
                plan,
                cloned,
                done,
                last_id,
            ).staging.nodes[k]) == st.staging.nodes[k],
    decreases cloned - done,
{
    if done < cloned {
        let f = plan[plan.len() - 1 - done];
        let id = st.staging.next_node_id;
        let copy = pointed_at(f.loaded->Some_0.1, f.index as int, last_id);
        let staged = TxModel {
            pending: st.pending.push((address_of(f.node_id), f.loaded->Some_0.0)),
            ..with_parents(with_new_node(st, copy), st.staging.parent.insert(last_id, id))
        };
        lemma_chain_keeps(staged, plan, cloned, done + 1, id);
        let end = chain_from(st, plan, cloned, done, last_id);
        assert(end == chain_from(staged, plan, cloned, done + 1, id));
        assert forall|k: u64| k < st.staging.next_node_id implies (
        #[trigger] end.staging.nodes.contains_key(k)) == st.staging.nodes.contains_key(k) by {
            assert(staged.staging.nodes.contains_key(k) == st.staging.nodes.contains_key(k));
        }
        assert forall|k: u64| k < st.staging.next_node_id implies (
        #[trigger] end.staging.nodes[k]) == st.staging.nodes[k] by {
            assert(staged.staging.nodes[k] == st.staging.nodes[k]);
        }
    }
}

impl WriteTransaction {
    /// Puts `value` under `key`. A key longer than 65535 bytes and a value
    /// longer than 4294967295 bytes are refused. Where the call fails
    /// nothing has changed.
    pub fn put(&mut self, store: &NodeManager, key: &[u8], value: &[u8]) -> (r: Result<(), Error>)
        ensures
            final(self).transaction_id == old(self).transaction_id,
            final(self).writer == old(self).writer,
            ({
                let reader = Staged { staging: &old(self).staging, store };
                let want = update_result(&reader, old(self)@, Change::Put(key@, value@));
                match r {
                    Ok(()) => want == Ok::<TxModel, Error>(final(self)@),
                    Err(e) => want == Err::<TxModel, Error>(e) && final(self)@ == old(self)@,
                }
            }),
    {
        self.update(store, Update::Put(copy_bytes(key), copy_bytes(value)))
    }

    /// Takes `key` and its value out. A key that is not in the tree
    /// changes nothing. Where the call fails nothing has changed.
    pub fn remove(&mut self, store: &NodeManager, key: &[u8]) -> (r: Result<(), Error>)
        ensures
            final(self).transaction_id == old(self).transaction_id,
            final(self).writer == old(self).writer,
            ({
                let reader = Staged { staging: &old(self).staging, store };
                let want = update_result(&reader, old(self)@, Change::Delete(key@));
                match r {
                    Ok(()) => want == Ok::<TxModel, Error>(final(self)@),
                    Err(e) => want == Err::<TxModel, Error>(e) && final(self)@ == old(self)@,
                }
            }),
    {
        self.update(store, Update::Delete(copy_bytes(key)))
    }

    /// Finds the path to the key of `update`, as a plan. `None` stands for
    /// a key to take out that is not there.
    fn plan_update(&self, store: &NodeManager, update: &Update) -> (r: Result<
        Option<Vec<PlanFrame>>,
        Error,
    >)
        ensures
            ({
                let reader = Staged { staging: &self.staging, store };
                let path = locate_leaf(&reader, self.root_node_id, update@.key());
                match r {
                    Err(e) => path == Err::<Seq<Frame>, Error>(e),
                    Ok(None) => path is Ok && update@ is Delete && found_value(
                        path->Ok_0,
                        update@.key(),
                    ) is None,
                    Ok(Some(plan)) => {
                        &&& path is Ok
                        &&& !(update@ is Delete && found_value(path->Ok_0, update@.key()) is None)
                        &&& plan_models(plan@) == path->Ok_0.map_values(|f: Frame| plan_of_frame(f))
                    },
                }
            }),
    {
        let reader = Staged { staging: &self.staging, store };
        let mut cursor = match Cursor::new(self.root_node_id, &reader) {
            Ok(c) => c,
            Err(e) => {
                return Err(e);
            },
        };
        proof {
            lemma_open_complete(&reader, self.root_node_id);
            lemma_find_in_complete(&reader, cursor@, update@.key());
        }
        match cursor.seek_internal(update.key()) {
            Ok(()) => {},
            Err(e) => {
                return Err(e);
            },
        }
        if let Update::Delete(_) = update {
            if !cursor.is_valid() || !keys_equal(cursor.key(), update.key()) {
                return Ok(None);
            }
        }
        Ok(Some(plan_of(cursor.stack)))
    }

    /// Makes `update` in the tree.
    fn update(&mut self, store: &NodeManager, update: Update) -> (r: Result<(), Error>)
        ensures
            final(self).transaction_id == old(self).transaction_id,
            final(self).writer == old(self).writer,
            ({
                let reader = Staged { staging: &old(self).staging, store };
                let want = update_result(&reader, old(self)@, update@);
                match r {
                    Ok(()) => want == Ok::<TxModel, Error>(final(self)@),
                    Err(e) => want == Err::<TxModel, Error>(e) && final(self)@ == old(self)@,
                }
            }),
    {
        if let Update::Put(key, value) = &update {
            if key.len() > 0xffff || value.len() > 0xffff_ffff {
                return Err(Error::InvalidArgument);
            }
        }
        let plan = match self.plan_update(store, &update) {
            Ok(Some(plan)) => plan,
            Ok(None) => {
                return Ok(());
            },
            Err(e) => {
                return Err(e);
            },
        };
        self.stage_change(plan, update)
    }

    /// Stages the change `update` at the end of the path that `plan`
    /// stands for.
    fn stage_change(&mut self, plan: Vec<PlanFrame>, update: Update) -> (r: Result<(), Error>)
        ensures
            final(self).transaction_id == old(self).transaction_id,
            final(self).writer == old(self).writer,
            match r {
                Ok(()) => staged_change(old(self)@, plan_models(plan@), update@) == Ok::<
                    TxModel,
                    Error,
                >(final(self)@),
                Err(e) => staged_change(old(self)@, plan_models(plan@), update@) == Err::<
                    TxModel,
                    Error,
                >(e) && final(self)@ == old(self)@,
            },
    {
        reveal(staged_change);
        let n = plan.len();
        let ghost models = plan_models(plan@);
        assert(models.len() == plan@.len());
        if n == 0 {
            return Err(Error::WouldCorrupt);
        }
        // Levels read from the file, counted from the leaf up.
        let mut cloned: usize = 0;
        proof {
            assert(models.take(n as int) =~= models);
        }
        while cloned < n && plan[n - 1 - cloned].loaded.is_some()
            invariant
                cloned <= n,
                n == plan@.len(),
                models == plan_models(plan@),
                cloned_levels(models) == cloned + cloned_levels(models.take(n - cloned)),
                forall|i: int| n - cloned <= i < n ==> (#[trigger] models[i]).loaded is Some,
            decreases n - cloned,
        {
            proof {
                let rest = models.take(n - cloned);
                assert(rest.last() == models[n - 1 - cloned]);
                assert(models[n - 1 - cloned] == plan@[n - 1 - cloned]@);
                assert(rest.drop_last() =~= models.take(n - cloned - 1));
            }
            cloned += 1;
        }
        proof {
            let rest = models.take(n - cloned);
            if cloned < n {
                assert(rest.last() == models[n - 1 - cloned]);
                assert(models[n - 1 - cloned] == plan@[n - 1 - cloned]@);
            }
            assert(cloned_levels(rest) == 0);
        }
        // The staged node that the copies hang from.
        let stitch: Option<(usize, u64)> = if cloned < n {
            assert(models[n - 1 - cloned] == plan@[n - 1 - cloned]@);
            match plan[n - 1 - cloned].node_id {
                NodeId::Id(id) => Some((plan[n - 1 - cloned].index, id)),
                NodeId::Address(_) => {
                    return Err(Error::WouldCorrupt);
                },
            }
        } else {
            None
        };
        // A staged node is never below a root that is in the file.
        if stitch.is_some() {
            match self.root_node_id {
                NodeId::Id(_) => {},
                NodeId::Address(_) => {
                    return Err(Error::WouldCorrupt);
                },
            }
        }
        if cloned as u64 >= u64::MAX - self.staging.next_id() {
            return Err(Error::WouldCorrupt);
        }
        if !Self::plan_is_sound(&plan, cloned, &update) {
            return Err(Error::WouldCorrupt);
        }
        assert(models[n - 1] == plan@[n - 1]@);
        if cloned == 0 {
            let (_, id) = stitch.unwrap();
            self.stage_in_place(id, plan[n - 1].index, update)
        } else {
            match stitch {
                Some((stitch_index, id)) => {
                    let ok = id < self.staging.next_id() && match self.staging.node(id) {
                        Some(node) => !node.is_leaf() && stitch_index < node.len(),
                        None => false,
                    };
                    if !ok {
                        return Err(Error::WouldCorrupt);
                    }
                },
                None => {},
            }
            self.stage_copies(plan, cloned, stitch, update);
            Ok(())
        }
    }

    /// Makes `update` at `index` in the staged leaf `id`.
    fn stage_in_place(&mut self, id: u64, index: usize, update: Update) -> (r: Result<(), Error>)
        ensures
            final(self).transaction_id == old(self).transaction_id,
            final(self).writer == old(self).writer,
            match r {
                Err(e) => final(self)@ == old(self)@ && e == Error::WouldCorrupt && !(old(
                    self,
                )@.staging.nodes.contains_key(id) && leaf_fits(
                    old(self)@.staging.nodes[id],
                    index as nat,
                    update@,
                )),
                Ok(()) => {
                    &&& old(self)@.staging.nodes.contains_key(id)
                    &&& leaf_fits(old(self)@.staging.nodes[id], index as nat, update@)
                    &&& final(self)@ == with_node(
                        old(self)@,
                        id,
                        NodeModel::Leaf(
                            update@.apply(old(self)@.staging.nodes[id]->Leaf_0, index as int),
                        ),
                    )
                },
            },
    {
        let ok = match self.staging.node(id) {
            Some(node) => node.is_leaf() && match &update {
                Update::Put(_, _) => index <= node.len(),
                Update::Delete(_) => index < node.len(),
            },
            None => false,
        };
        if !ok {
            return Err(Error::WouldCorrupt);
        }
        let mut node = self.staging.take_node(id).unwrap();
        Self::apply_update(&mut node, index, update);
        self.staging.put_node(id, node);
        assert(self@.staging.nodes =~= old(self)@.staging.nodes.insert(
            id,
            NodeModel::Leaf(update@.apply(old(self)@.staging.nodes[id]->Leaf_0, index as int)),
        ));
        Ok(())
    }

    /// Stages copies of the last `cloned` levels of `plan`, which were
    /// read from the file: the leaf with `update` made in it, and above it
    /// each branch with its entry pointed at the copy below. The topmost
    /// copy hangs from the staged node `stitch`, or is the new root.
    fn stage_copies(
        &mut self,
        plan: Vec<PlanFrame>,
        cloned: usize,
        stitch: Option<(usize, u64)>,
        update: Update,
    )
        requires
            0 < cloned <= plan@.len(),
            old(self)@.staging.next_node_id + cloned < u64::MAX,
            forall|i: int|
                plan@.len() - cloned <= i < plan@.len() ==> (#[trigger] plan_models(
                    plan@,
                )[i]).loaded is Some,
            sound(plan_models(plan@), cloned as nat, update@),
            cloned < plan@.len() <==> stitch is Some,
            stitch matches Some((index, id)) ==> {
                &&& plan_models(plan@)[plan@.len() - 1 - cloned].node_id == NodeId::Id(id)
                &&& plan_models(plan@)[plan@.len() - 1 - cloned].index == index
                &&& id < old(self)@.staging.next_node_id
                &&& old(self)@.staging.nodes.contains_key(id)
                &&& old(self)@.staging.nodes[id] is Branch
                &&& index < old(self)@.staging.nodes[id].len()
            },
        ensures
            final(self).transaction_id == old(self).transaction_id,
            final(self).writer == old(self).writer,
            final(self)@ == with_copies(old(self)@, plan_models(plan@), cloned as nat, update@),
    {
        reveal(with_copies);
        let mut plan = plan;
        let n = plan.len();
        let ghost models = plan_models(plan@);
        assert(models.len() == n);
        let ghost first_id = self.staging@.next_node_id;
        let leaf_frame = plan.pop().unwrap();
        proof {
            assert(models[n - 1] == leaf_frame@);
            assert(plan_models(plan@) =~= models.take(n - 1));
        }
        let (leaf_header, mut leaf) = leaf_frame.loaded.unwrap();
        let leaf_address = match leaf_frame.node_id {
            NodeId::Address(a) => a,
            NodeId::Id(_) => 0,
        };
        Self::apply_update(&mut leaf, leaf_frame.index, update);
        self.pending_free_pages.push((leaf_address, leaf_header));
        let mut last_node_id = self.staging.insert_new(leaf);
        let ghost leaf_staged = self@;
        let mut done: usize = 1;
        while done < cloned
            invariant
                1 <= done <= cloned <= n,
                n == models.len(),
                plan@.len() == n - done,
                plan_models(plan@) == models.take(n - done),
                forall|i: int| n - cloned <= i < n ==> (#[trigger] models[i]).loaded is Some,
                sound(models, cloned as nat, update@),
                self.transaction_id == old(self).transaction_id,
                self.writer == old(self).writer,
                self@.staging.next_node_id == first_id + done,
                first_id + cloned < u64::MAX,
                last_node_id == first_id + done - 1,
                chain_from(leaf_staged, models, cloned as nat, 1, first_id) == chain_from(
                    self@,
                    models,
                    cloned as nat,
                    done as nat,
                    last_node_id,
                ),
            decreases cloned - done,
        {
            let ghost before = self@;
            let frame = plan.pop().unwrap();
            proof {
                assert(plan_models(plan@) =~= models.take(n - done - 1));
                assert(models.take(n - done)[n - done - 1] == models[n - 1 - done]);
                assert(frame@ == models[n - 1 - done]);
            }
            let (header, mut node) = frame.loaded.unwrap();
            let address = match frame.node_id {
                NodeId::Address(a) => a,
                NodeId::Id(_) => 0,
            };
            node.set_child_id(frame.index, NodeId::Id(last_node_id));
            self.pending_free_pages.push((address, header));
            let inserted = self.staging.insert_new(node);
            self.staging.insert_parent(last_node_id, inserted);
            last_node_id = inserted;
            done += 1;
        }
        proof {
            lemma_chain_keeps(leaf_staged, models, cloned as nat, 1, first_id);
            let chained = chain_from(leaf_staged, models, cloned as nat, 1, first_id);
            assert(self@ == chained);
            if stitch is Some {
                let id = stitch->Some_0.1;
                assert(leaf_staged.staging.nodes.contains_key(id));
                assert(leaf_staged.staging.nodes[id] == old(self)@.staging.nodes[id]);
                assert(chained.staging.nodes.contains_key(id));
                assert(chained.staging.nodes[id] == old(self)@.staging.nodes[id]);
            }
        }
        match stitch {
            Some((stitch_index, id)) => {
                let mut node = match self.staging.take_node(id) {
                    Some(n) => n,
                    None => {
                        assert(false);
                        return ;
                    },
                };
                node.set_child_id(stitch_index, NodeId::Id(last_node_id));
                self.staging.put_node(id, node);
                self.staging.insert_parent(last_node_id, id);
                proof {
                    let want = with_copies(old(self)@, models, cloned as nat, update@);
                    assert(self@.staging.nodes =~= want.staging.nodes);
                }
            },
            None => {
                self.root_node_id = NodeId::Id(last_node_id);
            },
        }
    }

    /// Tells whether the copies of a plan can take the change.
    fn plan_is_sound(plan: &Vec<PlanFrame>, cloned: usize, update: &Update) -> (ok: bool)
        requires
            cloned <= plan@.len(),
            plan@.len() > 0,
            forall|i: int|
                plan@.len() - cloned <= i < plan@.len() ==> (#[trigger] plan_models(
                    plan@,
                )[i]).loaded is Some,
        ensures
            ok == sound(plan_models(plan@), cloned as nat, update@),
    {
        let n = plan.len();
        let ghost models = plan_models(plan@);
        assert(models.len() == n);
        if cloned == 0 {
            return true;
        }
        assert(models[n - 1] == plan@[n - 1]@);
        let leaf_ok = match &plan[n - 1].loaded {
            Some((_, node)) => node.is_leaf() && match update {
                Update::Put(_, _) => plan[n - 1].index <= node.len(),
                Update::Delete(_) => plan[n - 1].index < node.len(),
            },
            None => false,
        };
        if !leaf_ok {
            return false;
        }
        let mut i: usize = n - cloned;
        while i < n - 1
            invariant
                n - cloned <= i <= n - 1,
                n == plan@.len(),
                models == plan_models(plan@),
                0 < cloned <= n,
                forall|k: int| n - cloned <= k < n ==> (#[trigger] models[k]).loaded is Some,
                forall|k: int|
                    n - cloned <= k < i ==> {
                        &&& (#[trigger] models[k]).loaded->Some_0.1 is Branch
                        &&& models[k].index < models[k].loaded->Some_0.1.len()
                    },
            decreases n - 1 - i,
        {
            assert(models[i as int] == plan@[i as int]@);
            let ok = match &plan[i].loaded {
                Some((_, node)) => !node.is_leaf() && plan[i].index < node.len(),
                None => false,
            };
            if !ok {
                return false;
            }
            i += 1;
        }
        true
    }

    /// Makes `update` in the leaf `leaf` at `index`.
    fn apply_update(leaf: &mut InternalNodes, index: usize, update: Update)
        requires
            leaf_fits(old(leaf)@, index as nat, update@),
        ensures
            final(leaf)@ == NodeModel::Leaf(update@.apply(old(leaf)@->Leaf_0, index as int)),
    {
        match update {
            Update::Put(key, value) => {
                leaf.put_entry_at(index, key, value);
            },
            Update::Delete(_) => {
                leaf.remove_entry_at(index);
            },
        }
    }
}

} // verus!
