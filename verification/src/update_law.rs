use crate::cursor::Frame;
use crate::error::Error;
use crate::merge::{with_new_node, with_node, with_parents};
use crate::node::{LeafEntry, NodeId, NodeModel};
use crate::path::linked;
use crate::reader::{Loaded, NodeReader};
use crate::spine::respined;
use crate::staging::Staged;
use crate::tree::ordered_tree;
use crate::tree_update::{
    closed_refs, is_entry, lemma_file_children, lemma_height_unique, lemma_path_bounds,
    lemma_staged_node, path_hi, path_lo, ref_at, same_but, touched, unique_refs,
};
use crate::tx::TxModel;
use crate::update::{
    address_of, chain_from, Change, cloned_levels, lemma_chain_keeps, plan_of_frame, PlanModel,
    pointed_at, staged_change, with_copies,
};
use vstd::prelude::*;

verus! {

/// The plan that stands for a path.
pub open spec fn plan_for(path: Seq<Frame>) -> Seq<PlanModel> {
    path.map_values(|f: Frame| plan_of_frame(f))
}

/// The numbers of the staged nodes along a path after an update: the
/// levels at the end of the path that were read from the file get the
/// numbers from `first` on, the leaf the first; the levels above them keep
/// theirs.
pub open spec fn new_ids(path: Seq<Frame>, first: u64) -> Seq<u64> {
    let n = path.len() as int;
    let cloned = cloned_levels(plan_for(path)) as int;
    Seq::new(
        path.len(),
        |d: int|
            if d >= n - cloned {
                (first + (n - 1 - d)) as u64
            } else {
                path[d].node_id->Id_0
            },
    )
}

/// The levels at the end of a plan that were read from the file are
/// those, and the level above them was not.
pub proof fn lemma_cloned_levels(plan: Seq<PlanModel>)
    ensures
        cloned_levels(plan) <= plan.len(),
        forall|d: int|
            plan.len() - cloned_levels(plan) <= d < plan.len() ==> (#[trigger] plan[d]).loaded is Some,
        cloned_levels(plan) < plan.len() ==> plan[plan.len() - 1 - cloned_levels(plan)].loaded is None,
    decreases plan.len(),
{
    if plan.len() > 0 && plan.last().loaded is Some {
        let rest = plan.drop_last();
        lemma_cloned_levels(rest);
        assert forall|d: int| plan.len() - cloned_levels(plan) <= d < plan.len() implies (
        #[trigger] plan[d]).loaded is Some by {
            if d < plan.len() - 1 {
                assert(rest[d] == plan[d]);
            }
        }
        if cloned_levels(plan) < plan.len() {
            assert(rest[rest.len() - 1 - cloned_levels(rest)] == plan[plan.len() - 1
                - cloned_levels(plan)]);
        }
    }
}

/// A level of a path that a write transaction reads was read from the
/// file exactly where it is referred to by an address, and above a staged
/// level every level is staged.
pub proof fn lemma_levels(r: &Staged, path: Seq<Frame>, d: int)
    requires
        linked(r, path),
        0 <= d < path.len(),
    ensures
        path[d].node.header is Some <==> path[d].node_id is Address,
        path[d].node_id matches NodeId::Id(x) ==> r.staging@.nodes.contains_key(x)
            && r.staging@.nodes[x] == path[d].node.node,
        path[d].node_id is Id ==> forall|e: int| 0 <= e <= d ==> (#[trigger] path[e]).node_id is Id,
    decreases d,
{
    assert(r.loaded(path[d].node_id) == Ok::<Loaded, Error>(path[d].node));
    match path[d].node_id {
        NodeId::Address(a) => {
            lemma_file_children(r, a);
        },
        NodeId::Id(x) => {
            lemma_staged_node(r, x);
            if d > 0 {
                let up = d - 1;
                assert(r.loaded(path[up].node_id) == Ok::<Loaded, Error>(path[up].node));
                let es = path[up].node.node->Branch_0;
                assert(es[path[up].index as int].node_id == path[d].node_id);
                match path[up].node_id {
                    NodeId::Address(a) => {
                        lemma_file_children(r, a);
                        assert(es[path[up].index as int].node_id is Address);
                    },
                    NodeId::Id(_) => {},
                }
                lemma_levels(r, path, up);
                assert forall|e: int| 0 <= e <= d implies (#[trigger] path[e]).node_id is Id by {
                    if e < d {
                        assert(path[e].node_id is Id);
                    }
                }
            }
        },
    }
}

/// Two levels of a path in a search tree are different nodes.
pub proof fn lemma_distinct_levels<R: NodeReader>(r: &R, path: Seq<Frame>, height: nat, d: int, e: int)
    requires
        linked(r, path),
        ordered_tree(r, path[0].node_id, height, None, None),
        0 <= d < path.len(),
        0 <= e < path.len(),
        d != e,
    ensures
        path[d].node_id != path[e].node_id,
{
    lemma_path_bounds(r, path, height, d);
    lemma_path_bounds(r, path, height, e);
    if path[d].node_id == path[e].node_id {
        lemma_height_unique(
            r,
            path[d].node_id,
            (height - d) as nat,
            path_lo(path, d),
            path_hi(path, d),
            (height - e) as nat,
            path_lo(path, e),
            path_hi(path, e),
        );
    }
}

/// A branch whose entry `index` refers to the staged node `child` is the
/// branch with that entry pointed at `child`.
pub proof fn lemma_pointed_same(node: NodeModel, index: int, child: u64)
    requires
        node is Branch,
        0 <= index < node.len(),
        node->Branch_0[index].node_id == NodeId::Id(child),
    ensures
        pointed_at(node, index, child) == node,
{
    let es = node->Branch_0;
    assert(es.update(
        index,
        crate::node::BranchEntry { key: es[index].key, node_id: NodeId::Id(child) },
    ) =~= es);
}

/// The copies that the chain stages: the copy of the level `m` levels
/// above the leaf is staged under the number that is `m` after the first,
/// with its entry pointed at the copy below.
pub proof fn lemma_chain_nodes(
    st: TxModel,
    plan: Seq<PlanModel>,
    cloned: nat,
    done: nat,
    last_id: u64,
    m: nat,
)
    requires
        1 <= done <= m < cloned,
        st.staging.next_node_id + (cloned - done) < u64::MAX,
        last_id + 1 == st.staging.next_node_id,
    ensures
        ({
            let end = chain_from(st, plan, cloned, done, last_id);
            let id = (st.staging.next_node_id + (m - done)) as u64;
            let f = plan[plan.len() - 1 - m];
            &&& end.staging.nodes.contains_key(id)
            &&& end.staging.nodes[id] == pointed_at(
                f.loaded->Some_0.1,
                f.index as int,
                (id - 1) as u64,
            )
        }),
    decreases cloned - done,
{
    let f = plan[plan.len() - 1 - done];
    let id = st.staging.next_node_id;
    let copy = pointed_at(f.loaded->Some_0.1, f.index as int, last_id);
    let staged = TxModel {
        pending: st.pending.push((address_of(f.node_id), f.loaded->Some_0.0)),
        ..with_parents(with_new_node(st, copy), st.staging.parent.insert(last_id, id))
    };
    assert(chain_from(st, plan, cloned, done, last_id) == chain_from(
        staged,
        plan,
        cloned,
        done + 1,
        id,
    ));
    if m == done {
        lemma_chain_keeps(staged, plan, cloned, done + 1, id);
        assert(staged.staging.nodes.contains_key(id));
        assert(staged.staging.nodes[id] == copy);
    } else {
        lemma_chain_nodes(staged, plan, cloned, done + 1, id, m);
    }
}

/// The chain gives out numbers in turn and stages nothing under a number
/// it has not given out.
pub proof fn lemma_chain_fresh(st: TxModel, plan: Seq<PlanModel>, cloned: nat, done: nat, last_id: u64)
    requires
        done <= cloned,
        st.staging.next_node_id + (cloned - done) < u64::MAX,
        st.staging.fresh(),
    ensures
        chain_from(st, plan, cloned, done, last_id).staging.fresh(),
    decreases cloned - done,
{
    if done < cloned {
        let f = plan[plan.len() - 1 - done];
        let id = st.staging.next_node_id;
        let copy = pointed_at(f.loaded->Some_0.1, f.index as int, last_id);
        let staged = TxModel {
            pending: st.pending.push((address_of(f.node_id), f.loaded->Some_0.0)),
            ..with_parents(with_new_node(st, copy), st.staging.parent.insert(last_id, id))
        };
        assert(staged.staging.fresh()) by {
            assert forall|k: u64| staged.staging.nodes.contains_key(k) implies k
                < staged.staging.next_node_id by {
                if k != id {
                    assert(st.staging.nodes.contains_key(k));
                }
            }
        }
        lemma_chain_fresh(staged, plan, cloned, done + 1, id);
    }
}

/// What staging a change comes to, case by case.
pub proof fn lemma_staged_change_cases(st: TxModel, plan: Seq<PlanModel>, change: Change, st2: TxModel)
    requires
        staged_change(st, plan, change) == Ok::<TxModel, Error>(st2),
    ensures
        plan.len() > 0,
        cloned_levels(plan) + st.staging.next_node_id < u64::MAX,
        cloned_levels(plan) < plan.len() ==> plan[plan.len() - 1 - cloned_levels(plan)].node_id is Id
            && st.root is Id,
        cloned_levels(plan) == 0 ==> {
            let id = plan[plan.len() - 1].node_id->Id_0;
            &&& st.staging.nodes.contains_key(id)
            &&& st2 == with_node(
                st,
                id,
                NodeModel::Leaf(
                    change.apply(st.staging.nodes[id]->Leaf_0, plan[plan.len() - 1].index as int),
                ),
            )
        },
        cloned_levels(plan) > 0 ==> st2 == with_copies(st, plan, cloned_levels(plan), change),
        cloned_levels(plan) > 0 && cloned_levels(plan) < plan.len() ==> {
            let stitch = plan[plan.len() - 1 - cloned_levels(plan)];
            &&& stitch.node_id->Id_0 < st.staging.next_node_id
            &&& st.staging.nodes.contains_key(stitch.node_id->Id_0)
        },
{
    reveal(staged_change);
    lemma_cloned_levels(plan);
}

/// The staged nodes after a change was staged with copies: the new leaf
/// under the first new number, the copy of each branch under the next,
/// with its entry pointed at the copy below, and the staged node that the
/// copies hang from with its entry pointed at the topmost copy. The other
/// staged nodes are as they were.
pub proof fn lemma_copies_nodes(st: TxModel, plan: Seq<PlanModel>, change: Change)
    requires
        0 < cloned_levels(plan) <= plan.len(),
        st.staging.next_node_id + cloned_levels(plan) < u64::MAX,
        st.staging.fresh(),
        cloned_levels(plan) < plan.len() ==> plan[plan.len() - 1 - cloned_levels(plan)].node_id->Id_0
            < st.staging.next_node_id,
    ensures
        ({
            let n = plan.len() as int;
            let cloned = cloned_levels(plan);
            let st2 = with_copies(st, plan, cloned, change);
            let first = st.staging.next_node_id;
            let last = (first + cloned - 1) as u64;
            let leaf = plan[n - 1];
            let sid = plan[n - 1 - cloned].node_id->Id_0;
            &&& st2.staging.fresh()
            &&& st2.staging.next_node_id == first + cloned
            &&& st2.root == if cloned < n {
                st.root
            } else {
                NodeId::Id(last)
            }
            &&& st2.staging.nodes.contains_key(first)
            &&& st2.staging.nodes[first] == NodeModel::Leaf(
                change.apply(leaf.loaded->Some_0.1->Leaf_0, leaf.index as int),
            )
            &&& forall|m: int|
                1 <= m < cloned ==> st2.staging.nodes.contains_key(#[trigger] ((first + m) as u64))
                    && st2.staging.nodes[(first + m) as u64] == pointed_at(
                    plan[n - 1 - m].loaded->Some_0.1,
                    plan[n - 1 - m].index as int,
                    (first + m - 1) as u64,
                )
            &&& cloned < n ==> st2.staging.nodes.contains_key(sid) && st2.staging.nodes[sid]
                == pointed_at(st.staging.nodes[sid], plan[n - 1 - cloned].index as int, last)
            &&& forall|x: u64|
                x < first && !(cloned < n && x == sid) ==> (
                #[trigger] st2.staging.nodes.contains_key(x)) == st.staging.nodes.contains_key(x)
            &&& forall|x: u64|
                x < first && !(cloned < n && x == sid) ==> (#[trigger] st2.staging.nodes[x])
                    == st.staging.nodes[x]
        }),
{
    reveal(with_copies);
    let n = plan.len() as int;
    let cloned = cloned_levels(plan);
    let st2 = with_copies(st, plan, cloned, change);
    let first = st.staging.next_node_id;
    let last = (first + cloned - 1) as u64;
    let leaf = plan[n - 1];
    let entries2 = change.apply(leaf.loaded->Some_0.1->Leaf_0, leaf.index as int);
    let leaf_staged = TxModel {
        pending: st.pending.push((address_of(leaf.node_id), leaf.loaded->Some_0.0)),
        ..with_new_node(st, NodeModel::Leaf(entries2))
    };
    let chained = chain_from(leaf_staged, plan, cloned, 1, first);
    lemma_chain_keeps(leaf_staged, plan, cloned, 1, first);
    assert(leaf_staged.staging.fresh()) by {
        assert forall|k: u64| leaf_staged.staging.nodes.contains_key(k) implies k
            < leaf_staged.staging.next_node_id by {
            if k != first {
                assert(st.staging.nodes.contains_key(k));
            }
        }
    }
    lemma_chain_fresh(leaf_staged, plan, cloned, 1, first);
    assert(chained.staging.nodes.contains_key(first));
    assert(chained.staging.nodes[first] == NodeModel::Leaf(entries2));
    assert forall|x: u64| x < first implies (#[trigger] chained.staging.nodes.contains_key(x))
        == st.staging.nodes.contains_key(x) by {
        assert(leaf_staged.staging.nodes.contains_key(x) == st.staging.nodes.contains_key(x));
    }
    assert forall|x: u64| x < first implies (#[trigger] chained.staging.nodes[x])
        == st.staging.nodes[x] by {
        assert(leaf_staged.staging.nodes[x] == st.staging.nodes[x]);
    }
    assert forall|m: int| 1 <= m < cloned implies chained.staging.nodes.contains_key(
        #[trigger] ((first + m) as u64),
    ) && chained.staging.nodes[(first + m) as u64] == pointed_at(
        plan[n - 1 - m].loaded->Some_0.1,
        plan[n - 1 - m].index as int,
        (first + m - 1) as u64,
    ) by {
        lemma_chain_nodes(leaf_staged, plan, cloned, 1, first, m as nat);
    }
    if cloned < n {
        let sid = plan[n - 1 - cloned].node_id->Id_0;
        assert(st2.staging.nodes == chained.staging.nodes.insert(
            sid,
            pointed_at(chained.staging.nodes[sid], plan[n - 1 - cloned].index as int, last),
        ));
        assert(st2.staging.fresh()) by {
            assert forall|k: u64| st2.staging.nodes.contains_key(k) implies k
                < st2.staging.next_node_id by {
                if k != sid {
                    assert(chained.staging.nodes.contains_key(k));
                }
            }
        }
    } else {
        assert(st2.staging.nodes == chained.staging.nodes);
    }
}

/// A reader that reads the same file, and the same staged nodes but for
/// those with a number in `ids`, reads the same but for those.
pub proof fn lemma_same_but_intro(r: &Staged, r2: &Staged, ids: Set<u64>)
    requires
        r2.store@ == r.store@,
        forall|x: u64|
            r.staging@.nodes.contains_key(x) && !ids.contains(x) ==> (
            #[trigger] r2.staging@.nodes.contains_key(x)) && r2.staging@.nodes[x]
                == r.staging@.nodes[x],
    ensures
        same_but(r, r2, ids),
{
    assert forall|a: u64| #[trigger]
        r2.loaded(NodeId::Address(a)) == r.loaded(NodeId::Address(a)) by {}
    assert forall|x: u64| r.loaded(NodeId::Id(x)) is Ok && !ids.contains(x) implies #[trigger] r2.loaded(
        NodeId::Id(x),
    ) == r.loaded(NodeId::Id(x)) by {
        assert(r.staging@.nodes.contains_key(x));
        assert(r2.staging@.nodes.contains_key(x));
    }
}

/// What `respined` asks for, piece by piece.
pub proof fn lemma_respined_intro(
    r: &Staged,
    r2: &Staged,
    path: Seq<Frame>,
    ids2: Seq<u64>,
    entries2: Seq<LeafEntry>,
)
    requires
        ids2.len() == path.len(),
        forall|d: int|
            0 <= d < path.len() - 1 ==> r2.loaded(NodeId::Id(#[trigger] ids2[d])) == Ok::<
                Loaded,
                Error,
            >(
                Loaded {
                    header: None,
                    node: pointed_at(path[d].node.node, path[d].index as int, ids2[d + 1]),
                },
            ),
        r2.staging@.nodes.contains_key(ids2.last()),
        r2.staging@.nodes[ids2.last()] == NodeModel::Leaf(entries2),
        same_but(r, r2, touched(path, r.staging@.next_node_id)),
    ensures
        respined(r, r2, path, ids2, entries2),
{
}

/// Whether `r`, `st`, `path` and `change` are what an update starts
/// from: `r` reads the staged nodes of `st`, `path` is a path from the
/// root of `st` to a leaf in a search tree of height `height`, and no
/// staged node of `st` has a number that has not been given out.
pub open spec fn update_ready(r: &Staged, st: TxModel, path: Seq<Frame>, height: nat) -> bool {
    &&& r.staging@ == st.staging
    &&& linked(r, path)
    &&& path.last().node.node is Leaf
    &&& path[0].node_id == st.root
    &&& ordered_tree(r, st.root, height, None, None)
    &&& st.staging.fresh()
}

/// What the reader after an update reads at level `d` of the path, where
/// the change was staged in place.
pub proof fn lemma_in_place_level(
    r: &Staged,
    r2: &Staged,
    st: TxModel,
    path: Seq<Frame>,
    height: nat,
    entries2: Seq<LeafEntry>,
    d: int,
)
    requires
        update_ready(r, st, path, height),
        cloned_levels(plan_for(path)) == 0,
        path.last().node_id is Id,
        r2.staging@ == with_node(
            st,
            path.last().node_id->Id_0,
            NodeModel::Leaf(entries2),
        ).staging,
        0 <= d < path.len() - 1,
    ensures
        r2.loaded(NodeId::Id(new_ids(path, st.staging.next_node_id)[d])) == Ok::<Loaded, Error>(
            Loaded {
                header: None,
                node: pointed_at(
                    path[d].node.node,
                    path[d].index as int,
                    new_ids(path, st.staging.next_node_id)[d + 1],
                ),
            },
        ),
{
    let n = path.len() as int;
    let ids2 = new_ids(path, st.staging.next_node_id);
    assert(path.last() == path[n - 1]);
    let id = path.last().node_id->Id_0;
    lemma_levels(r, path, n - 1);
    lemma_levels(r, path, d);
    lemma_distinct_levels(r, path, height, d, n - 1);
    let x = path[d].node_id->Id_0;
    assert(ids2[d] == x);
    assert(x != id);
    let es = path[d].node.node->Branch_0;
    assert(es[path[d].index as int].node_id == path[d + 1].node_id);
    assert(path[d + 1].node_id == NodeId::Id(ids2[d + 1]));
    lemma_pointed_same(path[d].node.node, path[d].index as int, ids2[d + 1]);
}

/// A change that is staged in place, in a leaf that is staged already,
/// leaves the tree with a new leaf at the end of the path and nothing else
/// changed.
pub proof fn lemma_in_place_respines(
    r: &Staged,
    r2: &Staged,
    st: TxModel,
    path: Seq<Frame>,
    height: nat,
    entries2: Seq<LeafEntry>,
)
    requires
        update_ready(r, st, path, height),
        r2.store@ == r.store@,
        cloned_levels(plan_for(path)) == 0,
        path.last().node_id is Id,
        r2.staging@ == with_node(
            st,
            path.last().node_id->Id_0,
            NodeModel::Leaf(entries2),
        ).staging,
    ensures
        respined(r, r2, path, new_ids(path, st.staging.next_node_id), entries2),
        st.root == NodeId::Id(new_ids(path, st.staging.next_node_id)[0]),
        r2.staging@.fresh(),
{
    let n = path.len() as int;
    let first = st.staging.next_node_id;
    let ids2 = new_ids(path, first);
    assert(path.last() == path[n - 1]);
    let id = path.last().node_id->Id_0;
    lemma_in_place_frame(r, r2, st, path, entries2);
    assert forall|d: int| 0 <= d < path.len() - 1 implies r2.loaded(
        NodeId::Id(#[trigger] ids2[d]),
    ) == Ok::<Loaded, Error>(
        Loaded {
            header: None,
            node: pointed_at(path[d].node.node, path[d].index as int, ids2[d + 1]),
        },
    ) by {
        lemma_in_place_level(r, r2, st, path, height, entries2, d);
    }
    lemma_respined_intro(r, r2, path, ids2, entries2);
}

/// The staged nodes after a change was staged in place are those before,
/// but for the leaf at the end of the path.
pub proof fn lemma_in_place_frame(
    r: &Staged,
    r2: &Staged,
    st: TxModel,
    path: Seq<Frame>,
    entries2: Seq<LeafEntry>,
)
    requires
        r.staging@ == st.staging,
        linked(r, path),
        path[0].node_id == st.root,
        st.staging.fresh(),
        r2.store@ == r.store@,
        cloned_levels(plan_for(path)) == 0,
        path.last().node_id is Id,
        r2.staging@ == with_node(
            st,
            path.last().node_id->Id_0,
            NodeModel::Leaf(entries2),
        ).staging,
    ensures
        same_but(r, r2, touched(path, st.staging.next_node_id)),
        new_ids(path, st.staging.next_node_id).len() == path.len(),
        new_ids(path, st.staging.next_node_id).last() == path.last().node_id->Id_0,
        r2.staging@.nodes.contains_key(path.last().node_id->Id_0),
        r2.staging@.nodes[path.last().node_id->Id_0] == NodeModel::Leaf(entries2),
        st.root == NodeId::Id(new_ids(path, st.staging.next_node_id)[0]),
        r2.staging@.fresh(),
{
    let n = path.len() as int;
    let first = st.staging.next_node_id;
    let ids2 = new_ids(path, first);
    assert(path.last() == path[n - 1]);
    let id = path.last().node_id->Id_0;
    lemma_levels(r, path, n - 1);
    let ids = touched(path, first);
    assert(ids.contains(id));
    assert forall|x: u64| r.staging@.nodes.contains_key(x) && !ids.contains(x) implies (
    #[trigger] r2.staging@.nodes.contains_key(x)) && r2.staging@.nodes[x]
        == r.staging@.nodes[x] by {
        assert(x != id);
    }
    lemma_same_but_intro(r, r2, ids);
    assert(r2.staging@.fresh()) by {
        assert forall|k: u64| r2.staging@.nodes.contains_key(k) implies k
            < r2.staging@.next_node_id by {
            if k != id {
                assert(st.staging.nodes.contains_key(k));
            }
        }
    }
    assert(path[0].node_id is Id);
    assert(ids2[0] == path[0].node_id->Id_0);
}

/// What the reader after an update reads at level `d` of the path, where
/// the change was staged with copies.
pub proof fn lemma_copies_level(
    r: &Staged,
    r2: &Staged,
    st: TxModel,
    path: Seq<Frame>,
    height: nat,
    change: Change,
    d: int,
)
    requires
        update_ready(r, st, path, height),
        0 < cloned_levels(plan_for(path)),
        st.staging.next_node_id + cloned_levels(plan_for(path)) < u64::MAX,
        cloned_levels(plan_for(path)) < path.len() ==> path[path.len() - 1 - cloned_levels(
            plan_for(path),
        )].node_id is Id,
        r2.staging@ == with_copies(st, plan_for(path), cloned_levels(plan_for(path)), change).staging,
        0 <= d < path.len() - 1,
    ensures
        r2.loaded(NodeId::Id(new_ids(path, st.staging.next_node_id)[d])) == Ok::<Loaded, Error>(
            Loaded {
                header: None,
                node: pointed_at(
                    path[d].node.node,
                    path[d].index as int,
                    new_ids(path, st.staging.next_node_id)[d + 1],
                ),
            },
        ),
{
    let n = path.len() as int;
    let plan = plan_for(path);
    let cloned = cloned_levels(plan);
    let first = st.staging.next_node_id;
    let ids2 = new_ids(path, first);
    let last = (first + cloned - 1) as u64;
    lemma_cloned_levels(plan);
    let q = n - 1 - cloned;
    assert(plan[d] == plan_of_frame(path[d]));
    if cloned < n {
        assert(plan[q] == plan_of_frame(path[q]));
        lemma_levels(r, path, q);
        assert(path[q].node_id->Id_0 < first);
    }
    lemma_copies_nodes(st, plan, change);
    let st2 = with_copies(st, plan, cloned, change);
    if d >= n - cloned {
        let m = n - 1 - d;
        assert(1 <= m < cloned);
        assert(st2.staging.nodes.contains_key((first + m) as u64));
        assert(ids2[d] == first + m);
        assert(ids2[d + 1] == first + m - 1);
        lemma_levels(r, path, d);
        assert(plan[d].loaded->Some_0.1 == path[d].node.node);
    } else if d == q {
        assert(ids2[d] == path[q].node_id->Id_0);
        assert(ids2[d + 1] == last);
    } else {
        lemma_levels(r, path, d);
        lemma_distinct_levels(r, path, height, d, q);
        let x = path[d].node_id->Id_0;
        assert(ids2[d] == x);
        assert(x < first);
        assert(x != path[q].node_id->Id_0);
        let es = path[d].node.node->Branch_0;
        assert(es[path[d].index as int].node_id == path[d + 1].node_id);
        assert(path[d + 1].node_id is Id);
        assert(path[d + 1].node_id == NodeId::Id(ids2[d + 1]));
        lemma_pointed_same(path[d].node.node, path[d].index as int, ids2[d + 1]);
        assert(st2.staging.nodes.contains_key(x));
        assert(st2.staging.nodes[x] == st.staging.nodes[x]);
    }
}

/// The staged nodes after a change was staged with copies are those
/// before, but for the nodes on the path and the new ones.
pub proof fn lemma_copies_frame(
    r: &Staged,
    r2: &Staged,
    st: TxModel,
    path: Seq<Frame>,
    change: Change,
)
    requires
        r.staging@ == st.staging,
        linked(r, path),
        path[0].node_id == st.root,
        st.staging.fresh(),
        r2.store@ == r.store@,
        0 < cloned_levels(plan_for(path)),
        st.staging.next_node_id + cloned_levels(plan_for(path)) < u64::MAX,
        cloned_levels(plan_for(path)) < path.len() ==> path[path.len() - 1 - cloned_levels(
            plan_for(path),
        )].node_id is Id,
        r2.staging@ == with_copies(st, plan_for(path), cloned_levels(plan_for(path)), change).staging,
    ensures
        same_but(r, r2, touched(path, st.staging.next_node_id)),
        new_ids(path, st.staging.next_node_id).len() == path.len(),
        r2.staging@.nodes.contains_key(new_ids(path, st.staging.next_node_id).last()),
        r2.staging@.nodes[new_ids(path, st.staging.next_node_id).last()] == NodeModel::Leaf(
            change.apply(path.last().node.node->Leaf_0, path.last().index as int),
        ),
        with_copies(st, plan_for(path), cloned_levels(plan_for(path)), change).root == NodeId::Id(
            new_ids(path, st.staging.next_node_id)[0],
        ),
        r2.staging@.fresh(),
{
    let n = path.len() as int;
    let plan = plan_for(path);
    let cloned = cloned_levels(plan);
    let first = st.staging.next_node_id;
    let ids2 = new_ids(path, first);
    let last = (first + cloned - 1) as u64;
    assert(path.last() == path[n - 1]);
    lemma_cloned_levels(plan);
    let q = n - 1 - cloned;
    assert(plan[n - 1] == plan_of_frame(path[n - 1]));
    lemma_levels(r, path, n - 1);
    if cloned < n {
        assert(plan[q] == plan_of_frame(path[q]));
        lemma_levels(r, path, q);
        assert(path[q].node_id->Id_0 < first);
    }
    lemma_copies_nodes(st, plan, change);
    let st2 = with_copies(st, plan, cloned, change);
    assert(ids2.last() == first);
    assert(plan[n - 1].loaded->Some_0.1 == path[n - 1].node.node);
    let ids = touched(path, first);
    assert forall|x: u64| r.staging@.nodes.contains_key(x) && !ids.contains(x) implies (
    #[trigger] r2.staging@.nodes.contains_key(x)) && r2.staging@.nodes[x]
        == r.staging@.nodes[x] by {
        assert(x < first);
        if cloned < n {
            assert(ids.contains(path[q].node_id->Id_0));
            assert(x != path[q].node_id->Id_0);
        }
        assert(st2.staging.nodes.contains_key(x) == st.staging.nodes.contains_key(x));
        assert(st2.staging.nodes[x] == st.staging.nodes[x]);
    }
    lemma_same_but_intro(r, r2, ids);
    if cloned < n {
        assert(path[0].node_id is Id);
        assert(ids2[0] == path[0].node_id->Id_0);
    } else {
        assert(ids2[0] == last);
    }
}

/// A change that is staged with copies of the levels that were read from
/// the file leaves the tree with new nodes along the path and nothing else
/// changed.
pub proof fn lemma_copies_respine(
    r: &Staged,
    r2: &Staged,
    st: TxModel,
    path: Seq<Frame>,
    height: nat,
    change: Change,
)
    requires
        update_ready(r, st, path, height),
        r2.store@ == r.store@,
        0 < cloned_levels(plan_for(path)),
        st.staging.next_node_id + cloned_levels(plan_for(path)) < u64::MAX,
        cloned_levels(plan_for(path)) < path.len() ==> path[path.len() - 1 - cloned_levels(
            plan_for(path),
        )].node_id is Id,
        r2.staging@ == with_copies(st, plan_for(path), cloned_levels(plan_for(path)), change).staging,
    ensures
        respined(
            r,
            r2,
            path,
            new_ids(path, st.staging.next_node_id),
            change.apply(path.last().node.node->Leaf_0, path.last().index as int),
        ),
        with_copies(st, plan_for(path), cloned_levels(plan_for(path)), change).root == NodeId::Id(
            new_ids(path, st.staging.next_node_id)[0],
        ),
        r2.staging@.fresh(),
{
    let ids2 = new_ids(path, st.staging.next_node_id);
    lemma_copies_frame(r, r2, st, path, change);
    assert forall|d: int| 0 <= d < path.len() - 1 implies r2.loaded(
        NodeId::Id(#[trigger] ids2[d]),
    ) == Ok::<Loaded, Error>(
        Loaded {
            header: None,
            node: pointed_at(path[d].node.node, path[d].index as int, ids2[d + 1]),
        },
    ) by {
        lemma_copies_level(r, r2, st, path, height, change, d);
    }
    lemma_respined_intro(
        r,
        r2,
        path,
        ids2,
        change.apply(path.last().node.node->Leaf_0, path.last().index as int),
    );
}

/// A change that is staged in place changes no entry of a staged branch.
pub proof fn lemma_in_place_refs(st: TxModel, id: u64, entries2: Seq<LeafEntry>)
    requires
        st.staging.nodes.contains_key(id),
        st.staging.nodes[id] is Leaf,
        unique_refs(st.staging),
        closed_refs(st.staging),
    ensures
        unique_refs(with_node(st, id, NodeModel::Leaf(entries2)).staging),
        closed_refs(with_node(st, id, NodeModel::Leaf(entries2)).staging),
{
    let s1 = st.staging;
    let s2 = with_node(st, id, NodeModel::Leaf(entries2)).staging;
    assert forall|a: u64, i: int| is_entry(s2, a, i) implies is_entry(s1, a, i) && #[trigger] ref_at(
        s2,
        a,
        i,
    ) == ref_at(s1, a, i) by {
        assert(a != id);
    }
    assert forall|a: u64, i: int, b: u64, j: int|
        is_entry(s2, a, i) && is_entry(s2, b, j) && #[trigger] ref_at(s2, a, i) == #[trigger] ref_at(
            s2,
            b,
            j,
        ) && ref_at(s2, a, i) is Id implies a == b && i == j by {
        assert(ref_at(s1, a, i) == ref_at(s1, b, j));
    }
    assert forall|a: u64, i: int| is_entry(s2, a, i) && #[trigger] ref_at(s2, a, i) is Id implies s2.nodes.contains_key(
        ref_at(s2, a, i)->Id_0,
    ) by {
        assert(ref_at(s1, a, i) is Id);
    }
}

/// Where an entry of a staged branch refers to a staged node after a
/// change was staged with copies: it is an entry that was there before
/// and refers to a node that was there before, or it is the entry of a
/// copy that refers to the copy below, or it is the entry of the staged
/// node that the copies hang from.
pub open spec fn copy_ref(st: TxModel, path: Seq<Frame>, a: u64, i: int, x: u64) -> bool {
    let n = path.len() as int;
    let cloned = cloned_levels(plan_for(path)) as int;
    let first = st.staging.next_node_id;
    ||| (x < first && a < first && is_entry(st.staging, a, i) && ref_at(st.staging, a, i)
        == NodeId::Id(x) && !(cloned < n && a == path[n - 1 - cloned].node_id->Id_0 && i
        == path[n - 1 - cloned].index))
    ||| (first <= x && x + 1 == a && a < first + cloned && i == path[n - 1 - (a - first)].index)
    ||| (cloned < n && x == first + cloned - 1 && a == path[n - 1 - cloned].node_id->Id_0 && i
        == path[n - 1 - cloned].index)
}

/// Every entry of a staged branch that refers to a staged node after a
/// change was staged with copies is of one of the three kinds.
pub proof fn lemma_copy_refs(
    r: &Staged,
    st: TxModel,
    path: Seq<Frame>,
    height: nat,
    change: Change,
    a: u64,
    i: int,
)
    requires
        update_ready(r, st, path, height),
        closed_refs(st.staging),
        0 < cloned_levels(plan_for(path)),
        st.staging.next_node_id + cloned_levels(plan_for(path)) < u64::MAX,
        cloned_levels(plan_for(path)) < path.len() ==> path[path.len() - 1 - cloned_levels(
            plan_for(path),
        )].node_id is Id,
        is_entry(
            with_copies(st, plan_for(path), cloned_levels(plan_for(path)), change).staging,
            a,
            i,
        ),
        ref_at(
            with_copies(st, plan_for(path), cloned_levels(plan_for(path)), change).staging,
            a,
            i,
        ) is Id,
    ensures
        copy_ref(
            st,
            path,
            a,
            i,
            ref_at(
                with_copies(st, plan_for(path), cloned_levels(plan_for(path)), change).staging,
                a,
                i,
            )->Id_0,
        ),
{
    let n = path.len() as int;
    let plan = plan_for(path);
    let cloned = cloned_levels(plan);
    let first = st.staging.next_node_id;
    let last = (first + cloned - 1) as u64;
    lemma_cloned_levels(plan);
    let q = n - 1 - cloned;
    assert(path.last() == path[n - 1]);
    assert(plan[n - 1] == plan_of_frame(path[n - 1]));
    if cloned < n {
        assert(plan[q] == plan_of_frame(path[q]));
        lemma_levels(r, path, q);
    }
    lemma_copies_nodes(st, plan, change);
    let st2 = with_copies(st, plan, cloned, change);
    let x = ref_at(st2.staging, a, i)->Id_0;
    assert(a < first + cloned);
    if a >= first {
        let m = a - first;
        if m == 0 {
            assert(st2.staging.nodes[a] is Leaf);
        } else {
            assert(st2.staging.nodes.contains_key((first + m) as u64));
            let d = n - 1 - m;
            assert(plan[d] == plan_of_frame(path[d]));
            lemma_levels(r, path, d);
            assert(plan[d].loaded->Some_0.1 == path[d].node.node);
            let es = path[d].node.node->Branch_0;
            if i != path[d].index {
                assert(r.loaded(path[d].node_id) == Ok::<Loaded, Error>(path[d].node));
                lemma_file_children(r, path[d].node_id->Address_0);
                assert(es[i].node_id is Address);
            }
        }
    } else if cloned < n && a == path[q].node_id->Id_0 {
        if i != path[q].index {
            assert(ref_at(st.staging, a, i) == NodeId::Id(x));
            assert(is_entry(st.staging, a, i));
            assert(st.staging.nodes.contains_key(x));
        }
    } else {
        assert(st2.staging.nodes[a] == st.staging.nodes[a]);
        assert(st2.staging.nodes.contains_key(a) == st.staging.nodes.contains_key(a));
        assert(is_entry(st.staging, a, i));
        assert(ref_at(st.staging, a, i) == NodeId::Id(x));
        assert(st.staging.nodes.contains_key(x));
    }
}

/// After a change was staged with copies no staged node is referred to by
/// two entries, and every staged node that is referred to is staged.
pub proof fn lemma_copies_refs(r: &Staged, st: TxModel, path: Seq<Frame>, height: nat, change: Change)
    requires
        update_ready(r, st, path, height),
        unique_refs(st.staging),
        closed_refs(st.staging),
        0 < cloned_levels(plan_for(path)),
        st.staging.next_node_id + cloned_levels(plan_for(path)) < u64::MAX,
        cloned_levels(plan_for(path)) < path.len() ==> path[path.len() - 1 - cloned_levels(
            plan_for(path),
        )].node_id is Id,
    ensures
        unique_refs(
            with_copies(st, plan_for(path), cloned_levels(plan_for(path)), change).staging,
        ),
        closed_refs(
            with_copies(st, plan_for(path), cloned_levels(plan_for(path)), change).staging,
        ),
{
    let n = path.len() as int;
    let plan = plan_for(path);
    let cloned = cloned_levels(plan);
    let first = st.staging.next_node_id;
    lemma_cloned_levels(plan);
    let q = n - 1 - cloned;
    if cloned < n {
        assert(plan[q] == plan_of_frame(path[q]));
        lemma_levels(r, path, q);
    }
    lemma_copies_nodes(st, plan, change);
    let s2 = with_copies(st, plan, cloned, change).staging;
    assert forall|a: u64, i: int, b: u64, j: int|
        is_entry(s2, a, i) && is_entry(s2, b, j) && #[trigger] ref_at(s2, a, i) == #[trigger] ref_at(
            s2,
            b,
            j,
        ) && ref_at(s2, a, i) is Id implies a == b && i == j by {
        lemma_copy_refs(r, st, path, height, change, a, i);
        lemma_copy_refs(r, st, path, height, change, b, j);
        let x = ref_at(s2, a, i)->Id_0;
        if x < first {
            assert(ref_at(st.staging, a, i) == ref_at(st.staging, b, j));
        }
    }
    assert forall|a: u64, i: int| is_entry(s2, a, i) && #[trigger] ref_at(s2, a, i) is Id implies s2.nodes.contains_key(
        ref_at(s2, a, i)->Id_0,
    ) by {
        lemma_copy_refs(r, st, path, height, change, a, i);
        let x = ref_at(s2, a, i)->Id_0;
        if x < first {
            assert(st.staging.nodes.contains_key(x));
            if cloned < n && x == path[q].node_id->Id_0 {
            } else {
                assert(s2.nodes.contains_key(x) == st.staging.nodes.contains_key(x));
            }
        } else {
            let m = x - first;
            if m > 0 {
                assert(s2.nodes.contains_key((first + m) as u64));
            }
        }
    }
}

} // verus!
