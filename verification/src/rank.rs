use crate::key::{
    key_le, lemma_key_lt_le_transitive, lemma_key_lt_transitive, lemma_key_order_equal,
};
use crate::merge_law::lemma_file_children;
use crate::node::{BranchEntry, NodeId, NodeModel};
use crate::node_laws::keys_sorted;
use crate::reader::NodeReader;
use crate::store::NodeManager;
use crate::tree::{above, below, branch_keys, child_hi, leaf_keys, ordered_tree};
use crate::write_law::{held, lemma_held_branch, load};
use crate::write_model::CommitModel;
use vstd::prelude::*;

verus! {

/// The bound from below for the keys under entry `i` of a branch with
/// the bound `lo`: the key of the entry, but for the first entry of a
/// branch without a bound, under which every key may stand.
pub open spec fn under_lo(es: Seq<BranchEntry>, i: int, lo: Option<Seq<u8>>) -> Option<Seq<u8>> {
    if i == 0 && lo is None {
        None
    } else {
        Some(es[i].key)
    }
}

/// Whether the node that `e` refers to holds an entry and `e` has the key
/// of its first entry.
pub open spec fn exact_entry(c: CommitModel, e: BranchEntry) -> bool {
    load(c, e.node_id) matches Ok(m) && m.node.len() > 0 && m.node.key_at(0) == e.key
}

/// Whether the node that `e` refers to, where it is a branch with an
/// entry, has the key of `e` as the key of its first entry.
pub open spec fn branch_first(c: CommitModel, e: BranchEntry) -> bool {
    load(c, e.node_id) matches Ok(m) ==> (m.node matches NodeModel::Branch(cs) ==> cs.len() > 0
        ==> cs[0].key == e.key)
}

/// Whether the tree of height `height` under `id` is in rank for keys
/// from `lo` up to `hi`, while a commit is at `c`: its leaves are all
/// `height` levels down; the keys of every node grow strictly and lie
/// within the bounds; the keys under an entry of a branch lie from the key
/// of the entry up to the key of the next; a branch in the file holds an
/// entry; and an entry that refers to a node in the file has the first
/// key of that node, which holds an entry. With `tight`, the key of an
/// entry is also the first key of the branch that it refers to.
pub open spec fn ranked(
    c: CommitModel,
    id: NodeId,
    height: nat,
    lo: Option<Seq<u8>>,
    hi: Option<Seq<u8>>,
    tight: bool,
) -> bool
    decreases height,
{
    match load(c, id) {
        Err(_) => false,
        Ok(n) => match n.node {
            NodeModel::Leaf(es) => {
                &&& height == 0
                &&& keys_sorted(leaf_keys(es))
                &&& forall|j: int|
                    0 <= j < es.len() ==> above(lo, (#[trigger] es[j]).key) && below(es[j].key, hi)
            },
            NodeModel::Branch(es) => {
                &&& height > 0
                &&& id is Address ==> es.len() > 0
                &&& keys_sorted(branch_keys(es))
                &&& forall|j: int|
                    0 <= j < es.len() ==> above(lo, (#[trigger] es[j]).key) && below(es[j].key, hi)
                &&& forall|j: int|
                    0 <= j < es.len() && (#[trigger] es[j]).node_id is Address ==> exact_entry(
                        c,
                        es[j],
                    )
                &&& tight ==> forall|j: int| 0 <= j < es.len() ==> branch_first(c, #[trigger] es[j])
                &&& forall|j: int|
                    0 <= j < es.len() ==> ranked(
                        c,
                        (#[trigger] es[j]).node_id,
                        (height - 1) as nat,
                        under_lo(es, j, lo),
                        child_hi(es, j, hi),
                        tight,
                    )
            },
        },
    }
}

/// Whether the bound from below `a` holds back no key that `b` lets
/// through.
pub open spec fn lower(a: Option<Seq<u8>>, b: Option<Seq<u8>>) -> bool {
    a matches Some(x) ==> b matches Some(y) && key_le(x, y)
}

/// Whether the bound from above `a` holds back no key that `b` lets
/// through.
pub open spec fn higher(a: Option<Seq<u8>>, b: Option<Seq<u8>>) -> bool {
    a matches Some(x) ==> b matches Some(y) && key_le(y, x)
}

/// A key within bounds is within bounds that hold back no more.
pub proof fn lemma_within(
    k: Seq<u8>,
    lo: Option<Seq<u8>>,
    hi: Option<Seq<u8>>,
    lo2: Option<Seq<u8>>,
    hi2: Option<Seq<u8>>,
)
    requires
        above(lo, k),
        below(k, hi),
        lower(lo2, lo),
        higher(hi2, hi),
    ensures
        above(lo2, k),
        below(k, hi2),
{
    if let Some(x) = lo2 {
        let y = lo->Some_0;
        lemma_key_order_equal(x, y);
        lemma_key_order_equal(y, k);
        if x != y && y != k {
            lemma_key_lt_transitive(x, y, k);
        }
    }
    if let Some(x) = hi2 {
        let y = hi->Some_0;
        lemma_key_lt_le_transitive(k, y, x);
    }
}

/// A tree that is in rank for bounds is in rank for bounds that hold back
/// no more, and without `tight` where it is with it.
pub proof fn lemma_ranked_weaken(
    c: CommitModel,
    id: NodeId,
    height: nat,
    lo: Option<Seq<u8>>,
    hi: Option<Seq<u8>>,
    tight: bool,
    lo2: Option<Seq<u8>>,
    hi2: Option<Seq<u8>>,
    tight2: bool,
)
    requires
        ranked(c, id, height, lo, hi, tight),
        lower(lo2, lo),
        higher(hi2, hi),
        tight2 ==> tight,
    ensures
        ranked(c, id, height, lo2, hi2, tight2),
    decreases height,
{
    let n = load(c, id)->Ok_0.node;
    match n {
        NodeModel::Leaf(es) => {
            assert forall|j: int| 0 <= j < es.len() implies above(lo2, (#[trigger] es[j]).key)
                && below(es[j].key, hi2) by {
                lemma_within(es[j].key, lo, hi, lo2, hi2);
            }
        },
        NodeModel::Branch(es) => {
            assert forall|j: int| 0 <= j < es.len() implies above(lo2, (#[trigger] es[j]).key)
                && below(es[j].key, hi2) by {
                lemma_within(es[j].key, lo, hi, lo2, hi2);
            }
            assert forall|j: int| 0 <= j < es.len() implies ranked(
                c,
                (#[trigger] es[j]).node_id,
                (height - 1) as nat,
                under_lo(es, j, lo2),
                child_hi(es, j, hi2),
                tight2,
            ) by {
                lemma_key_order_equal(es[j].key, es[j].key);
                if j + 1 < es.len() {
                    lemma_key_order_equal(es[j + 1].key, es[j + 1].key);
                }
                lemma_ranked_weaken(
                    c,
                    es[j].node_id,
                    (height - 1) as nat,
                    under_lo(es, j, lo),
                    child_hi(es, j, hi),
                    tight,
                    under_lo(es, j, lo2),
                    child_hi(es, j, hi2),
                    tight2,
                );
            }
        },
    }
}

/// What a tree in rank holds with any number of levels allowed it holds
/// with as many levels as it has.
pub proof fn lemma_ranked_held(
    c: CommitModel,
    id: NodeId,
    height: nat,
    lo: Option<Seq<u8>>,
    hi: Option<Seq<u8>>,
    tight: bool,
    fuel: nat,
    k: Seq<u8>,
    v: Seq<u8>,
)
    requires
        ranked(c, id, height, lo, hi, tight),
        held(c, id, fuel, k, v),
    ensures
        held(c, id, height, k, v),
    decreases height,
{
    let n = load(c, id)->Ok_0.node;
    if let NodeModel::Branch(es) = n {
        let j = choose|j: int|
            0 <= j < es.len() && held(c, (#[trigger] es[j]).node_id, (fuel - 1) as nat, k, v);
        lemma_ranked_held(
            c,
            es[j].node_id,
            (height - 1) as nat,
            under_lo(es, j, lo),
            child_hi(es, j, hi),
            tight,
            (fuel - 1) as nat,
            k,
            v,
        );
        lemma_held_branch(c, id, height, j, k, v);
    }
}

/// A tree in the file that is in rank is a search tree for a reader of
/// the file.
pub proof fn lemma_ranked_ordered(
    file: &NodeManager,
    c: CommitModel,
    address: u64,
    height: nat,
    lo: Option<Seq<u8>>,
    hi: Option<Seq<u8>>,
    tight: bool,
)
    requires
        file@ == c.image,
        ranked(c, NodeId::Address(address), height, lo, hi, tight),
    ensures
        ordered_tree(file, NodeId::Address(address), height, lo, hi),
    decreases height,
{
    let id = NodeId::Address(address);
    assert(file.loaded(id) == load(c, id));
    lemma_file_children(c, address);
    if let NodeModel::Branch(es) = load(c, id)->Ok_0.node {
        assert forall|j: int| 0 <= j < es.len() implies ordered_tree(
            file,
            (#[trigger] es[j]).node_id,
            (height - 1) as nat,
            crate::tree::child_lo(es, j, lo),
            child_hi(es, j, hi),
        ) by {
            lemma_key_order_equal(es[j].key, es[j].key);
            if j + 1 < es.len() {
                lemma_key_order_equal(es[j + 1].key, es[j + 1].key);
            }
            if let Some(h) = hi {
                lemma_key_order_equal(h, h);
            }
            lemma_ranked_weaken(
                c,
                es[j].node_id,
                (height - 1) as nat,
                under_lo(es, j, lo),
                child_hi(es, j, hi),
                tight,
                crate::tree::child_lo(es, j, lo),
                child_hi(es, j, hi),
                tight,
            );
            lemma_ranked_ordered(
                file,
                c,
                es[j].node_id->Address_0,
                (height - 1) as nat,
                crate::tree::child_lo(es, j, lo),
                child_hi(es, j, hi),
                tight,
            );
        }
    }
}

/// In a tree in the file that is in rank the key of every entry is the
/// first key of the branch that it refers to.
pub proof fn lemma_file_tight(
    c: CommitModel,
    address: u64,
    height: nat,
    lo: Option<Seq<u8>>,
    hi: Option<Seq<u8>>,
)
    requires
        ranked(c, NodeId::Address(address), height, lo, hi, false),
    ensures
        ranked(c, NodeId::Address(address), height, lo, hi, true),
    decreases height,
{
    let id = NodeId::Address(address);
    lemma_file_children(c, address);
    if let NodeModel::Branch(es) = load(c, id)->Ok_0.node {
        assert forall|j: int| 0 <= j < es.len() implies branch_first(c, #[trigger] es[j]) && ranked(
            c,
            es[j].node_id,
            (height - 1) as nat,
            under_lo(es, j, lo),
            child_hi(es, j, hi),
            true,
        ) by {
            assert(exact_entry(c, es[j]));
            lemma_file_tight(
                c,
                es[j].node_id->Address_0,
                (height - 1) as nat,
                under_lo(es, j, lo),
                child_hi(es, j, hi),
            );
        }
    }
}

/// In a tree in the file that is in rank every leaf holds an entry, but
/// for a root that is a leaf.
pub proof fn lemma_ranked_full(
    file: &NodeManager,
    c: CommitModel,
    address: u64,
    height: nat,
    lo: Option<Seq<u8>>,
    hi: Option<Seq<u8>>,
    tight: bool,
)
    requires
        file@ == c.image,
        ranked(c, NodeId::Address(address), height, lo, hi, tight),
        load(c, NodeId::Address(address))->Ok_0.node.len() > 0,
    ensures
        crate::ready_law::full(file, NodeId::Address(address), height),
    decreases height,
{
    let id = NodeId::Address(address);
    assert(file.loaded(id) == load(c, id));
    lemma_file_children(c, address);
    if let NodeModel::Branch(es) = load(c, id)->Ok_0.node {
        assert forall|j: int| 0 <= j < es.len() implies crate::ready_law::full(
            file,
            (#[trigger] es[j]).node_id,
            (height - 1) as nat,
        ) by {
            assert(exact_entry(c, es[j]));
            lemma_ranked_full(
                file,
                c,
                es[j].node_id->Address_0,
                (height - 1) as nat,
                under_lo(es, j, lo),
                child_hi(es, j, hi),
                tight,
            );
        }
    }
}

/// A tree in the file that is in rank has no leaf without entries but a
/// root that is a leaf.
pub proof fn lemma_ranked_leafy(
    file: &NodeManager,
    c: CommitModel,
    address: u64,
    height: nat,
    tight: bool,
)
    requires
        file@ == c.image,
        ranked(c, NodeId::Address(address), height, None, None, tight),
    ensures
        crate::ready_law::leafy(file, NodeId::Address(address), height),
{
    if height > 0 {
        lemma_ranked_full(file, c, address, height, None, None, tight);
    }
}

} // verus!
