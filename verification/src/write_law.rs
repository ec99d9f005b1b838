use crate::commit::{META_REGION, pages_for};
use crate::commit_law::{
    goes_by, lemma_free_list_written_advances, lemma_node_bytes_len, lemma_node_written_advances,
    lemma_page_of, lemma_taken, lemma_write_tree_advances, writable,
};
use crate::database::WriterModel;
use crate::error::Error;
use crate::free_list::{page_at, run_pages};
use crate::merge::{merge_all, with_node};
use crate::node::{BranchEntry, next_dirty, NodeId, NodeModel, saturate};
use crate::node_codec::{lemma_node_round_trip, NodeHeader};
use crate::reader::{Loaded, NodeReader};
use crate::seek_law::holds;
use crate::split::split_all;
use crate::staging::{loaded_staged, Staged};
use crate::store::{meta_slot, node_at, NodeManager, tail};
use crate::tx::TxModel;
use crate::write_model::{
    commit_result, CommitModel, free_list_written, is_lowest_run, lowest_run, meta_written,
    node_written, taken, write_children, write_tree,
};
use vstd::prelude::*;

verus! {

/// What reading the node `id` gives while a commit is at `c`.
pub open spec fn load(c: CommitModel, id: NodeId) -> Result<Loaded, Error> {
    loaded_staged(c.tx.staging, c.image, id)
}

/// Whether the tree of height `height` under `id` holds `value` under
/// `key` while a commit is at `c`.
pub open spec fn held(c: CommitModel, id: NodeId, height: nat, key: Seq<u8>, value: Seq<u8>) -> bool
    decreases height,
{
    match load(c, id) {
        Err(_) => false,
        Ok(n) => match n.node {
            NodeModel::Leaf(es) => exists|j: int|
                0 <= j < es.len() && (#[trigger] es[j]).key == key && es[j].value == value,
            NodeModel::Branch(es) => height > 0 && exists|j: int|
                0 <= j < es.len() && held(
                    c,
                    (#[trigger] es[j]).node_id,
                    (height - 1) as nat,
                    key,
                    value,
                ),
        },
    }
}

/// A leaf holds its entries.
pub proof fn lemma_held_leaf(c: CommitModel, id: NodeId, height: nat, j: int)
    requires
        load(c, id) matches Ok(n) && n.node matches NodeModel::Leaf(es) && 0 <= j < es.len(),
    ensures
        held(
            c,
            id,
            height,
            load(c, id)->Ok_0.node->Leaf_0[j].key,
            load(c, id)->Ok_0.node->Leaf_0[j].value,
        ),
{
    let es = load(c, id)->Ok_0.node->Leaf_0;
    assert(es[j].key == es[j].key);
}

/// A branch holds what the trees under its entries hold.
pub proof fn lemma_held_branch(c: CommitModel, id: NodeId, height: nat, j: int, k: Seq<u8>, v: Seq<u8>)
    requires
        height > 0,
        load(c, id) matches Ok(n) && n.node matches NodeModel::Branch(es) && 0 <= j < es.len()
            && held(c, es[j].node_id, (height - 1) as nat, k, v),
    ensures
        held(c, id, height, k, v),
{
    let es = load(c, id)->Ok_0.node->Branch_0;
    assert(held(c, es[j].node_id, (height - 1) as nat, k, v));
}

/// Whether the bytes of `image` from `address` on are the bytes that
/// `node` is written as on pages of `page_size` bytes.
pub open spec fn written_at(image: Seq<u8>, address: int, node: NodeModel, page_size: nat) -> bool {
    &&& 0 <= address
    &&& address + node.bytes(page_size).len() <= image.len()
    &&& image.subrange(address, address + node.bytes(page_size).len()) == node.bytes(page_size)
}

/// Whether none of the `len` bytes from `address` on is writable for a
/// writer that holds `writer`.
pub open spec fn guarded(writer: WriterModel, page_size: int, address: int, len: int) -> bool {
    forall|i: int| address <= i < address + len ==> !#[trigger] writable(writer, page_size, i)
}

/// Whether the tree of height at most `height` under `id` is in good
/// keeping while a commit is at `c`: every node of it can be read; a node
/// in the file lies after the two meta records, is there as the bytes
/// that it is written as, and none of these bytes is writable.
pub open spec fn kept(c: CommitModel, page_size: u32, id: NodeId, height: nat) -> bool
    decreases height,
{
    match load(c, id) {
        Err(_) => false,
        Ok(n) => {
            &&& id matches NodeId::Address(a) ==> a >= META_REGION && n.node.serializable()
                && written_at(c.image, a as int, n.node, page_size as nat) && guarded(
                c.writer,
                page_size as int,
                a as int,
                n.node.size() as int,
            )
            &&& n.node matches NodeModel::Branch(es) ==> height > 0 && forall|j: int|
                0 <= j < es.len() ==> kept(
                    c,
                    page_size,
                    (#[trigger] es[j]).node_id,
                    (height - 1) as nat,
                )
        },
    }
}

/// Whether the tree of height `height` under `x` at `c` holds what the
/// tree of that height under `y` at `d` holds.
pub open spec fn same_held(c: CommitModel, x: NodeId, d: CommitModel, y: NodeId, height: nat) -> bool {
    forall|k: Seq<u8>, v: Seq<u8>| #[trigger] held(c, x, height, k, v) == held(d, y, height, k, v)
}

/// Whether every tree that is in good keeping at `c` is so at `d`, and
/// holds there what it held.
pub open spec fn carried(c: CommitModel, d: CommitModel, page_size: u32) -> bool {
    forall|id: NodeId, h: nat| #[trigger]
        kept(c, page_size, id, h) ==> kept(d, page_size, id, h) && same_held(c, id, d, id, h)
}

/// Whether at `d` the tree under `y` stands for the tree under `x`: where
/// the one is in good keeping the other is, and holds the same.
pub open spec fn stands_for(d: CommitModel, page_size: u32, y: NodeId, x: NodeId) -> bool {
    forall|h: nat| #[trigger]
        kept(d, page_size, x, h) ==> kept(d, page_size, y, h) && same_held(d, x, d, y, h)
}

/// A node that is in the file as the bytes it is written as is read from
/// there.
pub proof fn lemma_written_reads(image: Seq<u8>, address: int, node: NodeModel, page_size: nat)
    requires
        written_at(image, address, node, page_size),
        node.serializable(),
        page_size > 0,
    ensures
        node_at(image, address) == Ok::<(NodeHeader, NodeModel), Error>(
            (node.header(page_size), node),
        ),
{
    let bytes = node.bytes(page_size);
    let rest = image.skip(address + bytes.len());
    assert(tail(image, address) =~= bytes + rest);
    lemma_node_round_trip(node, page_size, rest);
}

/// Trees hold the same where their roots are read as nodes with the same
/// entries and their children hold the same.
pub proof fn lemma_same_held(c: CommitModel, x: NodeId, d: CommitModel, y: NodeId, height: nat)
    requires
        load(c, x) matches Ok(n) && load(d, y) matches Ok(m) && match (n.node, m.node) {
            (NodeModel::Leaf(a), NodeModel::Leaf(b)) => a == b,
            (NodeModel::Branch(a), NodeModel::Branch(b)) => a.len() == b.len() && (height > 0
                ==> forall|j: int|
                0 <= j < a.len() ==> same_held(
                    c,
                    (#[trigger] a[j]).node_id,
                    d,
                    b[j].node_id,
                    (height - 1) as nat,
                )),
            _ => false,
        },
    ensures
        same_held(c, x, d, y, height),
{
    let n = load(c, x)->Ok_0.node;
    let m = load(d, y)->Ok_0.node;
    assert forall|k: Seq<u8>, v: Seq<u8>| #[trigger]
        held(c, x, height, k, v) == held(d, y, height, k, v) by {
        match (n, m) {
            (NodeModel::Branch(a), NodeModel::Branch(b)) => {
                if height > 0 {
                    let h = (height - 1) as nat;
                    if held(c, x, height, k, v) {
                        let j = choose|j: int|
                            0 <= j < a.len() && held(c, (#[trigger] a[j]).node_id, h, k, v);
                        assert(same_held(c, a[j].node_id, d, b[j].node_id, h));
                        assert(held(d, b[j].node_id, h, k, v));
                    }
                    if held(d, y, height, k, v) {
                        let j = choose|j: int|
                            0 <= j < b.len() && held(d, (#[trigger] b[j]).node_id, h, k, v);
                        assert(same_held(c, a[j].node_id, d, b[j].node_id, h));
                        assert(held(c, a[j].node_id, h, k, v));
                    }
                }
            },
            _ => {},
        }
    }
}

/// Whether the file at `d` is the file at `c` but for bytes that were
/// writable at `c` and bytes of the two meta records, and nothing is
/// writable at `d` that was not at `c`.
pub open spec fn spared(c: CommitModel, d: CommitModel, page_size: int) -> bool {
    &&& d.image.len() >= c.image.len()
    &&& forall|i: int|
        META_REGION <= i < c.image.len() && #[trigger] d.image[i] != c.image[i] ==> writable(
            c.writer,
            page_size,
            i,
        )
    &&& forall|i: int| #[trigger]
        writable(d.writer, page_size, i) ==> writable(c.writer, page_size, i)
}

/// Writing that spares what was not writable, and leaves the staged
/// nodes as they are, carries every tree that is in good keeping.
pub proof fn lemma_written_keeps(c: CommitModel, d: CommitModel, page_size: u32, id: NodeId, h: nat)
    requires
        page_size > 0,
        spared(c, d, page_size as int),
        d.tx.staging == c.tx.staging,
        kept(c, page_size, id, h),
    ensures
        kept(d, page_size, id, h),
        same_held(c, id, d, id, h),
    decreases h,
{
    let n = load(c, id)->Ok_0.node;
    let ps = page_size as nat;
    if let NodeId::Address(a) = id {
        let len = n.bytes(ps).len() as int;
        crate::commit_law::lemma_node_bytes_len(n, ps);
        assert forall|i: int| a <= i < a + len implies d.image[i] == c.image[i] by {
            assert(!writable(c.writer, page_size as int, i));
        }
        assert(d.image.subrange(a as int, a + len) =~= c.image.subrange(a as int, a + len));
        lemma_written_reads(c.image, a as int, n, ps);
        lemma_written_reads(d.image, a as int, n, ps);
        assert forall|i: int| a <= i < a + n.size() implies !#[trigger] writable(
            d.writer,
            page_size as int,
            i,
        ) by {
            assert(!writable(c.writer, page_size as int, i));
        }
    }
    assert(load(d, id)->Ok_0.node == n);
    if let NodeModel::Branch(es) = n {
        assert forall|j: int| 0 <= j < es.len() implies kept(
            d,
            page_size,
            (#[trigger] es[j]).node_id,
            (h - 1) as nat,
        ) && same_held(c, es[j].node_id, d, es[j].node_id, (h - 1) as nat) by {
            lemma_written_keeps(c, d, page_size, es[j].node_id, (h - 1) as nat);
        }
    }
    lemma_same_held(c, id, d, id, h);
}

/// Whether the pages that a writer that holds `writer` can hand out are
/// in order: each begins at a multiple of the page size and ends in the
/// used part of the file.
pub open spec fn tidy(writer: WriterModel, page_size: int) -> bool {
    &&& page_size > 0
    &&& writer.metas.len() == 2
    &&& forall|p: u64| #[trigger]
        writer.free_list.available().contains(p) ==> p as int % page_size == 0 && p + page_size
            <= writer.meta().end_address
    &&& writer.free_list.free.disjoint(writer.free_list.pending_allocated)
}

/// Two pages that begin at multiples of the page size and hold the same
/// byte are the same page.
pub proof fn lemma_same_page(p: int, q: int, page_size: int, i: int)
    requires
        page_size > 0,
        p % page_size == 0,
        q % page_size == 0,
        p <= i < p + page_size,
        q <= i < q + page_size,
    ensures
        p == q,
{
    let a = p / page_size;
    let b = q / page_size;
    vstd::arithmetic::div_mod::lemma_fundamental_div_mod(p, page_size);
    vstd::arithmetic::div_mod::lemma_fundamental_div_mod(q, page_size);
    if a < b {
        assert(page_size * b >= page_size * a + page_size) by (nonlinear_arith)
            requires
                a < b,
                page_size > 0,
        ;
    }
    if b < a {
        assert(page_size * a >= page_size * b + page_size) by (nonlinear_arith)
            requires
                b < a,
                page_size > 0,
        ;
    }
}

/// Pages that were taken are not writable afterwards, and the pages that
/// can be handed out are in order as before.
pub proof fn lemma_taken_guards(
    writer: WriterModel,
    image: Seq<u8>,
    page_size: u32,
    transaction_id: u64,
    size: u64,
)
    requires
        tidy(writer, page_size as int),
        taken(writer, image, page_size, transaction_id, size) is Ok,
    ensures
        ({
            let (after, _, address) = taken(writer, image, page_size, transaction_id, size)->Ok_0;
            &&& tidy(after, page_size as int)
            &&& guarded(
                after,
                page_size as int,
                address as int,
                pages_for(size as int, page_size as int) * page_size,
            )
        }),
{
    let ps = page_size as int;
    let n = pages_for(size as int, ps);
    let list = writer.free_list;
    let (after, grown, address) = taken(writer, image, page_size, transaction_id, size)->Ok_0;
    lemma_taken(writer, image, page_size, transaction_id, size);
    assert forall|p: u64| #[trigger] after.free_list.available().contains(p) implies p as int % ps
        == 0 && p + ps <= after.meta().end_address by {
        assert(list.available().contains(p));
    }
    match lowest_run(list.available(), n, ps) {
        Some(start) => {
            assert(is_lowest_run(list.available(), start, n, ps));
            crate::free_list::lemma_page_at_next(start, 0, ps);
            assert(0 <= page_at(start, 0, ps) <= u64::MAX);
            assert forall|i: int| address <= i < address + n * ps implies !#[trigger] writable(
                after,
                ps,
                i,
            ) by {
                let j = lemma_page_of(start, n, ps, i);
                let q = page_at(start, j, ps) as u64;
                assert(list.available().contains(q));
                if writable(after, ps, i) {
                    let p = choose|p: u64|
                        #[trigger] after.free_list.available().contains(p) && p <= i < p + ps;
                    assert(list.available().contains(p));
                    lemma_same_page(p as int, q as int, ps, i);
                    assert(run_pages(start, n, ps).contains(q));
                }
            }
        },
        None => {
            assert forall|i: int| address <= i < address + n * ps implies !#[trigger] writable(
                after,
                ps,
                i,
            ) by {
                if writable(after, ps, i) {
                    let p = choose|p: u64|
                        #[trigger] after.free_list.available().contains(p) && p <= i < p + ps;
                    assert(list.available().contains(p));
                }
            }
        },
    }
}

/// Carrying trees from `c` to `d` and from `d` to `e` carries them from
/// `c` to `e`.
pub proof fn lemma_carried_trans(c: CommitModel, d: CommitModel, e: CommitModel, page_size: u32)
    requires
        carried(c, d, page_size),
        carried(d, e, page_size),
    ensures
        carried(c, e, page_size),
{
    assert forall|id: NodeId, h: nat| #[trigger] kept(c, page_size, id, h) implies kept(
        e,
        page_size,
        id,
        h,
    ) && same_held(c, id, e, id, h) by {
        assert(kept(d, page_size, id, h));
        assert(same_held(c, id, d, id, h));
        assert(same_held(d, id, e, id, h));
        assert forall|k: Seq<u8>, v: Seq<u8>| #[trigger]
            held(c, id, h, k, v) == held(e, id, h, k, v) by {
            assert(held(c, id, h, k, v) == held(d, id, h, k, v));
            assert(held(d, id, h, k, v) == held(e, id, h, k, v));
        }
    }
}

/// Writing a staged node to pages of its own carries every tree that is
/// in good keeping; afterwards the node in the file stands for the staged
/// node.
pub proof fn lemma_node_written_keeps(
    c: CommitModel,
    page_size: u32,
    transaction_id: u64,
    node_id: u64,
)
    requires
        tidy(c.writer, page_size as int),
        node_written(c, page_size, transaction_id, node_id) is Ok,
    ensures
        ({
            let (d, address, _) = node_written(c, page_size, transaction_id, node_id)->Ok_0;
            &&& carried(c, d, page_size)
            &&& stands_for(d, page_size, NodeId::Address(address), NodeId::Id(node_id))
            &&& tidy(d.writer, page_size as int)
        }),
{
    let ps = page_size as nat;
    let (d, address, _) = node_written(c, page_size, transaction_id, node_id)->Ok_0;
    let node = c.tx.staging.nodes[node_id];
    let size = saturate(node.size());
    lemma_node_written_advances(c, page_size, transaction_id, node_id);
    lemma_taken(c.writer, c.image, page_size, transaction_id, size);
    lemma_taken_guards(c.writer, c.image, page_size, transaction_id, size);
    lemma_node_bytes_len(node, ps);
    assert forall|id: NodeId, h: nat| #[trigger] kept(c, page_size, id, h) implies kept(
        d,
        page_size,
        id,
        h,
    ) && same_held(c, id, d, id, h) by {
        lemma_written_keeps(c, d, page_size, id, h);
    }
    let (_, grown, _) = taken(c.writer, c.image, page_size, transaction_id, size)->Ok_0;
    let bytes = node.bytes(ps);
    assert(d.image.subrange(address as int, address + bytes.len()) =~= bytes);
    lemma_written_reads(d.image, address as int, node, ps);
    let x = NodeId::Id(node_id);
    let y = NodeId::Address(address);
    assert forall|h: nat| #[trigger] kept(d, page_size, x, h) implies kept(d, page_size, y, h)
        && same_held(d, x, d, y, h) by {
        if let NodeModel::Branch(es) = node {
            assert forall|j: int| 0 <= j < es.len() implies same_held(
                d,
                (#[trigger] es[j]).node_id,
                d,
                es[j].node_id,
                (h - 1) as nat,
            ) by {}
        }
        lemma_same_held(d, x, d, y, h);
    }
}

/// Pointing an entry of a staged branch at a tree that stands for the
/// tree it pointed at carries every tree that is in good keeping.
pub proof fn lemma_repointed_keeps(
    s: CommitModel,
    page_size: u32,
    node_id: u64,
    index: int,
    entry: BranchEntry,
    id: NodeId,
    h: nat,
)
    requires
        s.tx.staging.nodes.contains_key(node_id),
        s.tx.staging.nodes[node_id] matches NodeModel::Branch(es) && 0 <= index < es.len()
            && stands_for(s, page_size, entry.node_id, es[index].node_id),
        kept(s, page_size, id, h),
    ensures
        ({
            let es = s.tx.staging.nodes[node_id]->Branch_0;
            let next = CommitModel {
                tx: with_node(s.tx, node_id, NodeModel::Branch(es.update(index, entry))),
                ..s
            };
            &&& kept(next, page_size, id, h)
            &&& same_held(s, id, next, id, h)
        }),
    decreases h,
{
    let es = s.tx.staging.nodes[node_id]->Branch_0;
    let next = CommitModel {
        tx: with_node(s.tx, node_id, NodeModel::Branch(es.update(index, entry))),
        ..s
    };
    let n = load(s, id)->Ok_0.node;
    let m = load(next, id)->Ok_0.node;
    if id == NodeId::Id(node_id) {
        let after = es.update(index, entry);
        assert(m == NodeModel::Branch(after));
        let low = (h - 1) as nat;
        assert forall|j: int| 0 <= j < es.len() implies kept(
            next,
            page_size,
            (#[trigger] after[j]).node_id,
            low,
        ) && same_held(s, es[j].node_id, next, after[j].node_id, low) by {
            assert(kept(s, page_size, es[j].node_id, low));
            if j == index {
                let x = es[index].node_id;
                let y = entry.node_id;
                assert(kept(s, page_size, y, low) && same_held(s, x, s, y, low));
                lemma_repointed_keeps(s, page_size, node_id, index, entry, y, low);
                assert forall|k: Seq<u8>, v: Seq<u8>| #[trigger]
                    held(s, x, low, k, v) == held(next, y, low, k, v) by {
                    assert(held(s, x, low, k, v) == held(s, y, low, k, v));
                    assert(held(s, y, low, k, v) == held(next, y, low, k, v));
                }
            } else {
                lemma_repointed_keeps(s, page_size, node_id, index, entry, es[j].node_id, low);
            }
        }
        assert forall|j: int| 0 <= j < es.len() implies same_held(
            s,
            (#[trigger] es[j]).node_id,
            next,
            after[j].node_id,
            low,
        ) by {
            assert(kept(next, page_size, after[j].node_id, low));
        }
    } else {
        assert(m == n);
        if let NodeModel::Branch(cs) = n {
            assert forall|j: int| 0 <= j < cs.len() implies kept(
                next,
                page_size,
                (#[trigger] cs[j]).node_id,
                (h - 1) as nat,
            ) && same_held(s, cs[j].node_id, next, cs[j].node_id, (h - 1) as nat) by {
                lemma_repointed_keeps(
                    s,
                    page_size,
                    node_id,
                    index,
                    entry,
                    cs[j].node_id,
                    (h - 1) as nat,
                );
            }
        }
    }
    lemma_same_held(s, id, next, id, h);
}

/// Writing the staged children of a node and then the node carries every
/// tree that is in good keeping; afterwards the node in the file stands
/// for the staged node.
pub proof fn lemma_write_children_keeps(
    c: CommitModel,
    page_size: u32,
    transaction_id: u64,
    node_id: u64,
    from: int,
    depth: nat,
    measure: nat,
)
    requires
        tidy(c.writer, page_size as int),
        write_children(c, page_size, transaction_id, node_id, from, depth, measure) is Ok,
    ensures
        ({
            let (d, address, _) = write_children(
                c,
                page_size,
                transaction_id,
                node_id,
                from,
                depth,
                measure,
            )->Ok_0;
            &&& carried(c, d, page_size)
            &&& stands_for(d, page_size, NodeId::Address(address), NodeId::Id(node_id))
            &&& tidy(d.writer, page_size as int)
        }),
    decreases depth, 0nat, measure,
{
    match next_dirty(c.tx.staging.nodes[node_id], from) {
        None => {
            lemma_node_written_keeps(c, page_size, transaction_id, node_id);
        },
        Some((child, index)) => {
            lemma_write_tree_keeps(c, page_size, transaction_id, child, (depth - 1) as nat);
            let (after, address, key) = write_tree(
                c,
                page_size,
                transaction_id,
                child,
                (depth - 1) as nat,
            )->Ok_0;
            let es = after.tx.staging.nodes[node_id]->Branch_0;
            let left = es.len() - (index + 1);
            let entry = BranchEntry { key, node_id: NodeId::Address(address) };
            let next = CommitModel {
                tx: with_node(after.tx, node_id, NodeModel::Branch(es.update(index, entry))),
                ..after
            };
            assert forall|id: NodeId, h: nat| #[trigger] kept(after, page_size, id, h) implies kept(
                next,
                page_size,
                id,
                h,
            ) && same_held(after, id, next, id, h) by {
                lemma_repointed_keeps(after, page_size, node_id, index, entry, id, h);
            }
            lemma_write_children_keeps(
                next,
                page_size,
                transaction_id,
                node_id,
                index + 1,
                depth,
                left as nat,
            );
            let (d, _, _) = write_children(
                next,
                page_size,
                transaction_id,
                node_id,
                index + 1,
                depth,
                left as nat,
            )->Ok_0;
            lemma_carried_trans(c, after, next, page_size);
            lemma_carried_trans(c, next, d, page_size);
        },
    }
}

/// Writing a staged tree carries every tree that is in good keeping;
/// afterwards the tree in the file stands for the staged tree.
pub proof fn lemma_write_tree_keeps(
    c: CommitModel,
    page_size: u32,
    transaction_id: u64,
    node_id: u64,
    depth: nat,
)
    requires
        tidy(c.writer, page_size as int),
        write_tree(c, page_size, transaction_id, node_id, depth) is Ok,
    ensures
        ({
            let (d, address, _) = write_tree(c, page_size, transaction_id, node_id, depth)->Ok_0;
            &&& carried(c, d, page_size)
            &&& stands_for(d, page_size, NodeId::Address(address), NodeId::Id(node_id))
            &&& tidy(d.writer, page_size as int)
        }),
    decreases depth, 1nat, 0nat,
{
    lemma_write_children_keeps(
        c,
        page_size,
        transaction_id,
        node_id,
        0,
        depth,
        c.tx.staging.nodes[node_id].len(),
    );
}

/// Writing the free list and the meta record of a transaction carries
/// every tree that is in good keeping.
pub proof fn lemma_meta_written_keeps(c: CommitModel, page_size: u32, transaction_id: u64)
    requires
        goes_by(c.writer, c.image),
        tidy(c.writer, page_size as int),
        meta_written(c, page_size, transaction_id) is Ok,
    ensures
        carried(c, meta_written(c, page_size, transaction_id)->Ok_0, page_size),
        spared(c, meta_written(c, page_size, transaction_id)->Ok_0, page_size as int),
        meta_written(c, page_size, transaction_id)->Ok_0.tx.staging == c.tx.staging,
{
    let ps = page_size as int;
    let d = meta_written(c, page_size, transaction_id)->Ok_0;
    lemma_free_list_written_advances(c, page_size, transaction_id);
    let (after, address, header) = free_list_written(c, page_size, transaction_id)->Ok_0;
    lemma_free_list_tidy(c, page_size, transaction_id);
    crate::node_codec::lemma_meta_len(d.writer.metas[meta_slot(transaction_id)]);
    assert(d.writer.meta().end_address == after.writer.meta().end_address);
    assert forall|i: int| #[trigger] writable(d.writer, ps, i) implies writable(
        after.writer,
        ps,
        i,
    ) by {
        if i < d.writer.meta().end_address {
            let p = choose|p: u64|
                #[trigger] d.writer.free_list.available().contains(p) && p <= i < p + ps;
            assert(after.writer.free_list.free.contains(p));
            assert(after.writer.free_list.available().contains(p));
        }
    }
    assert(spared(c, d, ps)) by {
        assert forall|i: int|
            META_REGION <= i < c.image.len() && #[trigger] d.image[i] != c.image[i] implies writable(
            c.writer,
            ps,
            i,
        ) by {
            assert(d.image[i] == after.image[i]);
        }
        assert forall|i: int| #[trigger] writable(d.writer, ps, i) implies writable(
            c.writer,
            ps,
            i,
        ) by {
            assert(writable(after.writer, ps, i));
        }
    }
    assert forall|id: NodeId, h: nat| #[trigger] kept(c, page_size, id, h) implies kept(
        d,
        page_size,
        id,
        h,
    ) && same_held(c, id, d, id, h) by {
        lemma_written_keeps(c, d, page_size, id, h);
    }
}

/// After the free list was written the pages that can be handed out are
/// in order as before.
pub proof fn lemma_free_list_tidy(c: CommitModel, page_size: u32, transaction_id: u64)
    requires
        tidy(c.writer, page_size as int),
        c.writer.free_list.all_pages().finite(),
        free_list_written(c, page_size, transaction_id) is Ok,
    ensures
        tidy(free_list_written(c, page_size, transaction_id)->Ok_0.0.writer, page_size as int),
{
    let ps = page_size as int;
    let list0 = c.writer.free_list;
    crate::commit_law::lemma_retired(
        list0,
        transaction_id,
        c.writer.free_list_node_address,
        c.writer.free_list_header.overflow_len,
        ps,
    );
    let first = crate::write_model::retired(
        list0,
        transaction_id,
        c.writer.free_list_node_address,
        c.writer.free_list_header.overflow_len,
        ps,
    )->Ok_0;
    crate::commit_law::lemma_retired_all(first, transaction_id, c.tx.pending, ps);
    let list = crate::write_model::retired_all(first, transaction_id, c.tx.pending, ps)->Ok_0;
    let pages = list.all_pages().len();
    let size = (18 + 8 * pages) as u64;
    let w1 = WriterModel { free_list: list, ..c.writer };
    assert(w1.free_list.available() == c.writer.free_list.available());
    assert(w1.meta() == c.writer.meta());
    assert(tidy(w1, ps));
    lemma_taken_guards(w1, c.image, page_size, transaction_id, size);
}

/// A commit carries every tree that is in good keeping when the staged
/// tree has been rebalanced: the tree of the last commit, and the tree of
/// every snapshot that is being read, is in the file afterwards as it
/// was. Where the commit wrote a tree, the tree under the root that the
/// new meta record names stands for the staged tree: it is in good
/// keeping where that was, and holds what that held.
pub proof fn lemma_commit_keeps(c: CommitModel, page_size: u32, transaction_id: u64)
    requires
        goes_by(c.writer, c.image),
        tidy(c.writer, page_size as int),
        commit_result(c, page_size, transaction_id) is Ok,
    ensures
        ({
            let d = commit_result(c, page_size, transaction_id)->Ok_0;
            let balanced = split_all(
                merge_all(c.tx, c.image, page_size)->Ok_0,
                page_size,
                64,
            )->Ok_0;
            let begun = CommitModel { tx: balanced, ..c };
            &&& carried(begun, d, page_size)
            &&& balanced.root is Id ==> forall|h: nat| #[trigger]
                kept(begun, page_size, balanced.root, h) ==> kept(
                    d,
                    page_size,
                    NodeId::Address(d.writer.meta().root_node),
                    h,
                ) && same_held(
                    begun,
                    balanced.root,
                    d,
                    NodeId::Address(d.writer.meta().root_node),
                    h,
                )
        }),
{
    let ps = page_size as int;
    let d = commit_result(c, page_size, transaction_id)->Ok_0;
    let merged = merge_all(c.tx, c.image, page_size)->Ok_0;
    let balanced = split_all(merged, page_size, 64)->Ok_0;
    let begun = CommitModel { tx: balanced, ..c };
    match balanced.root {
        NodeId::Address(_) => {
            assert forall|id: NodeId, h: nat| #[trigger] kept(begun, page_size, id, h) implies kept(
                d,
                page_size,
                id,
                h,
            ) && same_held(begun, id, d, id, h) by {}
        },
        NodeId::Id(id) => {
            lemma_write_tree_advances(begun, page_size, transaction_id, id, 64);
            lemma_write_tree_keeps(begun, page_size, transaction_id, id, 64);
            let (written, root, _) = write_tree(begun, page_size, transaction_id, id, 64)->Ok_0;
            let rooted = CommitModel {
                tx: TxModel { root: NodeId::Address(root), ..written.tx },
                ..written
            };
            crate::commit_law::lemma_advanced_keeps_metas(begun, written, ps);
            assert forall|x: NodeId, h: nat| #[trigger] kept(written, page_size, x, h) implies kept(
                rooted,
                page_size,
                x,
                h,
            ) && same_held(written, x, rooted, x, h) by {
                lemma_written_keeps(written, rooted, page_size, x, h);
            }
            lemma_meta_written_keeps(rooted, page_size, transaction_id);
            crate::commit_law::lemma_meta_written(rooted, page_size, transaction_id);
            lemma_carried_trans(begun, written, rooted, page_size);
            lemma_carried_trans(begun, rooted, d, page_size);
            lemma_carried_trans(written, rooted, d, page_size);
            let x = NodeId::Id(id);
            let y = NodeId::Address(root);
            assert forall|h: nat| #[trigger] kept(begun, page_size, x, h) implies kept(
                d,
                page_size,
                y,
                h,
            ) && same_held(begun, x, d, y, h) by {
                assert(kept(written, page_size, x, h) && same_held(begun, x, written, x, h));
                assert(kept(written, page_size, y, h) && same_held(written, x, written, y, h));
                assert(kept(d, page_size, y, h) && same_held(written, y, d, y, h));
                assert forall|k: Seq<u8>, v: Seq<u8>| #[trigger]
                    held(begun, x, h, k, v) == held(d, y, h, k, v) by {
                    assert(held(begun, x, h, k, v) == held(written, x, h, k, v));
                    assert(held(written, x, h, k, v) == held(written, y, h, k, v));
                    assert(held(written, y, h, k, v) == held(d, y, h, k, v));
                }
            }
        },
    }
}

/// A tree in good keeping that is all in the file holds for a reader of
/// the file what it holds for the commit.
pub proof fn lemma_file_holds(
    file: &NodeManager,
    c: CommitModel,
    page_size: u32,
    address: u64,
    h: nat,
    k: Seq<u8>,
    v: Seq<u8>,
)
    requires
        file@ == c.image,
        kept(c, page_size, NodeId::Address(address), h),
    ensures
        holds(file, NodeId::Address(address), h, k, v) == held(
            c,
            NodeId::Address(address),
            h,
            k,
            v,
        ),
    decreases h,
{
    let id = NodeId::Address(address);
    let n = load(c, id)->Ok_0.node;
    assert(file.loaded(id) == load(c, id));
    if let NodeModel::Branch(es) = n {
        assert forall|j: int| 0 <= j < es.len() implies (#[trigger] es[j]).node_id is Address by {}
        if h > 0 {
            assert forall|j: int| 0 <= j < es.len() implies holds(
                file,
                (#[trigger] es[j]).node_id,
                (h - 1) as nat,
                k,
                v,
            ) == held(c, es[j].node_id, (h - 1) as nat, k, v) by {
                lemma_file_holds(file, c, page_size, es[j].node_id->Address_0, (h - 1) as nat, k, v);
            }
        }
    }
}

/// A tree holds for the reader of a write transaction what it holds for
/// the commit of the transaction.
pub proof fn lemma_staged_holds(r: &Staged, c: CommitModel, id: NodeId, h: nat, k: Seq<u8>, v: Seq<u8>)
    requires
        r.staging@ == c.tx.staging,
        r.store@ == c.image,
    ensures
        holds(r, id, h, k, v) == held(c, id, h, k, v),
    decreases h,
{
    assert(r.loaded(id) == load(c, id));
    if let Ok(n) = load(c, id) {
        if let NodeModel::Branch(es) = n.node {
            if h > 0 {
                assert forall|j: int| 0 <= j < es.len() implies holds(
                    r,
                    (#[trigger] es[j]).node_id,
                    (h - 1) as nat,
                    k,
                    v,
                ) == held(c, es[j].node_id, (h - 1) as nat, k, v) by {
                    lemma_staged_holds(r, c, es[j].node_id, (h - 1) as nat, k, v);
                }
            }
        }
    }
}

/// After a commit the pages that the writer can hand out are in order as
/// before: each begins at a multiple of the page size and ends in the
/// used part of the file, and none is on record as taken.
pub proof fn lemma_commit_keeps_tidy(c: CommitModel, page_size: u32, transaction_id: u64)
    requires
        goes_by(c.writer, c.image),
        tidy(c.writer, page_size as int),
        commit_result(c, page_size, transaction_id) is Ok,
    ensures
        tidy(commit_result(c, page_size, transaction_id)->Ok_0.writer, page_size as int),
{
    let ps = page_size as int;
    let d = commit_result(c, page_size, transaction_id)->Ok_0;
    let merged = merge_all(c.tx, c.image, page_size)->Ok_0;
    let balanced = split_all(merged, page_size, 64)->Ok_0;
    let begun = CommitModel { tx: balanced, ..c };
    if let NodeId::Id(id) = balanced.root {
        lemma_write_tree_advances(begun, page_size, transaction_id, id, 64);
        lemma_write_tree_keeps(begun, page_size, transaction_id, id, 64);
        let (written, root, _) = write_tree(begun, page_size, transaction_id, id, 64)->Ok_0;
        let rooted = CommitModel {
            tx: TxModel { root: NodeId::Address(root), ..written.tx },
            ..written
        };
        crate::commit_law::lemma_advanced_keeps_metas(begun, written, ps);
        lemma_free_list_written_advances(rooted, page_size, transaction_id);
        lemma_free_list_tidy(rooted, page_size, transaction_id);
        let (after, _, _) = free_list_written(rooted, page_size, transaction_id)->Ok_0;
        assert(d.writer.meta().end_address == after.writer.meta().end_address);
        assert forall|p: u64| #[trigger] d.writer.free_list.available().contains(p) implies p as int
            % ps == 0 && p + ps <= d.writer.meta().end_address by {
            assert(after.writer.free_list.free.contains(p));
            assert(after.writer.free_list.available().contains(p));
        }
    }
}

} // verus!
