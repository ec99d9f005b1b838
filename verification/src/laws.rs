use crate::commit::{front_kept, lemma_front_keeps_meta, lemma_meta_at_local};
use crate::commit_law::writable;
use crate::database::{after_release, pick_meta, reader_range};
use crate::free_list::FreeListModel;
use crate::node::NodeId;
use crate::store::meta_at;
use crate::write_law::{kept, lemma_written_keeps, same_held, spared};
use crate::write_model::CommitModel;
use vstd::prelude::*;

verus! {

/// No page that a release hands back can be reached by a reader. A page
/// can be reached from the snapshots from the transaction that allocated
/// it up to the one before the transaction that retired it. Where the
/// snapshots being read all lie between `min_tx` and `max_tx`, every page
/// that the release hands back was retired under a transaction whose
/// snapshots no reader at `snapshot` can reach it from.
pub proof fn lemma_release_spares_readers(
    list: FreeListModel,
    min_tx: u64,
    max_tx: u64,
    snapshot: u64,
    page: u64,
)
    requires
        min_tx <= snapshot <= max_tx,
        list.releasable(min_tx, max_tx).contains(page),
    ensures
        exists|t: u64| #[trigger]
            list.bucket(t).contains(page) && !(list.allocator(page) <= snapshot && snapshot < t),
{
    let t = choose|t: u64| #[trigger]
        list.bucket(t).contains(page) && list.may_release(t, page, min_tx, max_tx);
    assert(list.bucket(t).contains(page));
}

/// A page that was retired under a transaction that is not older than the
/// oldest snapshot being read, and that was allocated before the newest
/// snapshot being read or by it, stays retired through a release.
pub proof fn lemma_release_keeps_reachable(
    list: FreeListModel,
    min_tx: u64,
    max_tx: u64,
    t: u64,
    page: u64,
)
    requires
        list.bucket(t).contains(page),
        t >= min_tx,
        list.allocator(page) <= max_tx,
    ensures
        list.pending_after_release(min_tx, max_tx).contains_key(t),
        list.pending_after_release(min_tx, max_tx)[t].contains(page),
{
    assert(list.kept(t, min_tx, max_tx).contains(page));
}

/// A file in which pages were written but no meta record opens on the
/// snapshot it opened on before: where the first 2048 bytes are as they
/// were, the meta record to go on from is the same.
pub proof fn lemma_page_writes_keep_snapshot(before: Seq<u8>, after: Seq<u8>)
    requires
        before.len() >= 2048,
        front_kept(before, after, 2048),
    ensures
        pick_meta(meta_at(after, 0), meta_at(after, 1)) == pick_meta(
            meta_at(before, 0),
            meta_at(before, 1),
        ),
{
    lemma_front_keeps_meta(before, after, 0);
    lemma_front_keeps_meta(before, after, 1);
}

/// A meta record that was written only in part leaves the other slot as
/// it was: where a file differs from the file before in nothing but the 40
/// bytes of slot `slot`, the other slot holds the record it held, and a
/// file whose other slot held a record still opens.
pub proof fn lemma_torn_meta_keeps_other_slot(before: Seq<u8>, torn: Seq<u8>, slot: int)
    requires
        slot == 0 || slot == 1,
        before.len() >= 2048,
        torn.len() == before.len(),
        forall|i: int|
            0 <= i < before.len() && !(slot * 1024 <= i < slot * 1024 + 40) ==> torn[i]
                == before[i],
    ensures
        meta_at(torn, 1 - slot) == meta_at(before, 1 - slot),
        meta_at(before, 1 - slot) is Ok ==> pick_meta(meta_at(torn, 0), meta_at(torn, 1)) is Ok,
{
    lemma_meta_at_local(before, torn, 1 - slot);
}

/// A file in which a writer wrote pages, all of them or some, whole or
/// in part, and no meta record, holds the snapshots that it held: where
/// the bytes that differ from the file before were all writable for the
/// writer, the file opens on the meta record it opened on before, and
/// every tree that was in good keeping, the tree of the last commit among
/// them, is in the file as it was and holds what it held.
pub proof fn lemma_crash_keeps_snapshot(
    c: CommitModel,
    crashed: Seq<u8>,
    page_size: u32,
    id: NodeId,
    height: nat,
)
    requires
        page_size > 0,
        c.image.len() >= 2048,
        crashed.len() >= c.image.len(),
        forall|i: int|
            0 <= i < c.image.len() && #[trigger] crashed[i] != c.image[i] ==> i >= 2048
                && writable(c.writer, page_size as int, i),
        kept(c, page_size, id, height),
    ensures
        pick_meta(meta_at(crashed, 0), meta_at(crashed, 1)) == pick_meta(
            meta_at(c.image, 0),
            meta_at(c.image, 1),
        ),
        kept(CommitModel { image: crashed, ..c }, page_size, id, height),
        same_held(c, id, CommitModel { image: crashed, ..c }, id, height),
{
    let d = CommitModel { image: crashed, ..c };
    assert(front_kept(c.image, crashed, 2048)) by {
        assert forall|i: int| 0 <= i < 2048 && i < c.image.len() implies #[trigger] crashed[i]
            == c.image[i] by {}
    }
    lemma_page_writes_keep_snapshot(c.image, crashed);
    assert(spared(c, d, page_size as int));
    lemma_written_keeps(c, d, page_size, id, height);
}

/// Whether the free list tells of `page` what holds of every page that
/// the snapshot of transaction `snapshot` can reach: the page was
/// allocated by that transaction or before it, and every transaction that
/// retired it came after.
pub open spec fn live_at(list: FreeListModel, page: u64, snapshot: u64) -> bool {
    &&& list.allocator(page) <= snapshot
    &&& forall|t: u64| #[trigger] list.bucket(t).contains(page) ==> snapshot < t
}

/// A release hands back no page that a snapshot being read can reach, and
/// leaves it retired where it was: a page that is live at a snapshot
/// between the oldest and the newest one being read is not among the
/// pages handed back, and stays in every bucket that held it.
pub proof fn lemma_release_spares_live(
    list: FreeListModel,
    min_tx: u64,
    max_tx: u64,
    snapshot: u64,
    page: u64,
)
    requires
        min_tx <= snapshot <= max_tx,
        live_at(list, page, snapshot),
    ensures
        !list.releasable(min_tx, max_tx).contains(page),
        forall|t: u64| #[trigger]
            list.bucket(t).contains(page) ==> list.pending_after_release(
                min_tx,
                max_tx,
            ).contains_key(t) && list.pending_after_release(min_tx, max_tx)[t].contains(page),
{
    if list.releasable(min_tx, max_tx).contains(page) {
        let t = choose|t: u64| #[trigger]
            list.bucket(t).contains(page) && list.may_release(t, page, min_tx, max_tx);
        assert(list.bucket(t).contains(page));
    }
    assert forall|t: u64| #[trigger] list.bucket(t).contains(page) implies list.pending_after_release(
        min_tx,
        max_tx,
    ).contains_key(t) && list.pending_after_release(min_tx, max_tx)[t].contains(page) by {
        assert(list.kept(t, min_tx, max_tx).contains(page));
    }
}

/// A finite set of transactions that is not empty has an oldest and a
/// newest one.
pub proof fn lemma_has_bounds(readers: Set<u64>)
    requires
        readers.finite(),
        readers.len() > 0,
    ensures
        exists|t: u64| readers.contains(t) && forall|u: u64| readers.contains(u) ==> t <= u,
        exists|t: u64| readers.contains(t) && forall|u: u64| readers.contains(u) ==> u <= t,
    decreases readers.len(),
{
    let x = readers.choose();
    let rest = readers.remove(x);
    if rest.len() == 0 {
        assert forall|u: u64| readers.contains(u) implies u == x by {
            if u != x {
                assert(rest.contains(u));
            }
        }
        assert(readers.contains(x) && forall|u: u64| readers.contains(u) ==> x <= u);
        assert(readers.contains(x) && forall|u: u64| readers.contains(u) ==> u <= x);
    } else {
        lemma_has_bounds(rest);
        let lo = choose|t: u64| rest.contains(t) && forall|u: u64| rest.contains(u) ==> t <= u;
        let hi = choose|t: u64| rest.contains(t) && forall|u: u64| rest.contains(u) ==> u <= t;
        let low = if x < lo {
            x
        } else {
            lo
        };
        let high = if x > hi {
            x
        } else {
            hi
        };
        assert forall|u: u64| readers.contains(u) implies low <= u && u <= high by {
            if u != x {
                assert(rest.contains(u));
            }
        }
        assert(readers.contains(low) && forall|u: u64| readers.contains(u) ==> low <= u);
        assert(readers.contains(high) && forall|u: u64| readers.contains(u) ==> u <= high);
    }
}

/// Every snapshot that a read transaction is open on lies between the
/// oldest and the newest one.
pub proof fn lemma_reader_in_range(readers: Set<u64>, snapshot: u64)
    requires
        readers.finite(),
        readers.contains(snapshot),
    ensures
        reader_range(readers).0 <= snapshot <= reader_range(readers).1,
{
    lemma_has_bounds(readers);
}

/// Beginning a write transaction leaves live what a reader can reach.
/// Where a read transaction is open on `snapshot`, a page that is live
/// at the snapshot is not among the pages that become free when the
/// retired pages are released, and is live at the snapshot afterwards.
pub proof fn lemma_release_keeps_live(
    list: FreeListModel,
    readers: Set<u64>,
    snapshot: u64,
    page: u64,
)
    requires
        readers.finite(),
        readers.contains(snapshot),
        live_at(list, page, snapshot),
    ensures
        live_at(after_release(list, readers), page, snapshot),
        after_release(list, readers).free.contains(page) ==> list.free.contains(page),
{
    let (min_tx, max_tx) = reader_range(readers);
    let after = after_release(list, readers);
    lemma_reader_in_range(readers, snapshot);
    lemma_release_spares_live(list, min_tx, max_tx, snapshot, page);
    assert(after.allocator(page) == list.allocator(page));
    assert forall|t: u64| #[trigger] after.bucket(t).contains(page) implies snapshot < t by {
        assert(list.kept(t, min_tx, max_tx).contains(page));
        assert(list.bucket(t).contains(page));
    }
}

} // verus!
