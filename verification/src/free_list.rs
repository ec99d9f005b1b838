use crate::error::Error;
use crate::format::{
    lemma_u64s_len, read_vec_u64, Reader, spec_u64s_from_be, spec_u64s_to_be, write_slice_u64,
    Writer,
};
use crate::node::{Address, FREELIST_NODE, TransactionId};
use crate::node_codec::{header_bytes, NodeHeader, overflow_pages, parse_header};
use crate::ordered::{
    increasing, map_get, map_keys_sorted, map_put, map_take, set_contains, set_extend, set_insert,
    set_len, set_remove, set_to_sorted_vec, sorted_seq_of,
};
use std::collections::{BTreeMap, BTreeSet, HashMap};
use vstd::prelude::*;

verus! {

/// The address of page `j` of a run of pages of `page_size` bytes that
/// starts at `start`.
pub open spec fn page_at(start: int, j: int, page_size: int) -> int {
    start + j * page_size
}

/// Whether the `n` pages of `page_size` bytes from `start` on are all
/// addresses in `avail`.
pub open spec fn run_free(avail: Set<u64>, start: int, n: int, page_size: int) -> bool {
    forall|j: int|
        0 <= j < n ==> 0 <= #[trigger] page_at(start, j, page_size) <= u64::MAX && avail.contains(
            page_at(start, j, page_size) as u64,
        )
}

/// The addresses of the `n` pages of `page_size` bytes from `start` on.
pub open spec fn run_pages(start: int, n: int, page_size: int) -> Set<u64> {
    Set::new(|a: u64| exists|j: int| 0 <= j < n && a == #[trigger] page_at(start, j, page_size))
}

/// The page after page `j` lies `page_size` bytes further.
pub proof fn lemma_page_at_next(start: int, j: int, page_size: int)
    ensures
        page_at(start, j + 1, page_size) == page_at(start, j, page_size) + page_size,
        page_at(start, 0, page_size) == start,
{
    assert((j + 1) * page_size == j * page_size + page_size) by (nonlinear_arith);
}

/// What a free list stands for.
pub struct FreeListModel {
    /// Pages that are free as of the last commit.
    pub free: Set<u64>,
    /// The transaction that allocated a page.
    pub allocated_by: Map<u64, u64>,
    /// Pages that the writer at work has taken.
    pub pending_allocated: Set<u64>,
    /// Pages that writers have retired, by the writer's transaction.
    pub pending_free: Map<u64, Set<u64>>,
}

impl FreeListModel {
    /// Pages that can be handed out: free and not taken.
    pub open spec fn available(self) -> Set<u64> {
        self.free.difference(self.pending_allocated)
    }

    /// The pages retired under transaction `t`.
    pub open spec fn bucket(self, t: u64) -> Set<u64> {
        if self.pending_free.contains_key(t) {
            self.pending_free[t]
        } else {
            Set::empty()
        }
    }

    /// All retired pages.
    pub open spec fn pending_pages(self) -> Set<u64> {
        Set::new(|a: u64| exists|t: u64| #[trigger] self.bucket(t).contains(a))
    }

    /// All pages that the free list keeps in the file: free or retired.
    pub open spec fn all_pages(self) -> Set<u64> {
        self.free.union(self.pending_pages())
    }

    /// The transaction that allocated page `a`, or 0 where none is on
    /// record.
    pub open spec fn allocator(self, a: u64) -> u64 {
        if self.allocated_by.contains_key(a) {
            self.allocated_by[a]
        } else {
            0
        }
    }

    /// Whether page `a`, retired under transaction `t`, may be handed out
    /// again while the oldest snapshot being read is `min_tx` and the
    /// newest is `max_tx`: no reader is older than `t`, or the page was
    /// allocated after every reader began.
    pub open spec fn may_release(self, t: u64, a: u64, min_tx: u64, max_tx: u64) -> bool {
        t < min_tx || self.allocator(a) > max_tx
    }

    /// The retired pages that may be handed out again.
    pub open spec fn releasable(self, min_tx: u64, max_tx: u64) -> Set<u64> {
        Set::new(
            |a: u64|
                exists|t: u64|
                    #[trigger] self.bucket(t).contains(a) && self.may_release(t, a, min_tx, max_tx),
        )
    }

    /// The pages retired under `t` that stay retired.
    pub open spec fn kept(self, t: u64, min_tx: u64, max_tx: u64) -> Set<u64> {
        self.bucket(t).filter(|a: u64| !self.may_release(t, a, min_tx, max_tx))
    }

    /// The addresses that are written to the file, from the lowest up.
    pub open spec fn image(self) -> Seq<u64> {
        sorted_seq_of(self.all_pages())
    }

    /// The header that the free list is written with on pages of
    /// `page_size` bytes.
    pub open spec fn header(self, page_size: nat) -> NodeHeader {
        NodeHeader {
            flags: FREELIST_NODE,
            internal_nodes_len: self.image().len() as u64,
            overflow_len: overflow_pages(18 + 8 * self.image().len(), page_size) as u64,
        }
    }

    /// The bytes that stand for the free list on pages of `page_size`
    /// bytes.
    pub open spec fn bytes(self, page_size: nat) -> Seq<u8> {
        header_bytes(self.header(page_size)) + spec_u64s_to_be(self.image())
    }

    /// The retired pages by transaction after a release.
    pub open spec fn pending_after_release(self, min_tx: u64, max_tx: u64) -> Map<u64, Set<u64>> {
        Map::new(
            |t: u64| exists|a: u64| self.kept(t, min_tx, max_tx).contains(a),
            |t: u64| self.kept(t, min_tx, max_tx),
        )
    }
}

/// Bookkeeping of the pages of the file that hold nothing.
#[derive(Debug)]
pub struct FreeList {
    pub free: BTreeSet<Address>,
    pub allocated_by: HashMap<Address, TransactionId>,
    pub pending_allocated: BTreeSet<Address>,
    pub pending_free: BTreeMap<TransactionId, BTreeSet<Address>>,
}

impl View for FreeList {
    type V = FreeListModel;

    open spec fn view(&self) -> FreeListModel {
        FreeListModel {
            free: self.free@,
            allocated_by: self.allocated_by@,
            pending_allocated: self.pending_allocated@,
            pending_free: self.pending_free@.map_values(|s: BTreeSet<u64>| s@),
        }
    }
}

impl Default for FreeList {
    fn default() -> (r: Self)
        ensures
            r@.free == Set::<u64>::empty(),
            r@.allocated_by == Map::<u64, u64>::empty(),
            r@.pending_allocated == Set::<u64>::empty(),
            r@.pending_free == Map::<u64, Set<u64>>::empty(),
    {
        let r = FreeList {
            free: BTreeSet::new(),
            allocated_by: HashMap::new(),
            pending_allocated: BTreeSet::new(),
            pending_free: BTreeMap::new(),
        };
        assert(r@.pending_free =~= Map::<u64, Set<u64>>::empty());
        r
    }
}

impl FreeList {
    /// Tells whether the `n` pages from `start` on can be handed out.
    fn probe(&self, start: Address, n: u64, page_size: u64) -> (ok: bool)
        requires
            page_size > 0,
        ensures
            ok == run_free(self@.available(), start as int, n as int, page_size as int),
    {
        let ghost avail = self@.available();
        let mut j: u64 = 0;
        let mut addr: u64 = start;
        proof {
            lemma_page_at_next(start as int, 0, page_size as int);
        }
        while j < n
            invariant
                j <= n,
                page_size > 0,
                avail == self@.available(),
                j < n ==> addr == page_at(start as int, j as int, page_size as int),
                run_free(avail, start as int, j as int, page_size as int),
            decreases n - j,
        {
            if !set_contains(&self.free, addr) || set_contains(&self.pending_allocated, addr) {
                return false;
            }
            proof {
                lemma_page_at_next(start as int, j as int, page_size as int);
            }
            j += 1;
            if j < n {
                match addr.checked_add(page_size) {
                    Some(next) => {
                        addr = next;
                    },
                    None => {
                        return false;
                    },
                }
            }
        }
        true
    }

    /// Moves the `n` pages from `start` on from the free pages to the
    /// pages taken.
    fn take_run(&mut self, start: Address, n: u64, page_size: u64)
        requires
            page_size > 0,
            run_free(old(self)@.available(), start as int, n as int, page_size as int),
        ensures
            final(self)@.free == old(self)@.free.difference(
                run_pages(start as int, n as int, page_size as int),
            ),
            final(self)@.pending_allocated == old(self)@.pending_allocated.union(
                run_pages(start as int, n as int, page_size as int),
            ),
            final(self)@.allocated_by == old(self)@.allocated_by,
            final(self)@.pending_free == old(self)@.pending_free,
    {
        let ghost avail = self@.available();
        let mut j: u64 = 0;
        let mut addr: u64 = start;
        proof {
            lemma_page_at_next(start as int, 0, page_size as int);
            assert(run_pages(start as int, 0, page_size as int) =~= Set::<u64>::empty());
            assert(self@.free.difference(Set::<u64>::empty()) =~= self@.free);
            assert(self@.pending_allocated.union(Set::<u64>::empty()) =~= self@.pending_allocated);
        }
        while j < n
            invariant
                j <= n,
                page_size > 0,
                run_free(avail, start as int, n as int, page_size as int),
                j < n ==> addr == page_at(start as int, j as int, page_size as int),
                self@.free == old(self)@.free.difference(
                    run_pages(start as int, j as int, page_size as int),
                ),
                self@.pending_allocated == old(self)@.pending_allocated.union(
                    run_pages(start as int, j as int, page_size as int),
                ),
                self@.allocated_by == old(self)@.allocated_by,
                self@.pending_free == old(self)@.pending_free,
            decreases n - j,
        {
            let ghost before_free = self.free@;
            let ghost before_taken = self.pending_allocated@;
            set_remove(&mut self.free, addr);
            set_insert(&mut self.pending_allocated, addr);
            proof {
                lemma_page_at_next(start as int, j as int, page_size as int);
                let done = run_pages(start as int, j as int, page_size as int);
                let more = run_pages(start as int, j + 1, page_size as int);
                assert(more =~= done.insert(addr)) by {
                    assert forall|a: u64| more.contains(a) implies done.insert(addr).contains(a) by {
                        let i = choose|i: int|
                            0 <= i < j + 1 && a == #[trigger] page_at(
                                start as int,
                                i,
                                page_size as int,
                            );
                        if i < j {
                            assert(done.contains(a));
                        }
                    }
                    assert forall|a: u64| done.insert(addr).contains(a) implies more.contains(a) by {
                        if a == addr {
                            assert(a == page_at(start as int, j as int, page_size as int));
                        } else {
                            let i = choose|i: int|
                                0 <= i < j && a == #[trigger] page_at(
                                    start as int,
                                    i,
                                    page_size as int,
                                );
                            assert(0 <= i < j + 1);
                        }
                    }
                }
                assert(self.free@ =~= old(self)@.free.difference(more));
                assert(self.pending_allocated@ =~= old(self)@.pending_allocated.union(more));
            }
            j += 1;
            if j < n {
                proof {
                    assert(0 <= page_at(start as int, j as int, page_size as int) <= u64::MAX);
                }
                addr = addr + page_size;
            }
        }
    }

    /// Takes `required_pages` pages of `page_size` bytes that follow one
    /// another from the pages that can be handed out: those at the lowest
    /// address where so many follow one another. Returns the address of
    /// the first, or `None`, with nothing changed, where no such pages are
    /// free or none is asked for.
    pub fn allocate(&mut self, required_pages: u64, page_size: u64) -> (r: Option<Address>)
        requires
            page_size > 0,
        ensures
            final(self)@.allocated_by == old(self)@.allocated_by,
            final(self)@.pending_free == old(self)@.pending_free,
            match r {
                Some(start) => {
                    &&& required_pages > 0
                    &&& run_free(
                        old(self)@.available(),
                        start as int,
                        required_pages as int,
                        page_size as int,
                    )
                    &&& forall|b: int|
                        b < start ==> !run_free(
                            old(self)@.available(),
                            b,
                            required_pages as int,
                            page_size as int,
                        )
                    &&& final(self)@.free == old(self)@.free.difference(
                        run_pages(start as int, required_pages as int, page_size as int),
                    )
                    &&& final(self)@.pending_allocated == old(self)@.pending_allocated.union(
                        run_pages(start as int, required_pages as int, page_size as int),
                    )
                },
                None => {
                    &&& required_pages == 0 || forall|b: int|
                        !run_free(
                            old(self)@.available(),
                            b,
                            required_pages as int,
                            page_size as int,
                        )
                    &&& final(self)@.free == old(self)@.free
                    &&& final(self)@.pending_allocated == old(self)@.pending_allocated
                },
            },
    {
        if required_pages == 0 {
            return None;
        }
        let ghost avail = self@.available();
        let candidates = set_to_sorted_vec(&self.free);
        let mut k: usize = 0;
        while k < candidates.len()
            invariant
                k <= candidates@.len(),
                page_size > 0,
                required_pages > 0,
                *self == *old(self),
                avail == self@.available(),
                increasing(candidates@),
                candidates@.to_set() == self@.free,
                forall|i: int|
                    0 <= i < k ==> !run_free(
                        avail,
                        #[trigger] candidates@[i] as int,
                        required_pages as int,
                        page_size as int,
                    ),
            decreases candidates@.len() - k,
        {
            let start = candidates[k];
            if self.probe(start, required_pages, page_size) {
                proof {
                    assert forall|b: int| b < start implies !run_free(
                        avail,
                        b,
                        required_pages as int,
                        page_size as int,
                    ) by {
                        lemma_no_run_before(
                            avail,
                            candidates@,
                            k as int,
                            b,
                            required_pages as int,
                            page_size as int,
                        );
                    }
                }
                self.take_run(start, required_pages, page_size);
                return Some(start);
            }
            k += 1;
        }
        proof {
            assert forall|b: int| !run_free(avail, b, required_pages as int, page_size as int) by {
                lemma_no_run_before(
                    avail,
                    candidates@,
                    k as int,
                    b,
                    required_pages as int,
                    page_size as int,
                );
            }
        }
        None
    }

    /// Retires the page at `page_start_address` and the `page_overflow`
    /// pages that follow it under `transaction_id`.
    pub fn free(
        &mut self,
        transaction_id: TransactionId,
        page_start_address: Address,
        page_overflow: u64,
        page_size: u64,
    )
        requires
            page_size > 0,
            page_start_address + (page_overflow + 1) * page_size <= u64::MAX,
        ensures
            final(self)@ == (FreeListModel {
                pending_free: old(self)@.pending_free.insert(
                    transaction_id,
                    old(self)@.bucket(transaction_id).union(
                        run_pages(page_start_address as int, page_overflow + 1, page_size as int),
                    ),
                ),
                ..old(self)@
            }),
    {
        let ghost start = page_start_address as int;
        let ghost ps = page_size as int;
        let ghost before = old(self)@.bucket(transaction_id);
        let ghost raw = self.pending_free@;
        let mut bucket = match map_take(&mut self.pending_free, transaction_id) {
            Some(b) => b,
            None => BTreeSet::new(),
        };
        assert(bucket@ == before);
        assert(page_overflow + 1 <= u64::MAX) by (nonlinear_arith)
            requires
                page_size > 0,
                (page_overflow + 1) * page_size <= u64::MAX,
        ;
        let n: u64 = page_overflow + 1;
        let mut j: u64 = 0;
        let mut addr: u64 = page_start_address;
        proof {
            lemma_page_at_next(start, 0, ps);
            assert(run_pages(start, 0, ps) =~= Set::<u64>::empty());
            assert(before.union(Set::<u64>::empty()) =~= before);
        }
        while j < n
            invariant
                j <= n,
                n == page_overflow + 1,
                ps == page_size,
                start == page_start_address,
                page_size > 0,
                start + n * ps <= u64::MAX,
                j < n ==> addr == page_at(start, j as int, ps),
                bucket@ == before.union(run_pages(start, j as int, ps)),
            decreases n - j,
        {
            set_insert(&mut bucket, addr);
            proof {
                lemma_page_at_next(start, j as int, ps);
                lemma_run_pages_push(start, j as int, ps);
                assert(bucket@ =~= before.union(run_pages(start, j + 1, ps)));
            }
            j += 1;
            if j < n {
                proof {
                    assert(j * ps + ps <= n * ps) by (nonlinear_arith)
                        requires
                            j < n,
                            ps > 0,
                    ;
                }
                addr = addr + page_size;
            }
        }
        map_put(&mut self.pending_free, transaction_id, bucket);
        assert(self@.pending_free =~= old(self)@.pending_free.insert(
            transaction_id,
            before.union(run_pages(start, page_overflow + 1, ps)),
        ));
    }

    /// The transaction that allocated the page at `a`, or 0 where none is
    /// on record.
    fn allocator_of(&self, a: Address) -> (t: TransactionId)
        ensures
            t == self@.allocator(a),
    {
        broadcast use vstd::std_specs::hash::group_hash_axioms;

        match self.allocated_by.get(&a) {
            Some(t) => *t,
            None => 0,
        }
    }

    /// Hands the retired pages that no reader can reach any more back to
    /// the free pages, and returns them. `min_tx` and `max_tx` are the
    /// oldest and the newest snapshot that is being read. A page retired
    /// under transaction `t` is handed back when `t < min_tx`, or when the
    /// transaction that allocated it is newer than `max_tx`.
    pub fn release(&mut self, min_tx: TransactionId, max_tx: TransactionId) -> (freed: Vec<Address>)
        ensures
            freed@ == sorted_seq_of(old(self)@.releasable(min_tx, max_tx)),
            freed@.to_set() == old(self)@.releasable(min_tx, max_tx),
            increasing(freed@),
            freed@.no_duplicates(),
            final(self)@.free == old(self)@.free.union(old(self)@.releasable(min_tx, max_tx)),
            final(self)@.pending_free == old(self)@.pending_after_release(min_tx, max_tx),
            final(self)@.allocated_by == old(self)@.allocated_by.remove_keys(
                old(self)@.releasable(min_tx, max_tx),
            ),
            final(self)@.pending_allocated == old(self)@.pending_allocated,
    {
        let ghost m0 = old(self)@;
        let keys = map_keys_sorted(&self.pending_free);
        let mut out: BTreeSet<Address> = BTreeSet::new();
        let mut i: usize = 0;
        assert(out@ =~= released_below(m0, keys@, 0, min_tx, max_tx));
        assert(self@.free =~= m0.free.union(released_below(m0, keys@, 0, min_tx, max_tx)));
        while i < keys.len()
            invariant
                i <= keys@.len(),
                increasing(keys@),
                keys@.to_set() == m0.pending_free.dom(),
                self@.allocated_by == m0.allocated_by,
                self@.pending_allocated == m0.pending_allocated,
                out@ == released_below(m0, keys@, i as int, min_tx, max_tx),
                self@.free == m0.free.union(released_below(m0, keys@, i as int, min_tx, max_tx)),
                forall|t: u64|
                    is_before(keys@, i as int, t) ==> (#[trigger] self@.pending_free.contains_key(t)
                        <==> (exists|a: u64| m0.kept(t, min_tx, max_tx).contains(a))),
                forall|t: u64|
                    is_before(keys@, i as int, t) && self@.pending_free.contains_key(t)
                        ==> #[trigger] self@.pending_free[t] == m0.kept(t, min_tx, max_tx),
                forall|t: u64|
                    !is_before(keys@, i as int, t) ==> (#[trigger] self@.pending_free.contains_key(t)
                        <==> m0.pending_free.contains_key(t)),
                forall|t: u64|
                    !is_before(keys@, i as int, t) && m0.pending_free.contains_key(t)
                        ==> #[trigger] self@.pending_free[t] == m0.pending_free[t],
            decreases keys@.len() - i,
        {
            let t = keys[i];
            let ghost mid = self@;
            let ghost mid_out = out@;
            let ghost raw = self.pending_free@;
            proof {
                assert(keys@.to_set().contains(t));
                assert(m0.pending_free.contains_key(t));
                assert(!is_before(keys@, i as int, t)) by {
                    if is_before(keys@, i as int, t) {
                        let k = choose|k: int| 0 <= k < i && k < keys@.len() && #[trigger] keys@[k] == t;
                        assert(keys@[k] < keys@[i as int]);
                    }
                }
                assert(mid.pending_free.contains_key(t));
                assert(mid.pending_free[t] == m0.pending_free[t]);
                assert(raw.contains_key(t));
                assert(mid.pending_free[t] == raw[t]@);
            }
            let bucket = match map_take(&mut self.pending_free, t) {
                Some(b) => b,
                None => BTreeSet::new(),
            };
            assert(bucket@ == m0.bucket(t));
            assert(self@.pending_free =~= mid.pending_free.remove(t));
            let pages = set_to_sorted_vec(&bucket);
            let mut keep: BTreeSet<Address> = BTreeSet::new();
            let mut any = false;
            let mut j: usize = 0;
            proof {
                assert(keep@ =~= pages@.take(0).to_set().filter(
                    |a: u64| !m0.may_release(t, a, min_tx, max_tx),
                ));
                assert(out@ =~= mid_out.union(
                    pages@.take(0).to_set().filter(|a: u64| m0.may_release(t, a, min_tx, max_tx)),
                ));
                assert(self@.free =~= mid.free.union(
                    pages@.take(0).to_set().filter(|a: u64| m0.may_release(t, a, min_tx, max_tx)),
                ));
            }
            while j < pages.len()
                invariant
                    j <= pages@.len(),
                    pages@.to_set() == m0.bucket(t),
                    self@.allocated_by == m0.allocated_by,
                    self@.pending_allocated == m0.pending_allocated,
                    self@.pending_free == mid.pending_free.remove(t),
                    any <==> (exists|a: u64| keep@.contains(a)),
                    keep@ == pages@.take(j as int).to_set().filter(
                        |a: u64| !m0.may_release(t, a, min_tx, max_tx),
                    ),
                    out@ == mid_out.union(
                        pages@.take(j as int).to_set().filter(
                            |a: u64| m0.may_release(t, a, min_tx, max_tx),
                        ),
                    ),
                    self@.free == mid.free.union(
                        pages@.take(j as int).to_set().filter(
                            |a: u64| m0.may_release(t, a, min_tx, max_tx),
                        ),
                    ),
                decreases pages@.len() - j,
            {
                let a = pages[j];
                let from = self.allocator_of(a);
                proof {
                    lemma_take_push_set(pages@, j as int);
                }
                if t < min_tx || from > max_tx {
                    set_insert(&mut out, a);
                    set_insert(&mut self.free, a);
                    proof {
                        assert(keep@ =~= pages@.take(j + 1).to_set().filter(
                            |a: u64| !m0.may_release(t, a, min_tx, max_tx),
                        ));
                        assert(out@ =~= mid_out.union(
                            pages@.take(j + 1).to_set().filter(
                                |a: u64| m0.may_release(t, a, min_tx, max_tx),
                            ),
                        ));
                        assert(self@.free =~= mid.free.union(
                            pages@.take(j + 1).to_set().filter(
                                |a: u64| m0.may_release(t, a, min_tx, max_tx),
                            ),
                        ));
                    }
                } else {
                    set_insert(&mut keep, a);
                    any = true;
                    proof {
                        assert(keep@.contains(a));
                        assert(keep@ =~= pages@.take(j + 1).to_set().filter(
                            |a: u64| !m0.may_release(t, a, min_tx, max_tx),
                        ));
                        assert(out@ =~= mid_out.union(
                            pages@.take(j + 1).to_set().filter(
                                |a: u64| m0.may_release(t, a, min_tx, max_tx),
                            ),
                        ));
                        assert(self@.free =~= mid.free.union(
                            pages@.take(j + 1).to_set().filter(
                                |a: u64| m0.may_release(t, a, min_tx, max_tx),
                            ),
                        ));
                    }
                }
                j += 1;
            }
            proof {
                assert(pages@.take(j as int) =~= pages@);
                assert(keep@ =~= m0.kept(t, min_tx, max_tx));
            }
            let ghost kept_set = keep@;
            if any {
                map_put(&mut self.pending_free, t, keep);
                assert(self@.pending_free =~= mid.pending_free.remove(t).insert(t, kept_set));
            }
            proof {
                lemma_released_step(m0, keys@, i as int, min_tx, max_tx);
                let gone = m0.bucket(t).filter(|a: u64| m0.may_release(t, a, min_tx, max_tx));
                assert(out@ =~= released_below(m0, keys@, i + 1, min_tx, max_tx));
                assert(self@.free =~= m0.free.union(
                    released_below(m0, keys@, i + 1, min_tx, max_tx),
                ));
                assert forall|u: u64| is_before(keys@, i + 1, u) <==> (is_before(keys@, i as int, u)
                    || u == t) by {
                    lemma_is_before_step(keys@, i as int, u);
                }
                assert forall|u: u64| is_before(keys@, i + 1, u) implies (
                #[trigger] self@.pending_free.contains_key(u) <==> (exists|a: u64|
                    m0.kept(u, min_tx, max_tx).contains(a))) by {
                    if u != t {
                        assert(mid.pending_free.contains_key(u) == self@.pending_free.contains_key(u));
                    }
                }
                assert forall|u: u64|
                    is_before(keys@, i + 1, u) && self@.pending_free.contains_key(
                        u,
                    ) implies #[trigger] self@.pending_free[u] == m0.kept(u, min_tx, max_tx) by {
                    if u != t {
                        assert(is_before(keys@, i as int, u));
                        assert(mid.pending_free.remove(t).contains_key(u));
                        assert(mid.pending_free.contains_key(u));
                        assert(mid.pending_free.remove(t)[u] == mid.pending_free[u]);
                        assert(mid.pending_free[u] == self@.pending_free[u]);
                    }
                }
                assert forall|u: u64| !is_before(keys@, i + 1, u) implies (
                #[trigger] self@.pending_free.contains_key(u) <==> m0.pending_free.contains_key(
                    u,
                )) by {
                    assert(mid.pending_free.contains_key(u) == self@.pending_free.contains_key(u));
                }
                assert forall|u: u64|
                    !is_before(keys@, i + 1, u) && m0.pending_free.contains_key(
                        u,
                    ) implies #[trigger] self@.pending_free[u] == m0.pending_free[u] by {
                    assert(u != t);
                    assert(!is_before(keys@, i as int, u));
                    assert(mid.pending_free.contains_key(u));
                    assert(mid.pending_free.remove(t).contains_key(u));
                    assert(mid.pending_free.remove(t)[u] == mid.pending_free[u]);
                    assert(self@.pending_free.contains_key(u));
                    assert(mid.pending_free[u] == self@.pending_free[u]);
                }
            }
            i += 1;
        }
        proof {
            lemma_released_all(m0, keys@, min_tx, max_tx);
            assert forall|t: u64| m0.pending_free.contains_key(t) implies is_before(
                keys@,
                keys@.len() as int,
                t,
            ) by {
                assert(keys@.to_set().contains(t));
            }
            assert forall|t: u64| !m0.pending_free.contains_key(t) implies !(exists|a: u64|
                m0.kept(t, min_tx, max_tx).contains(a)) by {
                assert(m0.bucket(t) =~= Set::<u64>::empty());
            }
            assert(self@.pending_free =~= m0.pending_after_release(min_tx, max_tx));
        }
        let ghost released = m0.releasable(min_tx, max_tx);
        let freed = set_to_sorted_vec(&out);
        proof {
            assert forall|x: int, y: int| 0 <= x < freed@.len() && 0 <= y < freed@.len() && x
                != y implies freed@[x] != freed@[y] by {
                if x < y {
                    assert(freed@[x] < freed@[y]);
                } else {
                    assert(freed@[y] < freed@[x]);
                }
            }
        }
        let mut k: usize = 0;
        assert(self@.allocated_by =~= m0.allocated_by.remove_keys(freed@.take(0).to_set()));
        while k < freed.len()
            invariant
                k <= freed@.len(),
                freed@.to_set() == released,
                self@.free == m0.free.union(released),
                self@.pending_free == m0.pending_after_release(min_tx, max_tx),
                self@.pending_allocated == m0.pending_allocated,
                self@.allocated_by == m0.allocated_by.remove_keys(freed@.take(k as int).to_set()),
            decreases freed@.len() - k,
        {
            self.forget_allocation(freed[k]);
            proof {
                lemma_take_push_set(freed@, k as int);
                assert(self@.allocated_by =~= m0.allocated_by.remove_keys(
                    freed@.take(k + 1).to_set(),
                ));
            }
            k += 1;
        }
        assert(freed@.take(k as int) =~= freed@);
        freed
    }

    /// Drops the record of who allocated the page at `a`.
    fn forget_allocation(&mut self, a: Address)
        ensures
            final(self)@ == (FreeListModel {
                allocated_by: old(self)@.allocated_by.remove(a),
                ..old(self)@
            }),
    {
        broadcast use vstd::std_specs::hash::group_hash_axioms;

        self.allocated_by.remove(&a);
    }

    /// Undoes what the writer of `transaction_id` did to the free list:
    /// the pages it took are free again and no longer on record as
    /// allocated, and the pages it retired are forgotten.
    pub fn rollback(&mut self, transaction_id: TransactionId)
        ensures
            final(self)@.free == old(self)@.free.union(old(self)@.pending_allocated),
            final(self)@.pending_allocated == Set::<u64>::empty(),
            final(self)@.pending_free == old(self)@.pending_free.remove(transaction_id),
            final(self)@.allocated_by == old(self)@.allocated_by.remove_keys(
                old(self)@.pending_allocated,
            ),
    {
        let ghost m0 = old(self)@;
        map_take(&mut self.pending_free, transaction_id);
        assert(self@.pending_free =~= m0.pending_free.remove(transaction_id));
        let taken = set_to_sorted_vec(&self.pending_allocated);
        let mut k: usize = 0;
        assert(self@.allocated_by =~= m0.allocated_by.remove_keys(taken@.take(0).to_set()));
        assert(self@.free =~= m0.free.union(taken@.take(0).to_set()));
        while k < taken.len()
            invariant
                k <= taken@.len(),
                taken@.to_set() == m0.pending_allocated,
                self@.pending_allocated == m0.pending_allocated,
                self@.pending_free == m0.pending_free.remove(transaction_id),
                self@.free == m0.free.union(taken@.take(k as int).to_set()),
                self@.allocated_by == m0.allocated_by.remove_keys(taken@.take(k as int).to_set()),
            decreases taken@.len() - k,
        {
            set_insert(&mut self.free, taken[k]);
            self.forget_allocation(taken[k]);
            proof {
                lemma_take_push_set(taken@, k as int);
                assert(self@.free =~= m0.free.union(taken@.take(k + 1).to_set()));
                assert(self@.allocated_by =~= m0.allocated_by.remove_keys(
                    taken@.take(k + 1).to_set(),
                ));
            }
            k += 1;
        }
        assert(taken@.take(k as int) =~= taken@);
        self.pending_allocated.clear();
    }

    /// All retired pages, as one set.
    fn pending_union(&self) -> (all: BTreeSet<Address>)
        ensures
            all@ == self@.pending_pages(),
    {
        let keys = map_keys_sorted(&self.pending_free);
        let mut all: BTreeSet<Address> = BTreeSet::new();
        let mut i: usize = 0;
        assert(all@ =~= pending_below(self@, keys@, 0));
        while i < keys.len()
            invariant
                i <= keys@.len(),
                keys@.to_set() == self@.pending_free.dom(),
                all@ == pending_below(self@, keys@, i as int),
            decreases keys@.len() - i,
        {
            let t = keys[i];
            proof {
                assert(keys@.to_set().contains(t));
            }
            match map_get(&self.pending_free, t) {
                Some(bucket) => {
                    set_extend(&mut all, bucket);
                },
                None => {},
            }
            proof {
                let m = self@;
                assert(all@ =~= pending_below(m, keys@, i + 1)) by {
                    assert forall|a: u64| all@.contains(a) implies pending_below(
                        m,
                        keys@,
                        i + 1,
                    ).contains(a) by {
                        if m.bucket(t).contains(a) {
                            assert(keys@[i as int] == t);
                        } else {
                            let k = choose|k: int|
                                0 <= k < i && #[trigger] m.bucket(keys@[k]).contains(a);
                            assert(0 <= k < i + 1);
                        }
                    }
                    assert forall|a: u64| pending_below(m, keys@, i + 1).contains(
                        a,
                    ) implies all@.contains(a) by {
                        let k = choose|k: int|
                            0 <= k < i + 1 && #[trigger] m.bucket(keys@[k]).contains(a);
                        if k < i {
                            assert(pending_below(m, keys@, i as int).contains(a));
                        }
                    }
                }
            }
            i += 1;
        }
        proof {
            let m = self@;
            assert(all@ =~= m.pending_pages()) by {
                assert forall|a: u64| m.pending_pages().contains(a) implies all@.contains(a) by {
                    let t = choose|t: u64| #[trigger] m.bucket(t).contains(a);
                    assert(m.pending_free.contains_key(t));
                    assert(keys@.to_set().contains(t));
                    let k = choose|k: int| 0 <= k < keys@.len() && keys@[k] == t;
                    assert(m.bucket(keys@[k]).contains(a));
                }
                assert forall|a: u64| all@.contains(a) implies m.pending_pages().contains(a) by {
                    let k = choose|k: int|
                        0 <= k < keys@.len() && #[trigger] m.bucket(keys@[k]).contains(a);
                    assert(m.bucket(keys@[k]).contains(a));
                }
            }
        }
        all
    }

    /// The addresses that are written to the file, from the lowest up: the
    /// free pages and the retired ones.
    pub fn copy_all(&self) -> (data: Vec<u64>)
        ensures
            data@ == self@.image(),
            increasing(data@),
            data@.to_set() == self@.all_pages(),
    {
        let mut all = self.pending_union();
        set_extend(&mut all, &self.free);
        assert(all@ =~= self@.all_pages());
        set_to_sorted_vec(&all)
    }

    /// Number of retired pages.
    pub fn pending_pages_len(&self) -> (n: usize)
        ensures
            n == self@.pending_pages().len(),
    {
        let all = self.pending_union();
        set_len(&all)
    }

    /// Number of pages that the free list keeps in the file.
    pub fn pages_len(&self) -> (n: usize)
        ensures
            n == self@.all_pages().len(),
    {
        let mut all = self.pending_union();
        set_extend(&mut all, &self.free);
        assert(all@ =~= self@.all_pages());
        set_len(&all)
    }

    /// Bytes that the addresses of the free list take in the file, or
    /// `usize::MAX` where that does not fit.
    pub fn size(&self) -> (n: usize)
        ensures
            8 * self@.all_pages().len() <= usize::MAX ==> n == 8 * self@.all_pages().len(),
            8 * self@.all_pages().len() > usize::MAX ==> n == usize::MAX,
    {
        let pages = self.pages_len();
        if pages > usize::MAX / 8 {
            usize::MAX
        } else {
            pages * 8
        }
    }

    /// Writes the free list with its header for pages of `page_size`
    /// bytes, and returns the header. Where the page size is zero or the
    /// size does not fit 64 bits nothing is written.
    pub fn write(&self, writer: &mut Writer, page_size: u32) -> (r: Result<NodeHeader, Error>)
        ensures
            match r {
                Ok(h) => page_size > 0 && 18 + 8 * self@.image().len() <= u64::MAX && h
                    == self@.header(page_size as nat) && final(writer)@ == old(writer)@
                    + self@.bytes(page_size as nat) && increasing(self@.image()),
                Err(e) => !(page_size > 0 && 18 + 8 * self@.image().len() <= u64::MAX) && e
                    == Error::InvalidArgument && final(writer)@ == old(writer)@,
            },
    {
        let data = self.copy_all();
        if page_size == 0 || data.len() as u64 > 0x1fff_ffff_ffff_fffd {
            return Err(Error::InvalidArgument);
        }
        let data_size: u64 = 18 + 8 * (data.len() as u64);
        let overflow_len = (data_size - 1) / (page_size as u64);
        let header = NodeHeader {
            flags: FREELIST_NODE,
            internal_nodes_len: data.len() as u64,
            overflow_len,
        };
        header.write(writer);
        write_slice_u64(writer, data.as_slice());
        assert(writer@ =~= old(writer)@ + self@.bytes(page_size as nat));
        Ok(header)
    }

    /// Reads a free list with its header. Its pages are free and nothing
    /// else is on record. Where the bytes left do not hold a free list,
    /// nothing is read.
    pub fn read(reader: &mut Reader) -> (r: Result<(NodeHeader, Self), Error>)
        ensures
            match r {
                Ok((h, list)) => {
                    &&& parse_free_list(old(reader)@) matches Ok((ph, addresses, rest))
                    &&& ph == h
                    &&& rest == final(reader)@
                    &&& list@.free == addresses.to_set()
                    &&& list@.allocated_by == Map::<u64, u64>::empty()
                    &&& list@.pending_allocated == Set::<u64>::empty()
                    &&& list@.pending_free == Map::<u64, Set<u64>>::empty()
                },
                Err(e) => parse_free_list(old(reader)@) == Err::<
                    (NodeHeader, Seq<u64>, Seq<u8>),
                    Error,
                >(e) && final(reader)@ == old(reader)@,
            },
    {
        let saved = *reader;
        let header = match NodeHeader::read(reader) {
            Ok(h) => h,
            Err(e) => {
                return Err(e);
            },
        };
        if header.flags != FREELIST_NODE {
            *reader = saved;
            return Err(Error::Corruption);
        }
        let ghost body = reader@;
        if header.internal_nodes_len > (reader.remaining() / 8) as u64 {
            *reader = saved;
            return Err(Error::Io);
        }
        let addresses = match read_vec_u64(reader, header.internal_nodes_len as usize) {
            Ok(v) => v,
            Err(e) => {
                *reader = saved;
                return Err(e);
            },
        };
        let mut list = FreeList::default();
        let mut i: usize = 0;
        assert(list@.free =~= addresses@.take(0).to_set());
        while i < addresses.len()
            invariant
                i <= addresses@.len(),
                saved@ == old(reader)@,
                reader@ == body.skip(8 * header.internal_nodes_len),
                parse_header(old(reader)@) == Ok::<(NodeHeader, Seq<u8>), Error>((header, body)),
                header.flags == FREELIST_NODE,
                body.len() >= 8 * header.internal_nodes_len,
                addresses@ == spec_u64s_from_be(body, header.internal_nodes_len as nat),
                list@.free == addresses@.take(i as int).to_set(),
                list@.allocated_by == Map::<u64, u64>::empty(),
                list@.pending_allocated == Set::<u64>::empty(),
                list@.pending_free == Map::<u64, Set<u64>>::empty(),
                forall|a: int, b: int| 0 <= a < b < i ==> addresses@[a] < addresses@[b],
            decreases addresses@.len() - i,
        {
            if i > 0 && addresses[i - 1] >= addresses[i] {
                *reader = saved;
                return Err(Error::Corruption);
            }
            set_insert(&mut list.free, addresses[i]);
            proof {
                lemma_take_push_set(addresses@, i as int);
                assert(list@.free =~= addresses@.take(i + 1).to_set());
            }
            i += 1;
        }
        assert(addresses@.take(i as int) =~= addresses@);
        Ok((header, list))
    }

    /// Puts on record that `transaction_id` allocated the page at
    /// `page_address`.
    pub fn register_allocation(&mut self, page_address: Address, transaction_id: TransactionId)
        ensures
            final(self)@ == (FreeListModel {
                allocated_by: old(self)@.allocated_by.insert(page_address, transaction_id),
                ..old(self)@
            }),
    {
        broadcast use vstd::std_specs::hash::group_hash_axioms;

        self.allocated_by.insert(page_address, transaction_id);
    }

    /// Forgets which pages the writer at work has taken: they are in use
    /// from now on.
    pub fn commit_allocations(&mut self)
        ensures
            final(self)@ == (FreeListModel {
                pending_allocated: Set::<u64>::empty(),
                ..old(self)@
            }),
    {
        self.pending_allocated.clear();
    }
}

/// No run of `n` pages starts at an address `b` that lies before candidate
/// `k`, or anywhere where `k` is past the last candidate, when no run
/// starts at a candidate before `k`.
proof fn lemma_no_run_before(avail: Set<u64>, candidates: Seq<u64>, k: int, b: int, n: int, page_size: int)
    requires
        n > 0,
        0 <= k <= candidates.len(),
        increasing(candidates),
        forall|a: u64| avail.contains(a) ==> candidates.to_set().contains(a),
        forall|i: int|
            0 <= i < k ==> !run_free(avail, #[trigger] candidates[i] as int, n, page_size),
        k < candidates.len() ==> b < candidates[k],
    ensures
        !run_free(avail, b, n, page_size),
{
    lemma_page_at_next(b, 0, page_size);
    if run_free(avail, b, n, page_size) {
        assert(0 <= page_at(b, 0, page_size) <= u64::MAX && avail.contains(
            page_at(b, 0, page_size) as u64,
        ));
        assert(candidates.to_set().contains(b as u64));
        let i = choose|i: int| 0 <= i < candidates.len() && candidates[i] == b as u64;
        if i >= k {
            assert(k < candidates.len());
            if i > k {
                assert(candidates[k] < candidates[i]);
            }
        }
        assert(!run_free(avail, candidates[i] as int, n, page_size));
    }
}

/// The free list at the start of `s`: its header, its addresses and the
/// bytes after them. A header of another kind, and addresses that do not
/// grow strictly, are no free list.
pub open spec fn parse_free_list(s: Seq<u8>) -> Result<(NodeHeader, Seq<u64>, Seq<u8>), Error> {
    match parse_header(s) {
        Err(e) => Err(e),
        Ok((h, rest)) => {
            if h.flags != FREELIST_NODE {
                Err(Error::Corruption)
            } else if rest.len() < 8 * h.internal_nodes_len {
                Err(Error::Io)
            } else {
                let addresses = spec_u64s_from_be(rest, h.internal_nodes_len as nat);
                if increasing(addresses) {
                    Ok((h, addresses, rest.skip(8 * h.internal_nodes_len)))
                } else {
                    Err(Error::Corruption)
                }
            }
        },
    }
}

/// Whether `t` is among the first `i` of `keys`.
pub open spec fn is_before(keys: Seq<u64>, i: int, t: u64) -> bool {
    exists|k: int| 0 <= k < i && k < keys.len() && #[trigger] keys[k] == t
}

/// The pages retired under the first `i` transactions of `keys`.
pub open spec fn pending_below(m: FreeListModel, keys: Seq<u64>, i: int) -> Set<u64> {
    Set::new(|a: u64| exists|k: int| 0 <= k < i && k < keys.len() && #[trigger] m.bucket(keys[k]).contains(a))
}

/// The pages retired under the first `i` transactions of `keys` that may
/// be handed out again.
pub open spec fn released_below(m: FreeListModel, keys: Seq<u64>, i: int, min_tx: u64, max_tx: u64) -> Set<
    u64,
> {
    Set::new(
        |a: u64|
            exists|k: int|
                0 <= k < i && k < keys.len() && #[trigger] m.bucket(keys[k]).contains(a)
                    && m.may_release(keys[k], a, min_tx, max_tx),
    )
}

/// The first `i + 1` keys are the first `i` and key `i`.
proof fn lemma_is_before_step(keys: Seq<u64>, i: int, t: u64)
    requires
        0 <= i < keys.len(),
    ensures
        is_before(keys, i + 1, t) <==> (is_before(keys, i, t) || t == keys[i]),
{
    if is_before(keys, i + 1, t) {
        let k = choose|k: int| 0 <= k < i + 1 && k < keys.len() && #[trigger] keys[k] == t;
        if k < i {
            assert(is_before(keys, i, t));
        }
    }
    if is_before(keys, i, t) {
        let k = choose|k: int| 0 <= k < i && k < keys.len() && #[trigger] keys[k] == t;
        assert(0 <= k < i + 1);
    }
    if t == keys[i] {
        assert(keys[i] == t);
    }
}

/// The pages released below `i + 1` are those released below `i` and those
/// of transaction `keys[i]`.
proof fn lemma_released_step(m: FreeListModel, keys: Seq<u64>, i: int, min_tx: u64, max_tx: u64)
    requires
        0 <= i < keys.len(),
    ensures
        released_below(m, keys, i + 1, min_tx, max_tx) == released_below(
            m,
            keys,
            i,
            min_tx,
            max_tx,
        ).union(m.bucket(keys[i]).filter(|a: u64| m.may_release(keys[i], a, min_tx, max_tx))),
{
    let t = keys[i];
    let lhs = released_below(m, keys, i + 1, min_tx, max_tx);
    let low = released_below(m, keys, i, min_tx, max_tx);
    let top = m.bucket(t).filter(|a: u64| m.may_release(t, a, min_tx, max_tx));
    assert forall|a: u64| lhs.contains(a) implies low.union(top).contains(a) by {
        let k = choose|k: int|
            0 <= k < i + 1 && k < keys.len() && #[trigger] m.bucket(keys[k]).contains(a)
                && m.may_release(keys[k], a, min_tx, max_tx);
        if k < i {
            assert(low.contains(a));
        } else {
            assert(top.contains(a));
        }
    }
    assert forall|a: u64| low.union(top).contains(a) implies lhs.contains(a) by {
        if low.contains(a) {
            let k = choose|k: int|
                0 <= k < i && k < keys.len() && #[trigger] m.bucket(keys[k]).contains(a)
                    && m.may_release(keys[k], a, min_tx, max_tx);
            assert(0 <= k < i + 1);
        } else {
            assert(m.bucket(keys[i]).contains(a));
        }
    }
    assert(lhs =~= low.union(top));
}

/// The pages released below the end of the keys of the retired pages are
/// all pages that may be released.
proof fn lemma_released_all(m: FreeListModel, keys: Seq<u64>, min_tx: u64, max_tx: u64)
    requires
        keys.to_set() == m.pending_free.dom(),
    ensures
        released_below(m, keys, keys.len() as int, min_tx, max_tx) == m.releasable(min_tx, max_tx),
{
    let lhs = released_below(m, keys, keys.len() as int, min_tx, max_tx);
    let rhs = m.releasable(min_tx, max_tx);
    assert forall|a: u64| lhs.contains(a) implies rhs.contains(a) by {
        let k = choose|k: int|
            0 <= k < keys.len() && k < keys.len() && #[trigger] m.bucket(keys[k]).contains(a)
                && m.may_release(keys[k], a, min_tx, max_tx);
        assert(m.bucket(keys[k]).contains(a));
    }
    assert forall|a: u64| rhs.contains(a) implies lhs.contains(a) by {
        let t = choose|t: u64|
            #[trigger] m.bucket(t).contains(a) && m.may_release(t, a, min_tx, max_tx);
        assert(m.pending_free.contains_key(t));
        assert(keys.to_set().contains(t));
        let k = choose|k: int| 0 <= k < keys.len() && keys[k] == t;
        assert(m.bucket(keys[k]).contains(a));
    }
    assert(lhs =~= rhs);
}

/// The numbers among the first `i + 1` of `s` are those among the first
/// `i` and `s[i]`.
pub proof fn lemma_take_push_set(s: Seq<u64>, i: int)
    requires
        0 <= i < s.len(),
    ensures
        s.take(i + 1).to_set() == s.take(i).to_set().insert(s[i]),
{
    let a = s.take(i + 1);
    let b = s.take(i);
    assert forall|x: u64| a.to_set().contains(x) implies b.to_set().insert(s[i]).contains(x) by {
        let k = choose|k: int| 0 <= k < a.len() && a[k] == x;
        if k < i {
            assert(b[k] == x);
        }
    }
    assert forall|x: u64| b.to_set().insert(s[i]).contains(x) implies a.to_set().contains(x) by {
        if x == s[i] {
            assert(a[i] == x);
        } else {
            let k = choose|k: int| 0 <= k < b.len() && b[k] == x;
            assert(a[k] == x);
        }
    }
    assert(a.to_set() =~= b.to_set().insert(s[i]));
}

/// The pages of a run with one more page.
pub proof fn lemma_run_pages_push(start: int, j: int, page_size: int)
    requires
        0 <= j,
        0 <= page_at(start, j, page_size) <= u64::MAX,
    ensures
        run_pages(start, j + 1, page_size) == run_pages(start, j, page_size).insert(
            page_at(start, j, page_size) as u64,
        ),
{
    let done = run_pages(start, j, page_size);
    let more = run_pages(start, j + 1, page_size);
    let addr = page_at(start, j, page_size) as u64;
    assert forall|a: u64| more.contains(a) implies done.insert(addr).contains(a) by {
        let i = choose|i: int| 0 <= i < j + 1 && a == #[trigger] page_at(start, i, page_size);
        if i < j {
            assert(done.contains(a));
        }
    }
    assert forall|a: u64| done.insert(addr).contains(a) implies more.contains(a) by {
        if a == addr {
            assert(a == page_at(start, j, page_size));
        } else {
            let i = choose|i: int| 0 <= i < j && a == #[trigger] page_at(start, i, page_size);
            assert(0 <= i < j + 1);
        }
    }
    assert(more =~= done.insert(addr));
}

/// Writing a free list and reading the bytes back gives the header it was
/// written with and its addresses, whatever follows the bytes.
pub proof fn lemma_free_list_round_trip(m: FreeListModel, page_size: nat, rest: Seq<u8>)
    requires
        increasing(m.image()),
        18 + 8 * m.image().len() <= u64::MAX,
    ensures
        parse_free_list(m.bytes(page_size) + rest) == Ok::<
            (NodeHeader, Seq<u64>, Seq<u8>),
            Error,
        >((m.header(page_size), m.image(), rest)),
{
    let h = m.header(page_size);
    let img = m.image();
    let body = spec_u64s_to_be(img) + rest;
    assert(m.bytes(page_size) + rest =~= header_bytes(h) + body);
    crate::node_codec::lemma_header_round_trip(h, body);
    lemma_u64s_len(img);
    crate::format::lemma_u64s_round_trip(img, rest);
    assert(body.skip(8 * img.len() as int) =~= rest);
}

} // verus!
