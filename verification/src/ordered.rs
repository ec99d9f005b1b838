use std::collections::{BTreeMap, BTreeSet};
use vstd::prelude::*;
use vstd::std_specs::cmp::OrdSpec;
use vstd::std_specs::iter::IteratorSpec;

verus! {

/// Whether the numbers of `s` grow strictly from one to the next.
pub open spec fn increasing(s: Seq<u64>) -> bool {
    forall|i: int, j: int| 0 <= i < j < s.len() ==> s[i] < s[j]
}

/// The numbers of a finite set from the smallest up.
pub open spec fn sorted_seq_of(set: Set<u64>) -> Seq<u64> {
    choose|s: Seq<u64>| increasing(s) && s.to_set() == set
}

/// Two growing sequences with the same numbers are the same sequence.
pub proof fn lemma_increasing_unique(a: Seq<u64>, b: Seq<u64>)
    requires
        increasing(a),
        increasing(b),
        a.to_set() == b.to_set(),
    ensures
        a == b,
    decreases a.len(),
{
    if a.len() == 0 {
        if b.len() > 0 {
            assert(b.to_set().contains(b[0]));
            assert(a.to_set().contains(b[0]));
        }
        assert(a =~= b);
    } else {
        assert(a.to_set().contains(a.last()));
        assert(b.to_set().contains(a.last()));
        assert(b.len() > 0);
        assert(b.to_set().contains(b.last()));
        assert(a.to_set().contains(b.last()));
        let i = choose|i: int| 0 <= i < b.len() && b[i] == a.last();
        let j = choose|j: int| 0 <= j < a.len() && a[j] == b.last();
        assert(a.last() == b.last());
        let a0 = a.drop_last();
        let b0 = b.drop_last();
        assert forall|x: u64| a0.to_set().contains(x) <==> b0.to_set().contains(x) by {
            if a0.to_set().contains(x) {
                let k = choose|k: int| 0 <= k < a0.len() && a0[k] == x;
                assert(a[k] == x);
                assert(a.to_set().contains(x));
                assert(b.to_set().contains(x));
                let m = choose|m: int| 0 <= m < b.len() && b[m] == x;
                assert(m < b.len() - 1);
                assert(b0[m] == x);
            }
            if b0.to_set().contains(x) {
                let k = choose|k: int| 0 <= k < b0.len() && b0[k] == x;
                assert(b[k] == x);
                assert(b.to_set().contains(x));
                assert(a.to_set().contains(x));
                let m = choose|m: int| 0 <= m < a.len() && a[m] == x;
                assert(m < a.len() - 1);
                assert(a0[m] == x);
            }
        }
        assert(a0.to_set() =~= b0.to_set());
        lemma_increasing_unique(a0, b0);
        assert(a =~= a0.push(a.last()));
        assert(b =~= b0.push(b.last()));
    }
}

/// A growing sequence with the numbers of `set` is the sorted sequence of
/// `set`.
pub proof fn lemma_sorted_seq_of(s: Seq<u64>, set: Set<u64>)
    requires
        increasing(s),
        s.to_set() == set,
    ensures
        sorted_seq_of(set) == s,
{
    let c = sorted_seq_of(set);
    lemma_increasing_unique(c, s);
}

/// A finite set of numbers that is not empty has a largest number.
pub proof fn lemma_largest(set: Set<u64>) -> (m: u64)
    requires
        set.finite(),
        set.len() > 0,
    ensures
        set.contains(m),
        forall|x: u64| set.contains(x) ==> x <= m,
    decreases set.len(),
{
    let x = set.choose();
    let rest = set.remove(x);
    if rest.len() == 0 {
        assert forall|y: u64| set.contains(y) implies y <= x by {
            if y != x {
                assert(rest.contains(y));
            }
        }
        x
    } else {
        let m = lemma_largest(rest);
        let best = if x > m {
            x
        } else {
            m
        };
        assert forall|y: u64| set.contains(y) implies y <= best by {
            if y != x {
                assert(rest.contains(y));
            }
        }
        best
    }
}

/// The sorted sequence of a finite set grows, holds the numbers of the
/// set, and is as long as the set is large.
pub proof fn lemma_sorted_seq_len(set: Set<u64>)
    requires
        set.finite(),
    ensures
        increasing(sorted_seq_of(set)),
        sorted_seq_of(set).to_set() == set,
        sorted_seq_of(set).len() == set.len(),
    decreases set.len(),
{
    if set.len() == 0 {
        let none = Seq::<u64>::empty();
        assert(none.to_set() =~= set);
        lemma_sorted_seq_of(none, set);
    } else {
        let m = lemma_largest(set);
        let rest = set.remove(m);
        lemma_sorted_seq_len(rest);
        let front = sorted_seq_of(rest);
        let all = front.push(m);
        assert forall|i: int, j: int| 0 <= i < j < all.len() implies all[i] < all[j] by {
            assert(front.to_set().contains(front[i]));
            assert(rest.contains(front[i]));
            if j < front.len() {
                assert(front[i] < front[j]);
            }
        }
        assert forall|x: u64| all.to_set().contains(x) <==> set.contains(x) by {
            if all.to_set().contains(x) {
                let i = choose|i: int| 0 <= i < all.len() && all[i] == x;
                if i < front.len() {
                    assert(front.to_set().contains(front[i]));
                }
            }
            if set.contains(x) {
                if x == m {
                    assert(all[front.len() as int] == m);
                } else {
                    assert(rest.contains(x));
                    assert(front.to_set().contains(x));
                    let i = choose|i: int| 0 <= i < front.len() && front[i] == x;
                    assert(all[i] == x);
                }
            }
        }
        assert(all.to_set() =~= set);
        lemma_sorted_seq_of(all, set);
    }
}

/// References that grow in the order of the standard library point at
/// numbers that grow.
proof fn lemma_increasing_refs(s: Seq<&u64>)
    requires
        vstd::std_specs::btree::increasing_seq(s),
    ensures
        increasing(s.unref()),
{
    broadcast use vstd::std_specs::btree::group_btree_axioms;
    broadcast use vstd::laws_cmp::group_laws_cmp;

    assert(vstd::laws_cmp::obeys_cmp::<u64>());
    assert(vstd::laws_cmp::obeys_cmp::<&u64>());
    vstd::std_specs::btree::axiom_increasing_seq_meaning::<&u64>(s);
    assert forall|i: int, j: int| 0 <= i < j < s.len() implies *s[i] < *s[j] by {
        assert(OrdSpec::cmp_spec(&s[i], &s[j]) is Less);
    }
}

/// The numbers of `set` from the smallest up.
pub fn set_to_sorted_vec(set: &BTreeSet<u64>) -> (v: Vec<u64>)
    ensures
        v@ == sorted_seq_of(set@),
        increasing(v@),
        v@.to_set() == set@,
{
    broadcast use vstd::std_specs::btree::group_btree_axioms;
    broadcast use vstd::laws_cmp::group_laws_cmp;

    let mut v: Vec<u64> = Vec::new();
    let ghost keys = vstd::std_specs::btree::spec_btree_keys_iter(set).remaining();
    for x in iter: set.iter()
        invariant
            iter.seq() == keys,
            v@ == keys.take(iter.index()).unref(),
    {
        v.push(*x);
    }
    proof {
        assert(v@ == keys.unref());
        lemma_increasing_refs(keys);
        lemma_sorted_seq_of(v@, set@);
    }
    v
}

/// The keys of `map` from the smallest up.
pub fn map_keys_sorted<V>(map: &BTreeMap<u64, V>) -> (v: Vec<u64>)
    ensures
        v@ == sorted_seq_of(map@.dom()),
        increasing(v@),
        v@.to_set() == map@.dom(),
{
    broadcast use vstd::std_specs::btree::group_btree_axioms;
    broadcast use vstd::laws_cmp::group_laws_cmp;

    let mut v: Vec<u64> = Vec::new();
    let ghost keys = vstd::std_specs::btree::spec_keys_iter(map).remaining();
    for x in iter: map.keys()
        invariant
            iter.seq() == keys,
            v@ == keys.take(iter.index()).unref(),
    {
        v.push(*x);
    }
    proof {
        assert(v@ == keys.unref());
        lemma_increasing_refs(keys);
        lemma_sorted_seq_of(v@, map@.dom());
    }
    v
}

/// Puts `k` into `set`. Tells whether it was new.
pub fn set_insert(set: &mut BTreeSet<u64>, k: u64) -> (fresh: bool)
    ensures
        final(set)@ == old(set)@.insert(k),
        fresh == !old(set)@.contains(k),
{
    broadcast use vstd::std_specs::btree::group_btree_axioms;
    broadcast use vstd::laws_cmp::group_laws_cmp;

    set.insert(k)
}

/// Takes `k` out of `set`. Tells whether it was there.
pub fn set_remove(set: &mut BTreeSet<u64>, k: u64) -> (present: bool)
    ensures
        final(set)@ == old(set)@.remove(k),
        present == old(set)@.contains(k),
{
    broadcast use vstd::std_specs::btree::group_btree_axioms;
    broadcast use vstd::laws_cmp::group_laws_cmp;

    set.remove(&k)
}

/// Tells whether `k` is in `set`.
pub fn set_contains(set: &BTreeSet<u64>, k: u64) -> (present: bool)
    ensures
        present == set@.contains(k),
{
    broadcast use vstd::std_specs::btree::group_btree_axioms;
    broadcast use vstd::laws_cmp::group_laws_cmp;

    set.contains(&k)
}

/// Number of elements of `set`.
pub fn set_len(set: &BTreeSet<u64>) -> (n: usize)
    ensures
        n == set@.len(),
        set@.finite(),
{
    broadcast use vstd::std_specs::btree::group_btree_axioms;
    broadcast use vstd::laws_cmp::group_laws_cmp;

    proof {
        let keys = vstd::std_specs::btree::spec_btree_keys_iter(set).remaining();
        vstd::seq_lib::seq_to_set_is_finite(keys.unref());
    }
    set.len()
}

/// Takes the value under `k` out of `map`.
pub fn map_take<V>(map: &mut BTreeMap<u64, V>, k: u64) -> (r: Option<V>)
    ensures
        final(map)@ == old(map)@.remove(k),
        match r {
            Some(s) => old(map)@.contains_key(k) && old(map)@[k] == s,
            None => !old(map)@.contains_key(k),
        },
{
    broadcast use vstd::std_specs::btree::group_btree_axioms;
    broadcast use vstd::laws_cmp::group_laws_cmp;

    map.remove(&k)
}

/// Puts `s` under `k` in `map`.
pub fn map_put<V>(map: &mut BTreeMap<u64, V>, k: u64, s: V)
    ensures
        final(map)@ == old(map)@.insert(k, s),
{
    broadcast use vstd::std_specs::btree::group_btree_axioms;
    broadcast use vstd::laws_cmp::group_laws_cmp;

    map.insert(k, s);
}

/// The value under `k` in `map`.
pub fn map_get<V>(map: &BTreeMap<u64, V>, k: u64) -> (r: Option<&V>)
    ensures
        match r {
            Some(s) => map@.contains_key(k) && map@[k] == *s,
            None => !map@.contains_key(k),
        },
{
    broadcast use vstd::std_specs::btree::group_btree_axioms;
    broadcast use vstd::laws_cmp::group_laws_cmp;

    map.get(&k)
}

/// Puts every element of `src` into `dst`.
pub fn set_extend(dst: &mut BTreeSet<u64>, src: &BTreeSet<u64>)
    ensures
        final(dst)@ == old(dst)@.union(src@),
{
    let items = set_to_sorted_vec(src);
    let mut i: usize = 0;
    assert(old(dst)@.union(items@.take(0).to_set()) =~= old(dst)@);
    while i < items.len()
        invariant
            i <= items@.len(),
            items@.to_set() == src@,
            dst@ == old(dst)@.union(items@.take(i as int).to_set()),
        decreases items@.len() - i,
    {
        set_insert(dst, items[i]);
        proof {
            assert(items@.take(i + 1) =~= items@.take(i as int).push(items@[i as int]));
            vstd::seq_lib::seq_to_set_distributes_over_add(
                items@.take(i as int),
                seq![items@[i as int]],
            );
            assert(items@.take(i as int).push(items@[i as int]) =~= items@.take(i as int) + seq![
                items@[i as int],
            ]);
            assert(seq![items@[i as int]].to_set() =~= set![items@[i as int]]) by {
                assert(seq![items@[i as int]][0] == items@[i as int]);
            }
            assert(dst@ =~= old(dst)@.union(items@.take(i + 1).to_set()));
        }
        i += 1;
    }
    assert(items@.take(i as int) =~= items@);
}

} // verus!
