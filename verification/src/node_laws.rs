use crate::key::{
    key_lt, key_order, KeyOrder, lemma_key_lt_transitive, lemma_key_order_equal,
    lemma_key_order_flip,
};
use crate::node::{LeafEntry, put_entry, search_keys, split_entries, split_from};
use vstd::prelude::*;

verus! {

/// The entries of `pieces` one after the other.
pub open spec fn concat<T>(pieces: Seq<Seq<T>>) -> Seq<T>
    decreases pieces.len(),
{
    if pieces.len() == 0 {
        Seq::empty()
    } else {
        concat(pieces.drop_last()) + pieces.last()
    }
}

/// The entries of pieces with one more piece at their end.
pub proof fn lemma_concat_push<T>(pieces: Seq<Seq<T>>, piece: Seq<T>)
    ensures
        concat(pieces.push(piece)) == concat(pieces) + piece,
{
    assert(pieces.push(piece).drop_last() =~= pieces);
}

/// Splitting goes on from any point without losing or reordering an
/// entry, and closes no piece with fewer than two entries.
pub proof fn lemma_split_from<T>(
    entries: Seq<T>,
    size_of: spec_fn(T) -> nat,
    threshold: nat,
    i: int,
    done: Seq<Seq<T>>,
    cur: Seq<T>,
    cur_size: nat,
)
    requires
        0 <= i,
        i + 2 <= entries.len(),
        forall|k: int| 0 <= k < done.len() ==> (#[trigger] done[k]).len() >= 2,
    ensures
        concat(split_from(entries, size_of, threshold, i, done, cur, cur_size)) == concat(done)
            + cur + entries.skip(i),
        forall|k: int|
            0 <= k < split_from(entries, size_of, threshold, i, done, cur, cur_size).len() ==> (
            #[trigger] split_from(entries, size_of, threshold, i, done, cur, cur_size)[k]).len()
                >= 2,
        split_from(entries, size_of, threshold, i, done, cur, cur_size).len() > done.len(),
    decreases entries.len() - i,
{
    if i + 2 >= entries.len() {
        lemma_concat_push(done, cur + entries.skip(i));
        assert(concat(done) + (cur + entries.skip(i)) =~= concat(done) + cur + entries.skip(i));
    } else if cur_size + size_of(entries[i]) > threshold && cur.len() >= 2 {
        let next_done = done.push(cur);
        lemma_split_from(
            entries,
            size_of,
            threshold,
            i + 1,
            next_done,
            seq![entries[i]],
            18 + size_of(entries[i]),
        );
        lemma_concat_push(done, cur);
        assert(concat(next_done) + seq![entries[i]] + entries.skip(i + 1) =~= concat(done) + cur
            + entries.skip(i));
    } else {
        lemma_split_from(
            entries,
            size_of,
            threshold,
            i + 1,
            done,
            cur.push(entries[i]),
            cur_size + size_of(entries[i]),
        );
        assert(concat(done) + cur.push(entries[i]) + entries.skip(i + 1) =~= concat(done) + cur
            + entries.skip(i));
    }
}

/// Splitting loses and reorders no entry: the pieces one after the other
/// are the entries. Where there are at least two entries every piece
/// holds at least two.
pub proof fn lemma_split_entries<T>(entries: Seq<T>, size_of: spec_fn(T) -> nat, threshold: nat)
    ensures
        concat(split_entries(entries, size_of, threshold)) == entries,
        split_entries(entries, size_of, threshold).len() >= 1,
        entries.len() >= 2 ==> forall|k: int|
            0 <= k < split_entries(entries, size_of, threshold).len() ==> (
            #[trigger] split_entries(entries, size_of, threshold)[k]).len() >= 2,
{
    if entries.len() <= 2 {
        let one = seq![entries];
        assert(one =~= Seq::<Seq<T>>::empty().push(entries));
        lemma_concat_push(Seq::<Seq<T>>::empty(), entries);
        assert(concat(Seq::<Seq<T>>::empty()) + entries =~= entries);
    } else {
        lemma_split_from(entries, size_of, threshold, 0, Seq::empty(), Seq::empty(), 18);
        assert(concat(Seq::<Seq<T>>::empty()) + Seq::<T>::empty() + entries.skip(0) =~= entries);
    }
}

/// Whether the keys of `keys` grow strictly from one to the next.
pub open spec fn keys_sorted(keys: Seq<Seq<u8>>) -> bool {
    forall|i: int, j: int| 0 <= i < j < keys.len() ==> key_lt(keys[i], keys[j])
}

/// Among keys that grow strictly, a search by halving ends at the first
/// key that is not before the one looked for: every key before the index
/// it ends at is before the key, and the key it ends at, and every key
/// after it, is the key or after it. It meets the key exactly where the
/// key is among them.
pub proof fn lemma_search_lower_bound(keys: Seq<Seq<u8>>, key: Seq<u8>, lo: int, hi: int)
    requires
        keys_sorted(keys),
        0 <= lo <= hi <= keys.len(),
        forall|j: int| 0 <= j < lo ==> key_lt(#[trigger] keys[j], key),
        forall|j: int| hi <= j < keys.len() ==> key_lt(key, #[trigger] keys[j]),
    ensures
        ({
            let (found, index) = search_keys(keys, key, lo, hi);
            &&& lo <= index <= hi
            &&& forall|j: int| 0 <= j < index ==> key_lt(#[trigger] keys[j], key)
            &&& found ==> index < keys.len() && keys[index] == key
            &&& !found ==> forall|j: int| index <= j < keys.len() ==> key_lt(key, #[trigger] keys[j])
            &&& found <==> exists|j: int| 0 <= j < keys.len() && keys[j] == key
        }),
    decreases hi - lo,
{
    let (found, index) = search_keys(keys, key, lo, hi);
    if lo >= hi {
        assert(!found);
        assert forall|j: int| 0 <= j < keys.len() implies keys[j] != key by {
            lemma_key_order_equal(keys[j], key);
            lemma_key_order_equal(key, keys[j]);
            if j < lo {
                assert(key_lt(keys[j], key));
            } else {
                assert(key_lt(key, keys[j]));
            }
        }
    } else {
        let mid = lo + (hi - lo) / 2;
        match key_order(keys[mid], key) {
            KeyOrder::Equal => {
                lemma_key_order_equal(keys[mid], key);
                assert forall|j: int| 0 <= j < mid implies key_lt(#[trigger] keys[j], key) by {
                    assert(key_lt(keys[j], keys[mid]));
                }
            },
            KeyOrder::Less => {
                assert forall|j: int| 0 <= j < mid + 1 implies key_lt(#[trigger] keys[j], key) by {
                    if j < mid {
                        assert(key_lt(keys[j], keys[mid]));
                        lemma_key_lt_transitive(keys[j], keys[mid], key);
                    }
                }
                lemma_search_lower_bound(keys, key, mid + 1, hi);
            },
            KeyOrder::Greater => {
                lemma_key_order_flip(keys[mid], key);
                assert forall|j: int| mid <= j < keys.len() implies key_lt(
                    key,
                    #[trigger] keys[j],
                ) by {
                    if mid < j {
                        assert(key_lt(keys[mid], keys[j]));
                        lemma_key_lt_transitive(key, keys[mid], keys[j]);
                    }
                }
                lemma_search_lower_bound(keys, key, lo, mid);
            },
        }
    }
}

/// The keys of leaf entries.
pub open spec fn entry_keys(es: Seq<LeafEntry>) -> Seq<Seq<u8>> {
    Seq::new(es.len(), |i: int| es[i].key)
}

/// The entries of a leaf after `value` was put under `key`, at the place
/// that a search for the key finds.
pub open spec fn leaf_put(es: Seq<LeafEntry>, key: Seq<u8>, value: Seq<u8>) -> Seq<LeafEntry> {
    put_entry(
        es,
        search_keys(entry_keys(es), key, 0, es.len() as int).1,
        LeafEntry { key, value },
    )
}

/// The entries of a leaf after `key` was taken out, where a search for the
/// key finds it.
pub open spec fn leaf_remove(es: Seq<LeafEntry>, key: Seq<u8>) -> Seq<LeafEntry> {
    let (found, index) = search_keys(entry_keys(es), key, 0, es.len() as int);
    if found {
        es.remove(index)
    } else {
        es
    }
}

/// Putting a value under a key in a leaf whose keys grow strictly leaves
/// a leaf whose keys grow strictly, in which the key is found with the
/// value.
pub proof fn lemma_leaf_put(es: Seq<LeafEntry>, key: Seq<u8>, value: Seq<u8>)
    requires
        keys_sorted(entry_keys(es)),
    ensures
        keys_sorted(entry_keys(leaf_put(es, key, value))),
        ({
            let after = leaf_put(es, key, value);
            let (found, index) = search_keys(entry_keys(after), key, 0, after.len() as int);
            found && after[index] == (LeafEntry { key, value }) && index == search_keys(
                entry_keys(es),
                key,
                0,
                es.len() as int,
            ).1
        }),
{
    let keys = entry_keys(es);
    lemma_search_lower_bound(keys, key, 0, es.len() as int);
    let (found, index) = search_keys(keys, key, 0, es.len() as int);
    let after = leaf_put(es, key, value);
    let after_keys = entry_keys(after);
    if found {
        assert(keys[index] == key);
        assert(es[index].key == key);
        assert(after_keys =~= keys);
    } else {
        if index < es.len() {
            assert(key_lt(key, keys[index]));
            lemma_key_order_equal(key, keys[index]);
            assert(es[index].key != key);
        }
        assert(after == es.insert(index, LeafEntry { key, value }));
        assert forall|i: int, j: int| 0 <= i < j < after_keys.len() implies key_lt(
            after_keys[i],
            after_keys[j],
        ) by {
            if j < index {
                assert(after_keys[i] == keys[i] && after_keys[j] == keys[j]);
            } else if j == index {
                assert(after_keys[i] == keys[i]);
                assert(key_lt(keys[i], key));
            } else if i < index {
                assert(after_keys[i] == keys[i] && after_keys[j] == keys[j - 1]);
                if i < j - 1 {
                } else {
                    assert(i == j - 1);
                    assert(false);
                }
            } else if i == index {
                assert(after_keys[j] == keys[j - 1]);
                assert(key_lt(key, keys[j - 1]));
            } else {
                assert(after_keys[i] == keys[i - 1] && after_keys[j] == keys[j - 1]);
            }
        }
    }
    lemma_search_lower_bound(after_keys, key, 0, after.len() as int);
    let (found2, index2) = search_keys(after_keys, key, 0, after.len() as int);
    assert(after_keys[index] == key);
    assert(found2);
    assert(index2 == index) by {
        lemma_key_order_equal(after_keys[index2], after_keys[index]);
        if index2 < index {
            assert(key_lt(after_keys[index2], after_keys[index]));
        } else if index < index2 {
            assert(key_lt(after_keys[index], after_keys[index2]));
        }
    }
}

/// Putting a value under a key and then another under the same key is
/// putting the other, in a leaf whose keys grow strictly.
pub proof fn lemma_leaf_put_twice(es: Seq<LeafEntry>, key: Seq<u8>, first: Seq<u8>, second: Seq<u8>)
    requires
        keys_sorted(entry_keys(es)),
    ensures
        leaf_put(leaf_put(es, key, first), key, second) == leaf_put(es, key, second),
{
    lemma_leaf_put(es, key, first);
    lemma_search_lower_bound(entry_keys(es), key, 0, es.len() as int);
    let (found, index) = search_keys(entry_keys(es), key, 0, es.len() as int);
    let once = leaf_put(es, key, first);
    let twice = leaf_put(once, key, second);
    let direct = leaf_put(es, key, second);
    if found {
        assert(entry_keys(es)[index] == key);
        assert(twice =~= direct);
    } else {
        if index < es.len() {
            assert(key_lt(key, entry_keys(es)[index]));
            lemma_key_order_equal(key, entry_keys(es)[index]);
        }
        assert(twice =~= direct);
    }
}

/// Taking a key out of a leaf whose keys grow strictly leaves a leaf
/// whose keys grow strictly and in which the key is not found; taking it
/// out once more changes nothing.
pub proof fn lemma_leaf_remove_twice(es: Seq<LeafEntry>, key: Seq<u8>)
    requires
        keys_sorted(entry_keys(es)),
    ensures
        keys_sorted(entry_keys(leaf_remove(es, key))),
        !search_keys(
            entry_keys(leaf_remove(es, key)),
            key,
            0,
            leaf_remove(es, key).len() as int,
        ).0,
        leaf_remove(leaf_remove(es, key), key) == leaf_remove(es, key),
{
    let keys = entry_keys(es);
    lemma_search_lower_bound(keys, key, 0, es.len() as int);
    let (found, index) = search_keys(keys, key, 0, es.len() as int);
    let after = leaf_remove(es, key);
    let after_keys = entry_keys(after);
    if found {
        assert forall|i: int, j: int| 0 <= i < j < after_keys.len() implies key_lt(
            after_keys[i],
            after_keys[j],
        ) by {
            let a = if i < index {
                i
            } else {
                i + 1
            };
            let b = if j < index {
                j
            } else {
                j + 1
            };
            assert(after_keys[i] == keys[a] && after_keys[j] == keys[b]);
        }
        lemma_search_lower_bound(after_keys, key, 0, after.len() as int);
        assert forall|j: int| 0 <= j < after_keys.len() implies after_keys[j] != key by {
            let b = if j < index {
                j
            } else {
                j + 1
            };
            assert(after_keys[j] == keys[b]);
            lemma_key_order_equal(keys[b], keys[index]);
            if b < index {
                assert(key_lt(keys[b], keys[index]));
            } else {
                assert(key_lt(keys[index], keys[b]));
            }
        }
    } else {
        assert(after == es);
    }
}

} // verus!
