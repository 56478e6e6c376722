//! Specification helpers for association lists: sequences of key-value
//! pairs with pairwise-distinct keys, used to model the library's
//! frequency tables and pattern-match maps.

use vstd::prelude::*;

verus! {

/// Every key occurs in at most one entry.
pub open spec fn unique_keys<K, V>(entries: Seq<(K, V)>) -> bool {
    forall|i: int, j: int|
        0 <= i < j < entries.len() ==> (#[trigger] entries[i]).0 != (#[trigger] entries[j]).0
}

/// Some entry carries the key `k`.
pub open spec fn has_key<K, V>(entries: Seq<(K, V)>, k: K) -> bool {
    exists|i: int| 0 <= i < entries.len() && (#[trigger] entries[i]).0 == k
}

/// Index of an entry carrying `k` (meaningful when `has_key` holds).
pub open spec fn key_index<K, V>(entries: Seq<(K, V)>, k: K) -> int {
    choose|i: int| 0 <= i < entries.len() && (#[trigger] entries[i]).0 == k
}

/// The value stored under `k` (meaningful when `has_key` holds).
pub open spec fn value_of<K, V>(entries: Seq<(K, V)>, k: K) -> V {
    entries[key_index(entries, k)].1
}

/// The count stored under `k`, zero when `k` is absent.
pub open spec fn get_count<K>(entries: Seq<(K, usize)>, k: K) -> nat {
    if has_key(entries, k) {
        value_of(entries, k) as nat
    } else {
        0
    }
}

/// Sum of all stored counts.
pub open spec fn sum_counts<K>(entries: Seq<(K, usize)>) -> nat
    decreases entries.len(),
{
    if entries.len() == 0 {
        0
    } else {
        sum_counts(entries.drop_last()) + entries.last().1 as nat
    }
}

/// With unique keys, the chosen entry for a present key is the only one
/// that carries it.
pub proof fn lemma_key_index<K, V>(entries: Seq<(K, V)>, k: K)
    requires
        unique_keys(entries),
        has_key(entries, k),
    ensures
        0 <= key_index(entries, k) < entries.len(),
        entries[key_index(entries, k)].0 == k,
        forall|i: int| 0 <= i < entries.len() && (#[trigger] entries[i]).0 == k ==> i == key_index(
            entries,
            k,
        ),
{
}

/// Replacing the value of entry `i` keeps the key set and the other
/// values, and rebinds that entry's key to the new value.
pub proof fn lemma_assoc_update<K, V>(entries: Seq<(K, V)>, i: int, v: V)
    requires
        unique_keys(entries),
        0 <= i < entries.len(),
    ensures
        unique_keys(entries.update(i, (entries[i].0, v))),
        forall|k: K| has_key(entries.update(i, (entries[i].0, v)), k) == has_key(entries, k),
        value_of(entries.update(i, (entries[i].0, v)), entries[i].0) == v,
        forall|k: K|
            k != entries[i].0 && has_key(entries, k) ==> value_of(
                entries.update(i, (entries[i].0, v)),
                k,
            ) == value_of(entries, k),
{
    let upd = entries.update(i, (entries[i].0, v));
    assert forall|k: K| has_key(upd, k) == has_key(entries, k) by {
        if has_key(upd, k) {
            let j = choose|j: int| 0 <= j < upd.len() && (#[trigger] upd[j]).0 == k;
            assert(entries[j].0 == k);
        }
        if has_key(entries, k) {
            let j = choose|j: int| 0 <= j < entries.len() && (#[trigger] entries[j]).0 == k;
            assert(upd[j].0 == k);
        }
    }
    assert(has_key(upd, entries[i].0)) by {
        assert(upd[i].0 == entries[i].0);
    }
    lemma_key_index(upd, entries[i].0);
    assert forall|k: K|
        k != entries[i].0 && has_key(entries, k) implies value_of(upd, k) == value_of(
        entries,
        k,
    ) by {
        lemma_key_index(entries, k);
        lemma_key_index(upd, k);
        let j = key_index(entries, k);
        assert(upd[j].0 == k);
    }
}

/// Appending an entry with a fresh key keeps uniqueness and the old
/// bindings, and binds the new key to the new value.
pub proof fn lemma_assoc_push<K, V>(entries: Seq<(K, V)>, k0: K, v: V)
    requires
        unique_keys(entries),
        !has_key(entries, k0),
    ensures
        unique_keys(entries.push((k0, v))),
        forall|k: K| has_key(entries.push((k0, v)), k) == (has_key(entries, k) || k == k0),
        value_of(entries.push((k0, v)), k0) == v,
        forall|k: K|
            has_key(entries, k) ==> value_of(entries.push((k0, v)), k) == value_of(entries, k),
{
    let ext = entries.push((k0, v));
    assert forall|k: K| has_key(ext, k) == (has_key(entries, k) || k == k0) by {
        if has_key(ext, k) {
            let j = choose|j: int| 0 <= j < ext.len() && (#[trigger] ext[j]).0 == k;
            if j < entries.len() {
                assert(entries[j].0 == k);
            }
        }
        if has_key(entries, k) {
            let j = choose|j: int| 0 <= j < entries.len() && (#[trigger] entries[j]).0 == k;
            assert(ext[j].0 == k);
        }
        if k == k0 {
            assert(ext[entries.len() as int].0 == k);
        }
    }
    assert(ext[entries.len() as int].0 == k0);
    lemma_key_index(ext, k0);
    assert forall|k: K| has_key(entries, k) implies value_of(ext, k) == value_of(entries, k) by {
        lemma_key_index(entries, k);
        lemma_key_index(ext, k);
        let j = key_index(entries, k);
        assert(ext[j].0 == k);
    }
}

/// Replacing the value of entry `i` changes the sum by the difference
/// of the values.
pub proof fn lemma_sum_update<K>(entries: Seq<(K, usize)>, i: int, v: usize)
    requires
        0 <= i < entries.len(),
    ensures
        sum_counts(entries.update(i, (entries[i].0, v))) + entries[i].1 == sum_counts(entries) + v,
    decreases entries.len(),
{
    let upd = entries.update(i, (entries[i].0, v));
    if i == entries.len() - 1 {
        assert(upd.drop_last() =~= entries.drop_last());
    } else {
        lemma_sum_update(entries.drop_last(), i, v);
        assert(upd.drop_last() =~= entries.drop_last().update(i, (entries[i].0, v)));
        assert(upd.last() == entries.last());
    }
}

/// Appending an entry adds its value to the sum.
pub proof fn lemma_sum_push<K>(entries: Seq<(K, usize)>, e: (K, usize))
    ensures
        sum_counts(entries.push(e)) == sum_counts(entries) + e.1,
{
    assert(entries.push(e).drop_last() =~= entries);
}

/// Number of occurrences of `x` in `s`.
pub open spec fn count_occ<T>(s: Seq<T>, x: T) -> nat
    decreases s.len(),
{
    if s.len() == 0 {
        0
    } else {
        count_occ(s.drop_last(), x) + (if s.last() == x {
            1nat
        } else {
            0nat
        })
    }
}

/// An element occurs at most as often as the sequence is long.
pub proof fn lemma_count_occ_le_len<T>(s: Seq<T>, x: T)
    ensures
        count_occ(s, x) <= s.len(),
    decreases s.len(),
{
    if s.len() > 0 {
        lemma_count_occ_le_len(s.drop_last(), x);
    }
}

/// An element occurs at least once exactly when the sequence contains it.
pub proof fn lemma_count_occ_contains<T>(s: Seq<T>, x: T)
    ensures
        count_occ(s, x) > 0 <==> s.contains(x),
    decreases s.len(),
{
    if s.len() > 0 {
        lemma_count_occ_contains(s.drop_last(), x);
        if s.last() == x {
            assert(s[s.len() - 1] == x);
        }
        if s.contains(x) && s.last() != x {
            let i = choose|i: int| 0 <= i < s.len() && s[i] == x;
            assert(s.drop_last()[i] == x);
            assert(s.drop_last().contains(x));
        }
        if s.drop_last().contains(x) {
            let i = choose|i: int| 0 <= i < s.drop_last().len() && s.drop_last()[i] == x;
            assert(s[i] == x);
        }
    }
}

/// Appending one element raises exactly its own count by one.
pub proof fn lemma_count_occ_push<T>(s: Seq<T>, c: T, k: T)
    ensures
        count_occ(s.push(c), k) == count_occ(s, k) + (if k == c {
            1nat
        } else {
            0nat
        }),
{
    assert(s.push(c).drop_last() =~= s);
}

/// Counting occurrences distributes over concatenation.
pub proof fn lemma_count_occ_concat<T>(a: Seq<T>, b: Seq<T>, x: T)
    ensures
        count_occ(a + b, x) == count_occ(a, x) + count_occ(b, x),
    decreases b.len(),
{
    if b.len() == 0 {
        assert(a + b =~= a);
    } else {
        lemma_count_occ_concat(a, b.drop_last(), x);
        assert((a + b).drop_last() =~= a + b.drop_last());
        assert((a + b).last() == b.last());
    }
}

/// `entries` is exactly the frequency table of `s`: unique keys, each
/// key's value is its number of occurrences in `s`, and only elements
/// of `s` appear as keys.
pub open spec fn is_frequency_table<K>(entries: Seq<(K, usize)>, s: Seq<K>) -> bool {
    &&& unique_keys(entries)
    &&& forall|k: K| #[trigger] get_count(entries, k) == count_occ(s, k)
    &&& forall|k: K| #[trigger] has_key(entries, k) ==> s.contains(k)
}

} // verus!
