//! Sequences of records read as maps from a key to the record: the model of
//! the store's alias-indexed tables.

use vstd::prelude::*;
use crate::order::{arranged_by, lists};

verus! {

/// The map that inserting the entries of `e` in order builds: a later entry
/// with the same key replaces an earlier one.
pub open spec fn keyed<V>(e: Seq<V>, key: spec_fn(V) -> Seq<char>) -> Map<Seq<char>, V>
    decreases e.len(),
{
    if e.len() == 0 {
        Map::empty()
    } else {
        keyed(e.drop_last(), key).insert(key(e.last()), e.last())
    }
}

/// No two entries of `e` share a key.
pub open spec fn keys_distinct<V>(e: Seq<V>, key: spec_fn(V) -> Seq<char>) -> bool {
    forall|i: int, j: int| 0 <= i < j < e.len() ==> key(#[trigger] e[i]) != key(#[trigger] e[j])
}

/// Some entry of `e` has key `k`.
pub open spec fn has_key<V>(e: Seq<V>, key: spec_fn(V) -> Seq<char>, k: Seq<char>) -> bool {
    exists|i: int| 0 <= i < e.len() && key(#[trigger] e[i]) == k
}

/// The keys of `keyed(e, key)` are those of the entries of `e`.
pub proof fn lemma_keyed_dom<V>(e: Seq<V>, key: spec_fn(V) -> Seq<char>, k: Seq<char>)
    ensures
        keyed(e, key).dom().contains(k) == has_key(e, key, k),
    decreases e.len(),
{
    if e.len() > 0 {
        lemma_keyed_dom(e.drop_last(), key, k);
        if has_key(e.drop_last(), key, k) {
            let i = choose|i: int| 0 <= i < e.drop_last().len() && key(#[trigger] e.drop_last()[i]) == k;
            assert(key(e[i]) == k);
        }
        if has_key(e, key, k) && key(e.last()) != k {
            let i = choose|i: int| 0 <= i < e.len() && key(#[trigger] e[i]) == k;
            assert(i < e.len() - 1);
            assert(key(e.drop_last()[i]) == k);
        }
    }
}

/// With distinct keys, each entry is what the map holds under its key.
pub proof fn lemma_keyed_value<V>(e: Seq<V>, key: spec_fn(V) -> Seq<char>, i: int)
    requires
        keys_distinct(e, key),
        0 <= i < e.len(),
    ensures
        keyed(e, key).dom().contains(key(e[i])),
        keyed(e, key)[key(e[i])] == e[i],
    decreases e.len(),
{
    if i < e.len() - 1 {
        assert(e.drop_last()[i] == e[i]);
        assert(keys_distinct(e.drop_last(), key)) by {
            assert forall|a: int, b: int| 0 <= a < b < e.drop_last().len() implies key(
                #[trigger] e.drop_last()[a],
            ) != key(#[trigger] e.drop_last()[b]) by {
                assert(e.drop_last()[a] == e[a] && e.drop_last()[b] == e[b]);
            }
        }
        lemma_keyed_value(e.drop_last(), key, i);
        assert(key(e[i]) != key(e[e.len() - 1]));
    }
}

/// Distinct keys: the map has exactly the entries' keys, each with its entry.
pub proof fn lemma_keyed_all<V>(e: Seq<V>, key: spec_fn(V) -> Seq<char>)
    requires
        keys_distinct(e, key),
    ensures
        forall|k: Seq<char>| #[trigger] keyed(e, key).dom().contains(k) == has_key(e, key, k),
        forall|i: int|
            0 <= i < e.len() ==> #[trigger] keyed(e, key)[key(e[i])] == e[i],
{
    assert forall|k: Seq<char>| #[trigger] keyed(e, key).dom().contains(k) == has_key(e, key, k) by {
        lemma_keyed_dom(e, key, k);
    }
    assert forall|i: int| 0 <= i < e.len() implies #[trigger] keyed(e, key)[key(e[i])] == e[i] by {
        lemma_keyed_value(e, key, i);
    }
}

/// Appending an entry with a new key adds it to the map.
pub proof fn lemma_keyed_push<V>(e: Seq<V>, key: spec_fn(V) -> Seq<char>, x: V)
    requires
        keys_distinct(e, key),
        !has_key(e, key, key(x)),
    ensures
        keys_distinct(e.push(x), key),
        keyed(e.push(x), key) == keyed(e, key).insert(key(x), x),
{
    assert(e.push(x).drop_last() == e);
    assert forall|i: int, j: int| 0 <= i < j < e.push(x).len() implies key(#[trigger] e.push(x)[i])
        != key(#[trigger] e.push(x)[j]) by {
        if j == e.len() {
            assert(e.push(x)[i] == e[i]);
        } else {
            assert(e.push(x)[i] == e[i] && e.push(x)[j] == e[j]);
        }
    }
}

/// Replacing an entry by one with the same key replaces it in the map.
pub proof fn lemma_keyed_update<V>(e: Seq<V>, key: spec_fn(V) -> Seq<char>, i: int, x: V)
    requires
        keys_distinct(e, key),
        0 <= i < e.len(),
        key(x) == key(e[i]),
    ensures
        keys_distinct(e.update(i, x), key),
        keyed(e.update(i, x), key) == keyed(e, key).insert(key(x), x),
{
    let u = e.update(i, x);
    assert forall|a: int, b: int| 0 <= a < b < u.len() implies key(#[trigger] u[a]) != key(
        #[trigger] u[b],
    ) by {
        assert(key(u[a]) == key(e[a]) && key(u[b]) == key(e[b]));
    }
    lemma_keyed_all(e, key);
    lemma_keyed_all(u, key);
    let m1 = keyed(u, key);
    let m2 = keyed(e, key).insert(key(x), x);
    assert forall|k: Seq<char>| m1.dom().contains(k) == m2.dom().contains(k) by {
        if has_key(u, key, k) {
            let j = choose|j: int| 0 <= j < u.len() && key(#[trigger] u[j]) == k;
            assert(key(e[j]) == k);
        }
        if has_key(e, key, k) {
            let j = choose|j: int| 0 <= j < e.len() && key(#[trigger] e[j]) == k;
            assert(key(u[j]) == k);
        }
    }
    assert forall|k: Seq<char>| #[trigger] m1.dom().contains(k) implies m1[k] == m2[k] by {
        let j = choose|j: int| 0 <= j < u.len() && key(#[trigger] u[j]) == k;
        assert(m1[key(u[j])] == u[j]);
        if j != i {
            assert(m2[key(e[j])] == e[j]);
        }
    }
    assert(m1 =~= m2);
}

/// Removing an entry removes its key from the map.
pub proof fn lemma_keyed_remove<V>(e: Seq<V>, key: spec_fn(V) -> Seq<char>, i: int)
    requires
        keys_distinct(e, key),
        0 <= i < e.len(),
    ensures
        keys_distinct(e.remove(i), key),
        keyed(e.remove(i), key) == keyed(e, key).remove(key(e[i])),
{
    let u = e.remove(i);
    assert forall|a: int, b: int| 0 <= a < b < u.len() implies key(#[trigger] u[a]) != key(
        #[trigger] u[b],
    ) by {
        let a2 = if a < i { a } else { a + 1 };
        let b2 = if b < i { b } else { b + 1 };
        assert(u[a] == e[a2] && u[b] == e[b2]);
    }
    lemma_keyed_all(e, key);
    lemma_keyed_all(u, key);
    let m1 = keyed(u, key);
    let m2 = keyed(e, key).remove(key(e[i]));
    assert forall|k: Seq<char>| m1.dom().contains(k) == m2.dom().contains(k) by {
        if has_key(u, key, k) {
            let j = choose|j: int| 0 <= j < u.len() && key(#[trigger] u[j]) == k;
            let j2 = if j < i { j } else { j + 1 };
            assert(u[j] == e[j2]);
            assert(key(e[j2]) == k);
        }
        if has_key(e, key, k) && k != key(e[i]) {
            let j = choose|j: int| 0 <= j < e.len() && key(#[trigger] e[j]) == k;
            let j2 = if j < i { j } else { j - 1 };
            assert(u[j2] == e[j]);
            assert(key(u[j2]) == k);
        }
    }
    assert forall|k: Seq<char>| #[trigger] m1.dom().contains(k) implies m1[k] == m2[k] by {
        let j = choose|j: int| 0 <= j < u.len() && key(#[trigger] u[j]) == k;
        let j2 = if j < i { j } else { j + 1 };
        assert(u[j] == e[j2]);
        assert(m1[key(u[j])] == u[j]);
        assert(m2[key(e[j2])] == e[j2]);
    }
    assert(m1 =~= m2);
}

/// A rearrangement of entries with distinct keys has distinct keys and
/// builds the same map.
pub proof fn lemma_keyed_rearranged<V>(r: Seq<V>, e: Seq<V>, key: spec_fn(V) -> Seq<char>, p: Seq<usize>)
    requires
        keys_distinct(e, key),
        arranged_by(r, e, p),
    ensures
        keys_distinct(r, key),
        keyed(r, key) == keyed(e, key),
{
    assert forall|a: int, b: int| 0 <= a < b < r.len() implies key(#[trigger] r[a]) != key(#[trigger] r[b]) by {
        assert(r[a] == e[p[a] as int] && r[b] == e[p[b] as int]);
        if (p[a] as int) < (p[b] as int) {
        } else {
            assert(p[a] != p[b]);
        }
    }
    lemma_keyed_all(e, key);
    lemma_keyed_all(r, key);
    let m1 = keyed(r, key);
    let m2 = keyed(e, key);
    assert forall|k: Seq<char>| m1.dom().contains(k) == m2.dom().contains(k) by {
        if has_key(r, key, k) {
            let a = choose|a: int| 0 <= a < r.len() && key(#[trigger] r[a]) == k;
            assert(r[a] == e[p[a] as int]);
            assert(key(e[p[a] as int]) == k);
        }
        if has_key(e, key, k) {
            let j = choose|j: int| 0 <= j < e.len() && key(#[trigger] e[j]) == k;
            assert(lists(p, j));
            let a = choose|a: int| 0 <= a < p.len() && p[a] as int == j;
            assert(r[a] == e[p[a] as int]);
            assert(p[a] as int == j);
            assert(key(r[a]) == k);
        }
    }
    assert forall|k: Seq<char>| #[trigger] m1.dom().contains(k) implies m1[k] == m2[k] by {
        let a = choose|a: int| 0 <= a < r.len() && key(#[trigger] r[a]) == k;
        assert(r[a] == e[p[a] as int]);
        assert(m1[key(r[a])] == r[a]);
        assert(m2[key(e[p[a] as int])] == e[p[a] as int]);
    }
    assert(m1 =~= m2);
}

} // verus!
