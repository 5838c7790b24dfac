//! Association lists as maps: the model of every keyed collection of the hub.

use vstd::prelude::*;

verus! {

/// Some entry of `s` has the key `k`.
pub open spec fn has_key<K, V>(s: Seq<(K, V)>, k: K) -> bool {
    exists|i: int| 0 <= i < s.len() && (#[trigger] s[i]).0 == k
}

/// The position of an entry of `s` with the key `k`.
pub open spec fn index_of_key<K, V>(s: Seq<(K, V)>, k: K) -> int {
    choose|i: int| 0 <= i < s.len() && (#[trigger] s[i]).0 == k
}

/// No two entries of `s` have the same key.
pub open spec fn distinct_keys<K, V>(s: Seq<(K, V)>) -> bool {
    forall|i: int, j: int|
        0 <= i < j < s.len() ==> (#[trigger] s[i]).0 != (#[trigger] s[j]).0
}

/// The map from each key of `s` to its value.
pub open spec fn to_map<K, V>(s: Seq<(K, V)>) -> Map<K, V> {
    Map::new(|k: K| has_key(s, k), |k: K| s[index_of_key(s, k)].1)
}

/// Each entry of a list with distinct keys is an entry of its map.
pub proof fn lemma_to_map_entry<K, V>(s: Seq<(K, V)>, i: int)
    requires
        distinct_keys(s),
        0 <= i < s.len(),
    ensures
        to_map(s).dom().contains(s[i].0),
        to_map(s)[s[i].0] == s[i].1,
        index_of_key(s, s[i].0) == i,
{
    let k = s[i].0;
    assert(has_key(s, k));
    let j = index_of_key(s, k);
    assert(0 <= j < s.len() && s[j].0 == k);
    if j < i {
        assert(s[j].0 != s[i].0);
    } else if i < j {
        assert(s[i].0 != s[j].0);
    }
}

/// The map of the empty list is empty.
pub proof fn lemma_to_map_empty<K, V>()
    ensures
        to_map(Seq::<(K, V)>::empty()) == Map::<K, V>::empty(),
        distinct_keys(Seq::<(K, V)>::empty()),
{
    assert(to_map(Seq::<(K, V)>::empty()) =~= Map::<K, V>::empty());
}

/// Appending an entry with a new key inserts it into the map.
pub proof fn lemma_to_map_push<K, V>(s: Seq<(K, V)>, k: K, v: V)
    requires
        distinct_keys(s),
        !has_key(s, k),
    ensures
        distinct_keys(s.push((k, v))),
        to_map(s.push((k, v))) == to_map(s).insert(k, v),
{
    let t = s.push((k, v));
    assert forall|i: int, j: int| 0 <= i < j < t.len() implies (#[trigger] t[i]).0 != (
    #[trigger] t[j]).0 by {
        if j == s.len() {
            assert(s[i].0 != k);
        } else {
            assert(s[i].0 != s[j].0);
        }
    }
    assert forall|x: K| to_map(t).dom().contains(x) == to_map(s).insert(k, v).dom().contains(
        x,
    ) by {
        if has_key(t, x) {
            let i = index_of_key(t, x);
            if i < s.len() {
                assert(s[i].0 == x);
            }
        }
        if has_key(s, x) {
            let i = index_of_key(s, x);
            assert(t[i].0 == x);
        }
        if x == k {
            assert(t[s.len() as int].0 == x);
        }
    }
    assert forall|x: K| to_map(t).dom().contains(x) implies to_map(t)[x] == to_map(s).insert(
        k,
        v,
    )[x] by {
        let i = index_of_key(t, x);
        lemma_to_map_entry(t, i);
        if i < s.len() {
            assert(s[i].0 == x);
            lemma_to_map_entry(s, i);
        }
    }
    assert(to_map(t) =~= to_map(s).insert(k, v));
}

/// Replacing the value of an entry replaces it in the map.
pub proof fn lemma_to_map_update<K, V>(s: Seq<(K, V)>, i: int, v: V)
    requires
        distinct_keys(s),
        0 <= i < s.len(),
    ensures
        distinct_keys(s.update(i, (s[i].0, v))),
        to_map(s.update(i, (s[i].0, v))) == to_map(s).insert(s[i].0, v),
{
    let k = s[i].0;
    let t = s.update(i, (k, v));
    assert forall|a: int, b: int| 0 <= a < b < t.len() implies (#[trigger] t[a]).0 != (
    #[trigger] t[b]).0 by {
        assert(s[a].0 != s[b].0);
    }
    assert forall|x: K| to_map(t).dom().contains(x) == to_map(s).insert(k, v).dom().contains(
        x,
    ) by {
        if has_key(t, x) {
            let j = index_of_key(t, x);
            assert(s[j].0 == x);
        }
        if has_key(s, x) {
            let j = index_of_key(s, x);
            assert(t[j].0 == x);
        }
        if x == k {
            assert(t[i].0 == x);
        }
    }
    assert forall|x: K| to_map(t).dom().contains(x) implies to_map(t)[x] == to_map(s).insert(
        k,
        v,
    )[x] by {
        let j = index_of_key(t, x);
        lemma_to_map_entry(t, j);
        assert(s[j].0 == x);
        lemma_to_map_entry(s, j);
    }
    assert(to_map(t) =~= to_map(s).insert(k, v));
}

/// Taking an entry out of the list removes its key from the map.
pub proof fn lemma_to_map_remove<K, V>(s: Seq<(K, V)>, i: int)
    requires
        distinct_keys(s),
        0 <= i < s.len(),
    ensures
        distinct_keys(s.remove(i)),
        to_map(s.remove(i)) == to_map(s).remove(s[i].0),
        !has_key(s.remove(i), s[i].0),
{
    let k = s[i].0;
    let t = s.remove(i);
    assert forall|a: int| 0 <= a < t.len() implies (#[trigger] t[a]) == s[if a < i {
        a
    } else {
        a + 1
    }] by {}
    assert forall|a: int, b: int| 0 <= a < b < t.len() implies (#[trigger] t[a]).0 != (
    #[trigger] t[b]).0 by {
        let a2 = if a < i { a } else { a + 1 };
        let b2 = if b < i { b } else { b + 1 };
        assert(s[a2].0 != s[b2].0);
    }
    if has_key(t, k) {
        let j = index_of_key(t, k);
        let j2 = if j < i { j } else { j + 1 };
        assert(s[j2].0 == k);
        if j2 < i {
            assert(s[j2].0 != s[i].0);
        } else {
            assert(s[i].0 != s[j2].0);
        }
    }
    assert forall|x: K| to_map(t).dom().contains(x) == to_map(s).remove(k).dom().contains(x) by {
        if has_key(t, x) {
            let j = index_of_key(t, x);
            let j2 = if j < i { j } else { j + 1 };
            assert(s[j2].0 == x);
        }
        if has_key(s, x) && x != k {
            let j = index_of_key(s, x);
            let j2 = if j < i { j } else { j - 1 };
            assert(t[j2].0 == x);
        }
    }
    assert forall|x: K| to_map(t).dom().contains(x) implies to_map(t)[x] == to_map(s).remove(
        k,
    )[x] by {
        let j = index_of_key(t, x);
        lemma_to_map_entry(t, j);
        let j2 = if j < i { j } else { j + 1 };
        assert(s[j2].0 == x);
        lemma_to_map_entry(s, j2);
    }
    assert(to_map(t) =~= to_map(s).remove(k));
}

} // verus!
