//! Association sequences viewed as finite maps.
//!
//! The index structures of this crate store their entries in vectors;
//! `assoc_map` gives such a vector its meaning as a `Map` keyed by
//! strings, with later entries overriding earlier ones.

use vstd::prelude::*;

verus! {

/// The finite map described by an association sequence: later entries
/// override earlier ones, matching last-write-wins insertion order.
pub open spec fn assoc_map<T, V>(
    s: Seq<T>,
    key: spec_fn(T) -> Seq<char>,
    val: spec_fn(T) -> V,
) -> Map<Seq<char>, V>
    decreases s.len(),
{
    if s.len() == 0 {
        Map::empty()
    } else {
        assoc_map(s.drop_last(), key, val).insert(key(s.last()), val(s.last()))
    }
}

/// No two entries of the sequence carry the same key.
pub open spec fn unique_keys<T>(s: Seq<T>, key: spec_fn(T) -> Seq<char>) -> bool {
    forall|i: int, j: int| 0 <= i < j < s.len() ==> key(s[i]) != key(s[j])
}

/// A key is in the map exactly when some entry carries it.
pub proof fn lemma_assoc_contains<T, V>(
    s: Seq<T>,
    key: spec_fn(T) -> Seq<char>,
    val: spec_fn(T) -> V,
    k: Seq<char>,
)
    ensures
        assoc_map(s, key, val).contains_key(k) <==> exists|i: int|
            0 <= i < s.len() && key(s[i]) == k,
    decreases s.len(),
{
    if s.len() == 0 {
    } else {
        lemma_assoc_contains(s.drop_last(), key, val, k);
        if key(s.last()) == k {
            assert(key(s[s.len() - 1]) == k);
        } else {
            if exists|i: int| 0 <= i < s.len() && key(s[i]) == k {
                let i = choose|i: int| 0 <= i < s.len() && key(s[i]) == k;
                assert(s.drop_last()[i] == s[i]);
            }
            if assoc_map(s, key, val).contains_key(k) {
                let i = choose|i: int|
                    0 <= i < s.drop_last().len() && key(s.drop_last()[i]) == k;
                assert(key(s[i]) == k);
            }
        }
    }
}

/// Under unique keys, the map sends each entry's key to its value.
pub proof fn lemma_assoc_get<T, V>(
    s: Seq<T>,
    key: spec_fn(T) -> Seq<char>,
    val: spec_fn(T) -> V,
    i: int,
)
    requires
        unique_keys(s, key),
        0 <= i < s.len(),
    ensures
        assoc_map(s, key, val).contains_key(key(s[i])),
        assoc_map(s, key, val)[key(s[i])] == val(s[i]),
    decreases s.len(),
{
    if i == s.len() - 1 {
    } else {
        assert(unique_keys(s.drop_last(), key)) by {
            assert(forall|p: int, q: int|
                0 <= p < q < s.drop_last().len() ==> key(s.drop_last()[p]) != key(
                    s.drop_last()[q],
                )) by {
                assert(forall|p: int|
                    0 <= p < s.drop_last().len() ==> s.drop_last()[p] == s[p]);
            }
        }
        lemma_assoc_get(s.drop_last(), key, val, i);
        assert(s.drop_last()[i] == s[i]);
        assert(key(s[s.len() - 1]) != key(s[i]));
    }
}

/// Replacing entry `i` by one with the same key updates the map at that key.
pub proof fn lemma_assoc_update<T, V>(
    s: Seq<T>,
    key: spec_fn(T) -> Seq<char>,
    val: spec_fn(T) -> V,
    i: int,
    e: T,
)
    requires
        unique_keys(s, key),
        0 <= i < s.len(),
        key(e) == key(s[i]),
    ensures
        assoc_map(s.update(i, e), key, val) == assoc_map(s, key, val).insert(key(e), val(e)),
        unique_keys(s.update(i, e), key),
    decreases s.len(),
{
    let s2 = s.update(i, e);
    assert(unique_keys(s2, key)) by {
        assert(forall|p: int| 0 <= p < s.len() && p != i ==> s2[p] == s[p]);
    }
    if i == s.len() - 1 {
        assert(s2.drop_last() =~= s.drop_last());
        assert(s2.last() == e);
        assert(assoc_map(s2, key, val) =~= assoc_map(s, key, val).insert(key(e), val(e)));
    } else {
        assert(unique_keys(s.drop_last(), key)) by {
            assert(forall|p: int| 0 <= p < s.drop_last().len() ==> s.drop_last()[p] == s[p]);
        }
        assert(s.drop_last()[i] == s[i]);
        lemma_assoc_update(s.drop_last(), key, val, i, e);
        assert(s2.drop_last() =~= s.drop_last().update(i, e));
        assert(s2.last() == s.last());
        assert(key(s.last()) != key(e));
        assert(assoc_map(s2, key, val) =~= assoc_map(s, key, val).insert(key(e), val(e)));
    }
}

/// An association map has finitely many keys.
pub proof fn lemma_assoc_dom_finite<T, V>(
    s: Seq<T>,
    key: spec_fn(T) -> Seq<char>,
    val: spec_fn(T) -> V,
)
    ensures
        assoc_map(s, key, val).dom().finite(),
    decreases s.len(),
{
    if s.len() == 0 {
    } else {
        lemma_assoc_dom_finite(s.drop_last(), key, val);
    }
}

/// Appending an entry inserts its key into the map.
pub proof fn lemma_assoc_push<T, V>(
    s: Seq<T>,
    key: spec_fn(T) -> Seq<char>,
    val: spec_fn(T) -> V,
    e: T,
)
    ensures
        assoc_map(s.push(e), key, val) == assoc_map(s, key, val).insert(key(e), val(e)),
{
    assert(s.push(e).drop_last() =~= s);
    assert(s.push(e).last() == e);
    assert(assoc_map(s.push(e), key, val) =~= assoc_map(s, key, val).insert(key(e), val(e)));
}

} // verus!
