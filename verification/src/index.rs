//! Finding entries by key in a sequence that holds each key once.

use vstd::prelude::*;

verus! {

/// Where `key` stands in `keys`, if it stands there at all.
pub open spec fn position<K>(keys: Seq<K>, key: K) -> Option<int> {
    if keys.contains(key) {
        Some(keys.index_of(key))
    } else {
        None
    }
}

/// In a sequence without duplicates, the key at `i` is found at `i`.
pub proof fn lemma_position_at<K>(keys: Seq<K>, i: int)
    requires
        keys.no_duplicates(),
        0 <= i < keys.len(),
    ensures
        position(keys, keys[i]) == Some(i),
{
    assert(keys.contains(keys[i]));
}

/// A found position is a valid index that holds the key.
pub proof fn lemma_position_valid<K>(keys: Seq<K>, key: K)
    ensures
        match position(keys, key) {
            Some(i) => 0 <= i < keys.len() && keys[i] == key,
            None => forall|j: int| 0 <= j < keys.len() ==> keys[j] != key,
        },
{
}

/// Adding a key that is not yet there keeps a sequence free of duplicates.
pub proof fn lemma_push_fresh<K>(keys: Seq<K>, key: K)
    requires
        keys.no_duplicates(),
        !keys.contains(key),
    ensures
        keys.push(key).no_duplicates(),
{
    let after = keys.push(key);
    assert forall|i: int, j: int| 0 <= i < after.len() && 0 <= j < after.len() && i != j implies after[i]
        != after[j] by {
        if i < keys.len() && j < keys.len() {
            assert(keys[i] != keys[j]);
        } else if i < keys.len() {
            assert(keys.contains(keys[i]));
        } else {
            assert(keys.contains(keys[j]));
        }
    }
}

/// Taking one key out keeps a sequence free of duplicates, and the key is
/// then gone from it.
pub proof fn lemma_remove_key<K>(keys: Seq<K>, i: int)
    requires
        keys.no_duplicates(),
        0 <= i < keys.len(),
    ensures
        keys.remove(i).no_duplicates(),
        !keys.remove(i).contains(keys[i]),
        forall|k: K| k != keys[i] ==> (keys.remove(i).contains(k) <==> keys.contains(k)),
{
    let after = keys.remove(i);
    assert forall|a: int, b: int| 0 <= a < after.len() && 0 <= b < after.len() && a != b implies after[a]
        != after[b] by {
        let a0 = if a < i { a } else { a + 1 };
        let b0 = if b < i { b } else { b + 1 };
        assert(after[a] == keys[a0]);
        assert(after[b] == keys[b0]);
    }
    if after.contains(keys[i]) {
        let a = after.index_of(keys[i]);
        let a0 = if a < i { a } else { a + 1 };
        assert(after[a] == keys[a0]);
        assert(false);
    }
    assert forall|k: K| k != keys[i] implies (after.contains(k) <==> keys.contains(k)) by {
        if after.contains(k) {
            let a = after.index_of(k);
            let a0 = if a < i { a } else { a + 1 };
            assert(after[a] == keys[a0]);
            assert(keys.contains(k));
        }
        if keys.contains(k) {
            let a0 = keys.index_of(k);
            let a = if a0 < i { a0 } else { a0 - 1 };
            assert(after[a] == keys[a0]);
            assert(after.contains(k));
        }
    }
}

/// Mapping commutes with replacing one element.
pub proof fn lemma_map_update<A, B>(s: Seq<A>, f: spec_fn(A) -> B, i: int, a: A)
    requires
        0 <= i < s.len(),
    ensures
        s.update(i, a).map_values(f) == s.map_values(f).update(i, f(a)),
{
    assert(s.update(i, a).map_values(f) =~= s.map_values(f).update(i, f(a)));
}

/// Mapping commutes with taking one element out.
pub proof fn lemma_map_remove<A, B>(s: Seq<A>, f: spec_fn(A) -> B, i: int)
    requires
        0 <= i < s.len(),
    ensures
        s.remove(i).map_values(f) == s.map_values(f).remove(i),
{
    assert(s.remove(i).map_values(f) =~= s.map_values(f).remove(i));
}

/// Mapping commutes with adding an element at the end.
pub proof fn lemma_map_push<A, B>(s: Seq<A>, f: spec_fn(A) -> B, a: A)
    ensures
        s.push(a).map_values(f) == s.map_values(f).push(f(a)),
{
    assert(s.push(a).map_values(f) =~= s.map_values(f).push(f(a)));
}

} // verus!
