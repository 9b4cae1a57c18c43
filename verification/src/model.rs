//! The map as a mathematical object: a `Map` from the stored keys to their
//! values, read and written through the key type's own equality.

use vstd::prelude::*;
use vstd::std_specs::cmp::PartialEqSpec;
use crate::key::eq_is_equivalence;

verus! {

/// No two keys of `m` are equal to one another.
pub open spec fn distinct_keys<K: Eq, V>(m: Map<K, V>) -> bool {
    forall|a: K, b: K| m.contains_key(a) && m.contains_key(b) && #[trigger] a.eq_spec(&b) ==> a == b
}

/// The keys that are equal to `key`.
pub open spec fn equal_to<K: Eq>(key: K) -> Set<K> {
    Set::new(|k: K| k.eq_spec(&key))
}

/// The key of `m` that is equal to `key`, if there is one.
pub open spec fn stored_key<K: Eq, V>(m: Map<K, V>, key: K) -> Option<K> {
    if exists|k: K| m.contains_key(k) && #[trigger] k.eq_spec(&key) {
        Some(choose|k: K| m.contains_key(k) && #[trigger] k.eq_spec(&key))
    } else {
        None
    }
}

/// The value that `m` holds for `key`, if it holds one.
pub open spec fn lookup<K: Eq, V>(m: Map<K, V>, key: K) -> Option<V> {
    match stored_key(m, key) {
        Some(k) => Some(m[k]),
        None => None,
    }
}

/// The map `m` after `key` has been given `value`: whatever stood under a
/// key equal to `key` is gone, and `key` itself stands for `value`.
pub open spec fn store<K: Eq, V>(m: Map<K, V>, key: K, value: V) -> Map<K, V> {
    m.remove_keys(equal_to(key)).insert(key, value)
}

/// Where the key `k` of `m` is equal to `key`, looking `key` up gives the
/// value under `k`.
pub proof fn lemma_lookup_present<K: Eq, V>(m: Map<K, V>, k: K, key: K)
    requires
        eq_is_equivalence::<K>(),
        distinct_keys(m),
        m.contains_key(k),
        k.eq_spec(&key),
    ensures
        stored_key(m, key) == Some(k),
        lookup(m, key) == Some(m[k]),
{
    let c = choose|c: K| m.contains_key(c) && #[trigger] c.eq_spec(&key);
    assert(key.eq_spec(&k));
    assert(c.eq_spec(&k));
}

/// Where no key of `m` is equal to `key`, storing under `key` adds it.
pub proof fn lemma_store_absent<K: Eq, V>(m: Map<K, V>, key: K, value: V)
    requires
        forall|k: K| m.contains_key(k) ==> !#[trigger] k.eq_spec(&key),
    ensures
        lookup(m, key) is None,
        store(m, key, value) == m.insert(key, value),
{
    assert(m.remove_keys(equal_to(key)) =~= m);
}

/// Where the key `k` of `m` is equal to `key`, storing under `key` puts
/// `key` in the place of `k`.
pub proof fn lemma_store_present<K: Eq, V>(m: Map<K, V>, k: K, key: K, value: V)
    requires
        eq_is_equivalence::<K>(),
        distinct_keys(m),
        m.contains_key(k),
        k.eq_spec(&key),
    ensures
        lookup(m, key) == Some(m[k]),
        store(m, key, value) == m.remove(k).insert(key, value),
{
    let c = choose|c: K| m.contains_key(c) && #[trigger] c.eq_spec(&key);
    assert(key.eq_spec(&k));
    assert(c.eq_spec(&k));
    assert forall|x: K| #[trigger] m.contains_key(x) && x != k implies !x.eq_spec(&key) by {
        if x.eq_spec(&key) {
            assert(x.eq_spec(&k));
        }
    }
    assert(m.remove_keys(equal_to(key)) =~= m.remove(k));
}

} // verus!
