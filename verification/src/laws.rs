//! What holds of the map across several operations, stated over the views
//! and the spec functions of the contracts.

use vstd::prelude::*;
use vstd::arithmetic::power2::is_pow2;
use vstd::std_specs::cmp::PartialEqSpec;
use std::hash::Hash;
use crate::geometry::{ahead, behind, ceil_pow2, home};
use crate::key::{eq_is_equivalence, AsByte};
use crate::listing::{lemma_entries_list_view, lists};
use crate::map::HashMap;
use crate::model::{distinct_keys, equal_to, lemma_lookup_present, lemma_store_absent, lemma_store_present, lookup, store};
use crate::slots::{farthest, lemma_chain, lemma_farthest, lemma_farthest_bound, lemma_occupied_bound, lemma_probe_range, lemma_view_keys, lemma_view_len, slot_dist};

verus! {

/// The map after the pairs of `entries` have been stored one after the
/// other, the first pair first.
pub open spec fn store_all<K: Eq, V>(m: Map<K, V>, entries: Seq<(K, V)>) -> Map<K, V>
    decreases entries.len(),
{
    if entries.len() == 0 {
        m
    } else {
        store(store_all(m, entries.drop_last()), entries.last().0, entries.last().1)
    }
}

/// The capacity that a request is rounded to is a power of two, at least
/// two and at least the request, and the least such: its half is below the
/// request unless it is two.
pub proof fn law_rounded_capacity(v: nat)
    ensures
        is_pow2(ceil_pow2(v) as int),
        ceil_pow2(v) >= 2,
        ceil_pow2(v) >= v,
        ceil_pow2(v) == 2 || ceil_pow2(v) / 2 < v,
    decreases v,
{
    reveal_with_fuel(is_pow2, 3);
    if v > 2 {
        law_rounded_capacity((v + 1) / 2);
    }
}

/// A map that is in order has distinct keys and as many of them as it
/// counts entries; its capacity is a power of two that its entries do not
/// exceed; and its entries list its view: every pair once, none missing.
pub proof fn law_view<K: Eq + Hash + AsByte, V>(m: HashMap<K, V>)
    requires
        m.wf(),
    ensures
        distinct_keys(m@),
        m@.dom().finite(),
        m.spec_len() == m@.len(),
        m.spec_len() <= m.spec_capacity(),
        is_pow2(m.spec_capacity() as int),
        lists(m.entries(), m@),
        m.entries().len() == m.spec_len(),
{
    lemma_view_keys(m.slots());
    lemma_view_len(m.slots());
    lemma_occupied_bound(m.slots());
    lemma_entries_list_view(m.slots());
}

/// The Robin Hood order as a whole: the `t`th slot before an entry, for
/// every `t` up to the probe distance of the entry, holds an entry, whose
/// probe distance falls short of that of the first by `t` at most. So an
/// entry is reached from its home slot without a gap, and over entries that
/// are each as far from home as a probe from there is long.
pub proof fn law_robin_hood<K: Eq + Hash + AsByte, V>(m: HashMap<K, V>, i: int, t: int)
    requires
        m.wf(),
        0 <= i < m.slots().len(),
        m.slots()[i] is Some,
        0 <= t <= slot_dist(m.slots(), i),
    ensures
        m.slots()[behind(i, t, m.slots().len() as int)] is Some,
        slot_dist(m.slots(), behind(i, t, m.slots().len() as int)) >= slot_dist(m.slots(), i) - t,
{
    lemma_probe_range(m.slots()[i]->0.hash, i, m.slots().len() as int);
    lemma_chain(m.slots(), i, t);
}

/// Early termination: whatever the hash of the key, a lookup may stop at
/// the latest after as many steps as the greatest probe distance in the
/// table and one. The slot that it stands before then is empty or holds an
/// entry that is closer to its home than the lookup is long.
pub proof fn law_lookup_stops<K: Eq + Hash + AsByte, V>(m: HashMap<K, V>, hash: u64)
    requires
        m.wf(),
    ensures
        ({
            let s = m.slots();
            let cap = s.len() as int;
            let j = farthest(s, cap) + 1;
            0 <= j <= cap && slot_dist(s, ahead(home(hash, cap), j, cap)) < j
        }),
{
    let s = m.slots();
    let cap = s.len() as int;
    lemma_farthest_bound(s, cap);
    lemma_probe_range(hash, 0, cap);
    lemma_farthest(s, cap, ahead(home(hash, cap), farthest(s, cap) + 1, cap));
}

/// Storing keeps the keys distinct.
pub proof fn law_store_distinct<K: Eq, V>(m: Map<K, V>, key: K, value: V)
    requires
        eq_is_equivalence::<K>(),
        distinct_keys(m),
    ensures
        distinct_keys(store(m, key, value)),
{
    let m2 = store(m, key, value);
    assert forall|a: K, b: K| m2.contains_key(a) && m2.contains_key(b) && #[trigger] a.eq_spec(
        &b,
    ) implies a == b by {
        if a == key && b != key {
            assert(b.eq_spec(&a));
            assert(equal_to(key).contains(b));
        } else if b == key && a != key {
            assert(equal_to(key).contains(a));
        }
    }
}

/// After `key` has been given `value`, a lookup under a key equal to `key`
/// finds `value`, and a lookup under any other key finds what it found
/// before.
pub proof fn law_lookup_after_store<K: Eq, V>(m: Map<K, V>, key: K, value: V, query: K)
    requires
        eq_is_equivalence::<K>(),
        distinct_keys(m),
    ensures
        lookup(store(m, key, value), query) == if query.eq_spec(&key) {
            Some(value)
        } else {
            lookup(m, query)
        },
{
    let m2 = store(m, key, value);
    law_store_distinct(m, key, value);
    if query.eq_spec(&key) {
        assert(key.eq_spec(&query));
        lemma_lookup_present(m2, key, query);
    } else {
        if exists|k: K| m.contains_key(k) && #[trigger] k.eq_spec(&query) {
            let k = choose|k: K| m.contains_key(k) && #[trigger] k.eq_spec(&query);
            if k.eq_spec(&key) {
                assert(query.eq_spec(&k));
                assert(query.eq_spec(&key));
            }
            assert(!equal_to(key).contains(k));
            assert(m2.contains_key(k));
            lemma_lookup_present(m, k, query);
            lemma_lookup_present(m2, k, query);
        } else {
            assert forall|k: K| m2.contains_key(k) implies !#[trigger] k.eq_spec(&query) by {
                if k == key {
                    if k.eq_spec(&query) {
                        assert(query.eq_spec(&key));
                    }
                }
            }
        }
    }
}

/// Giving a value to a key that the map holds is storing under that key:
/// changing a value in place is read back like an insertion.
pub proof fn law_revalue_is_store<K: Eq, V>(m: Map<K, V>, k: K, value: V)
    requires
        eq_is_equivalence::<K>(),
        distinct_keys(m),
        m.contains_key(k),
    ensures
        m.insert(k, value) == store(m, k, value),
{
    assert(k.eq_spec(&k));
    lemma_store_present(m, k, k, value);
    assert(m.remove(k).insert(k, value) =~= m.insert(k, value));
}

/// Storing under a key that is already there leaves the number of keys as
/// it is; storing under a new key adds one.
pub proof fn law_store_len<K: Eq, V>(m: Map<K, V>, key: K, value: V)
    requires
        eq_is_equivalence::<K>(),
        distinct_keys(m),
        m.dom().finite(),
    ensures
        store(m, key, value).dom().finite(),
        store(m, key, value).len() == m.len() + if lookup(m, key) is Some {
            0nat
        } else {
            1nat
        },
{
    if exists|k: K| m.contains_key(k) && #[trigger] k.eq_spec(&key) {
        let k = choose|k: K| m.contains_key(k) && #[trigger] k.eq_spec(&key);
        lemma_store_present(m, k, key, value);
        assert(m.remove(k).dom() =~= m.dom().remove(k));
        assert(m.remove(k).insert(key, value).dom() =~= m.dom().remove(k).insert(key));
    } else {
        lemma_store_absent(m, key, value);
        assert(m.insert(key, value).dom() =~= m.dom().insert(key));
        if m.contains_key(key) {
            assert(key.eq_spec(&key));
        }
    }
}

/// What a run of insertions leaves: the keys are distinct and finitely
/// many.
pub proof fn law_store_all_distinct<K: Eq, V>(m: Map<K, V>, entries: Seq<(K, V)>)
    requires
        eq_is_equivalence::<K>(),
        distinct_keys(m),
        m.dom().finite(),
    ensures
        distinct_keys(store_all(m, entries)),
        store_all(m, entries).dom().finite(),
    decreases entries.len(),
{
    if entries.len() > 0 {
        law_store_all_distinct(m, entries.drop_last());
        law_store_distinct(store_all(m, entries.drop_last()), entries.last().0, entries.last().1);
        law_store_len(store_all(m, entries.drop_last()), entries.last().0, entries.last().1);
    }
}

/// Round trip: after a run of insertions, a lookup under the key of the
/// `i`th insertion finds the value of that insertion, unless a later
/// insertion was made under an equal key.
pub proof fn law_round_trip<K: Eq, V>(m: Map<K, V>, entries: Seq<(K, V)>, i: int)
    requires
        eq_is_equivalence::<K>(),
        distinct_keys(m),
        m.dom().finite(),
        0 <= i < entries.len(),
        forall|j: int| i < j < entries.len() ==> !(#[trigger] entries[j]).0.eq_spec(&entries[i].0),
    ensures
        lookup(store_all(m, entries), entries[i].0) == Some(entries[i].1),
    decreases entries.len(),
{
    let before = entries.drop_last();
    let last = entries.last();
    law_store_all_distinct(m, before);
    law_lookup_after_store(store_all(m, before), last.0, last.1, entries[i].0);
    if i == entries.len() - 1 {
        assert(last.0.eq_spec(&last.0));
    } else {
        assert(!entries[entries.len() - 1].0.eq_spec(&entries[i].0));
        assert(before[i] == entries[i]);
        assert forall|j: int| i < j < before.len() implies !(#[trigger] before[j]).0.eq_spec(
            &before[i].0,
        ) by {
            assert(before[j] == entries[j]);
        }
        if entries[i].0.eq_spec(&last.0) {
            assert(last.0.eq_spec(&entries[i].0));
        }
        law_round_trip(m, before, i);
    }
}

/// After insertions under keys of which no two are equal, into an empty
/// map, there are as many keys as there were insertions.
pub proof fn law_len_counts_keys<K: Eq, V>(entries: Seq<(K, V)>)
    requires
        eq_is_equivalence::<K>(),
        forall|a: int, b: int|
            0 <= a < b < entries.len() ==> !(#[trigger] entries[a]).0.eq_spec(&(#[trigger] entries[b]).0),
    ensures
        store_all(Map::<K, V>::empty(), entries).len() == entries.len(),
        forall|k: K| #[trigger]
            store_all(Map::<K, V>::empty(), entries).contains_key(k) ==> exists|n: int|
                0 <= n < entries.len() && (#[trigger] entries[n]).0 == k,
    decreases entries.len(),
{
    let empty = Map::<K, V>::empty();
    if entries.len() > 0 {
        let before = entries.drop_last();
        let last = entries.last();
        assert forall|a: int, b: int| 0 <= a < b < before.len() implies !(#[trigger] before[a]).0.eq_spec(
            &(#[trigger] before[b]).0,
        ) by {
            assert(before[a] == entries[a] && before[b] == entries[b]);
        }
        law_len_counts_keys(before);
        law_store_all_distinct(empty, before);
        let mb = store_all(empty, before);
        assert forall|k: K| mb.contains_key(k) implies !#[trigger] k.eq_spec(&last.0) by {
            let n = choose|n: int| 0 <= n < before.len() && (#[trigger] before[n]).0 == k;
            assert(before[n] == entries[n]);
            assert(!entries[n].0.eq_spec(&entries[entries.len() - 1].0));
        }
        lemma_store_absent(mb, last.0, last.1);
        law_store_len(mb, last.0, last.1);
        assert forall|k: K| #[trigger] store_all(empty, entries).contains_key(k) implies exists|n: int|
            0 <= n < entries.len() && (#[trigger] entries[n]).0 == k by {
            if k == last.0 {
                assert(entries[entries.len() - 1].0 == k);
            } else {
                let n = choose|n: int| 0 <= n < before.len() && (#[trigger] before[n]).0 == k;
                assert(entries[n].0 == k);
            }
        }
    }
}

} // verus!
