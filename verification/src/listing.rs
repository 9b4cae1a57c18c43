//! The entries of a table in the order of its slots, which is the order in
//! which the iterators yield them.

use vstd::prelude::*;
use vstd::std_specs::cmp::PartialEqSpec;
use std::hash::Hash;
use crate::key::{obeys_key_model, AsByte};
use crate::slots::{holds, keys_unique, lemma_view_at, occupied, slots_view, HashElem};

verus! {

/// The entries in the slots from `at` on, as pairs of key and value, in the
/// order of the slots.
pub open spec fn entries_from<K: Eq + Hash, V>(s: Seq<Option<HashElem<K, V>>>, at: int) -> Seq<(K, V)>
    decreases s.len() - at,
{
    if at < 0 || at >= s.len() {
        Seq::empty()
    } else if s[at] is Some {
        seq![(s[at]->0.key, s[at]->0.value)] + entries_from(s, at + 1)
    } else {
        entries_from(s, at + 1)
    }
}

/// The slot of the entry that `entries_from(s, at)` has at index `n`.
pub open spec fn slot_of<K: Eq + Hash, V>(s: Seq<Option<HashElem<K, V>>>, at: int, n: int) -> int
    decreases s.len() - at,
{
    if at < 0 || at >= s.len() {
        at
    } else if s[at] is Some {
        if n <= 0 {
            at
        } else {
            slot_of(s, at + 1, n - 1)
        }
    } else {
        slot_of(s, at + 1, n)
    }
}

/// The sequence `entries` lists the map `m`: each of its pairs is a pair of
/// `m`, each key of `m` is the key of one of its pairs, and no two of its
/// pairs have equal keys.
pub open spec fn lists<K: Eq, V>(entries: Seq<(K, V)>, m: Map<K, V>) -> bool {
    &&& forall|n: int|
        0 <= n < entries.len() ==> m.contains_key((#[trigger] entries[n]).0) && m[entries[n].0]
            == entries[n].1
    &&& forall|k: K| #[trigger]
        m.contains_key(k) ==> exists|n: int| 0 <= n < entries.len() && (#[trigger] entries[n]).0 == k
    &&& forall|a: int, b: int|
        0 <= a < entries.len() && 0 <= b < entries.len() && a != b ==> !(#[trigger] entries[a]).0.eq_spec(
            &(#[trigger] entries[b]).0,
        )
}

/// Each entry of `entries_from(s, at)` is the entry of a slot from `at` on,
/// and later entries come from later slots.
pub proof fn lemma_slot_of<K: Eq + Hash, V>(s: Seq<Option<HashElem<K, V>>>, at: int, n: int)
    requires
        0 <= at,
        0 <= n < entries_from(s, at).len(),
    ensures
        at <= slot_of(s, at, n) < s.len(),
        s[slot_of(s, at, n)] is Some,
        entries_from(s, at)[n] == (s[slot_of(s, at, n)]->0.key, s[slot_of(s, at, n)]->0.value),
        n > 0 ==> slot_of(s, at, n - 1) < slot_of(s, at, n),
    decreases s.len() - at,
{
    if at < s.len() {
        if s[at] is Some {
            if n > 0 {
                lemma_slot_of(s, at + 1, n - 1);
            }
        } else {
            lemma_slot_of(s, at + 1, n);
        }
    }
}

/// Entries come from slots in rising order.
pub proof fn lemma_slot_of_rises<K: Eq + Hash, V>(s: Seq<Option<HashElem<K, V>>>, at: int, a: int, b: int)
    requires
        0 <= at,
        0 <= a < b < entries_from(s, at).len(),
    ensures
        slot_of(s, at, a) < slot_of(s, at, b),
    decreases b - a,
{
    lemma_slot_of(s, at, b);
    if a < b - 1 {
        lemma_slot_of_rises(s, at, a, b - 1);
    }
}

/// The entry of each slot from `at` on is among `entries_from(s, at)`.
pub proof fn lemma_listed<K: Eq + Hash, V>(s: Seq<Option<HashElem<K, V>>>, at: int, i: int) -> (n: int)
    requires
        0 <= at <= i < s.len(),
        s[i] is Some,
    ensures
        0 <= n < entries_from(s, at).len(),
        entries_from(s, at)[n] == (s[i]->0.key, s[i]->0.value),
    decreases s.len() - at,
{
    if at == i {
        0
    } else {
        let n = lemma_listed(s, at + 1, i);
        if s[at] is Some {
            n + 1
        } else {
            n
        }
    }
}

/// There are as many entries from `at` on as the table holds in all, less
/// those of the slots before `at`.
pub proof fn lemma_entries_len<K: Eq + Hash, V>(s: Seq<Option<HashElem<K, V>>>, at: int)
    requires
        0 <= at <= s.len(),
    ensures
        entries_from(s, at).len() + occupied(s.take(at)) == occupied(s),
    decreases s.len() - at,
{
    if at == s.len() {
        assert(s.take(at) =~= s);
    } else {
        lemma_entries_len(s, at + 1);
        assert(s.take(at + 1).drop_last() =~= s.take(at));
    }
}

/// Changing a slot before `at` changes nothing in the entries from `at` on.
pub proof fn lemma_entries_after<K: Eq + Hash, V>(
    s: Seq<Option<HashElem<K, V>>>,
    i: int,
    x: Option<HashElem<K, V>>,
    at: int,
)
    requires
        0 <= i < at,
        i < s.len(),
    ensures
        entries_from(s.update(i, x), at) == entries_from(s, at),
    decreases s.len() - at,
{
    if at < s.len() {
        lemma_entries_after(s, i, x, at + 1);
    }
}

/// The entries of a table with distinct keys list its view.
pub proof fn lemma_entries_list_view<K: Eq + Hash + AsByte, V>(s: Seq<Option<HashElem<K, V>>>)
    requires
        obeys_key_model::<K>(),
        keys_unique(s),
    ensures
        lists(entries_from(s, 0), slots_view(s)),
        entries_from(s, 0).len() == occupied(s),
{
    let entries = entries_from(s, 0);
    let m = slots_view(s);
    assert forall|n: int| 0 <= n < entries.len() implies m.contains_key((#[trigger] entries[n]).0)
        && m[entries[n].0] == entries[n].1 by {
        lemma_slot_of(s, 0, n);
        lemma_view_at(s, slot_of(s, 0, n));
    }
    assert forall|k: K| #[trigger] m.contains_key(k) implies exists|n: int|
        0 <= n < entries.len() && (#[trigger] entries[n]).0 == k by {
        let i = choose|i: int| holds(s, i, k);
        let n = lemma_listed(s, 0, i);
        assert(entries[n].0 == k);
    }
    assert forall|a: int, b: int|
        0 <= a < entries.len() && 0 <= b < entries.len() && a != b implies !(#[trigger] entries[a]).0.eq_spec(
        &(#[trigger] entries[b]).0,
    ) by {
        lemma_slot_of(s, 0, a);
        lemma_slot_of(s, 0, b);
        if a < b {
            lemma_slot_of_rises(s, 0, a, b);
        } else {
            lemma_slot_of_rises(s, 0, b, a);
        }
        assert(s[slot_of(s, 0, a)] is Some && s[slot_of(s, 0, b)] is Some);
    }
    lemma_entries_len(s, 0);
    assert(s.take(0) =~= Seq::<Option<HashElem<K, V>>>::empty());
}

} // verus!
