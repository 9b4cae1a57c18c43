//! The slot array as a sequence, the invariants that the table keeps on it,
//! and what each change of a slot does to them.

use vstd::prelude::*;
use vstd::std_specs::cmp::PartialEqSpec;
use std::hash::Hash;
use crate::geometry::{ahead, behind, home, probe_distance};
use crate::hashing::hashes_to;
use crate::key::{obeys_key_model, AsByte};
use crate::model::{lemma_store_absent, lookup, store};

verus! {

/// An entry of the table: a key with its value, the hash of the key, and the
/// probe distance of the entry in the slot where it sits.
pub struct HashElem<K, V> where K: Eq + Hash {
    pub dist: u64,
    pub key: K,
    pub value: V,
    pub hash: u64,
}

impl<K, V> HashElem<K, V> where K: Eq + Hash {
    pub fn new(dist: u64, key: K, value: V, hash: u64) -> (e: Self)
        ensures
            e.dist == dist,
            e.key == key,
            e.value == value,
            e.hash == hash,
    {
        Self { dist, key, value, hash }
    }
}

/// A table of `n` empty slots.
pub open spec fn empty_slots<K: Eq + Hash, V>(n: nat) -> Seq<Option<HashElem<K, V>>> {
    Seq::new(n, |i: int| None)
}

/// The probe distance of the entry in slot `i`; -1 for an empty slot.
pub open spec fn slot_dist<K: Eq + Hash, V>(s: Seq<Option<HashElem<K, V>>>, i: int) -> int {
    match s[i] {
        Some(e) => probe_distance(e.hash, i, s.len() as int),
        None => -1,
    }
}

/// Every entry records the probe distance that it has in its slot.
pub open spec fn dists_recorded<K: Eq + Hash, V>(s: Seq<Option<HashElem<K, V>>>) -> bool {
    forall|i: int|
        0 <= i < s.len() && (#[trigger] s[i]) is Some ==> s[i]->0.dist == probe_distance(
            s[i]->0.hash,
            i,
            s.len() as int,
        )
}

/// Every entry records the hash of its key.
pub open spec fn hashes_recorded<K: Eq + Hash + AsByte, V>(s: Seq<Option<HashElem<K, V>>>) -> bool {
    forall|i: int| 0 <= i < s.len() && (#[trigger] s[i]) is Some ==> hashes_to(&s[i]->0.key, s[i]->0.hash)
}

/// No two slots hold equal keys.
pub open spec fn keys_unique<K: Eq + Hash, V>(s: Seq<Option<HashElem<K, V>>>) -> bool {
    forall|i: int, j: int|
        0 <= i < s.len() && 0 <= j < s.len() && i != j && (#[trigger] s[i]) is Some && (
        #[trigger] s[j]) is Some ==> !s[i]->0.key.eq_spec(&s[j]->0.key)
}

/// The probe distance in the slot after `i` is at most one more than in
/// slot `i`.
pub open spec fn in_order<K: Eq + Hash, V>(s: Seq<Option<HashElem<K, V>>>, i: int) -> bool {
    slot_dist(s, ahead(i, 1, s.len() as int)) <= slot_dist(s, i) + 1
}

/// The Robin Hood order: going one slot forward, the probe distance grows by
/// at most one. So an entry that is `d` steps from home is preceded, all the
/// way back to its home slot, by entries that are at least as far from
/// theirs as it was when it passed them.
pub open spec fn robin_hood<K: Eq + Hash, V>(s: Seq<Option<HashElem<K, V>>>) -> bool {
    forall|i: int| 0 <= i < s.len() ==> #[trigger] in_order(s, i)
}

/// What the table keeps true of its slots.
pub open spec fn table_inv<K: Eq + Hash + AsByte, V>(s: Seq<Option<HashElem<K, V>>>) -> bool {
    &&& s.len() >= 2
    &&& dists_recorded(s)
    &&& hashes_recorded(s)
    &&& keys_unique(s)
    &&& robin_hood(s)
}

/// Slot `i` holds exactly the key `k`.
pub open spec fn holds<K: Eq + Hash, V>(s: Seq<Option<HashElem<K, V>>>, i: int, k: K) -> bool {
    0 <= i < s.len() && s[i] is Some && s[i]->0.key == k
}

/// The map that the slots stand for.
pub open spec fn slots_view<K: Eq + Hash, V>(s: Seq<Option<HashElem<K, V>>>) -> Map<K, V> {
    Map::new(
        |k: K| exists|i: int| holds(s, i, k),
        |k: K| s[choose|i: int| holds(s, i, k)]->0.value,
    )
}

/// The number of slots that hold an entry.
pub open spec fn occupied<K: Eq + Hash, V>(s: Seq<Option<HashElem<K, V>>>) -> nat
    decreases s.len(),
{
    if s.len() == 0 {
        0
    } else {
        occupied(s.drop_last()) + if s.last() is Some {
            1nat
        } else {
            0nat
        }
    }
}

/// Where a slot is, seen from the home slot of its hash.
pub proof fn lemma_probe_range(hash: u64, i: int, cap: int)
    requires
        0 <= i < cap,
    ensures
        0 <= home(hash, cap) < cap,
        0 <= probe_distance(hash, i, cap) < cap,
        ahead(home(hash, cap), probe_distance(hash, i, cap), cap) == i,
{
    vstd::arithmetic::div_mod::lemma_mod_bound(hash as int, cap);
}

/// Walking back from an entry, each of the first `t` slots before it holds
/// an entry, and one whose probe distance falls short of the entry's own by
/// no more than the steps walked.
pub proof fn lemma_chain<K: Eq + Hash, V>(s: Seq<Option<HashElem<K, V>>>, q: int, t: int)
    requires
        robin_hood(s),
        0 <= q < s.len(),
        0 <= t <= slot_dist(s, q),
        slot_dist(s, q) < s.len(),
    ensures
        slot_dist(s, behind(q, t, s.len() as int)) >= slot_dist(s, q) - t,
    decreases t,
{
    if t > 0 {
        let cap = s.len() as int;
        lemma_chain(s, q, t - 1);
        let p = behind(q, t, cap);
        assert(ahead(p, 1, cap) == behind(q, t - 1, cap));
        assert(in_order(s, p));
    }
}

/// Where a probe for `key`, whose hash is `hash`, stops early, no slot holds
/// a key equal to `key`. The probe has walked `j` slots from the home slot
/// of `key` without a match, and the next slot is empty or holds an entry
/// that is closer to its home than `j`.
pub proof fn lemma_absent<K: Eq + Hash + AsByte, V>(
    s: Seq<Option<HashElem<K, V>>>,
    key: K,
    hash: u64,
    j: int,
)
    requires
        obeys_key_model::<K>(),
        table_inv(s),
        hashes_to(&key, hash),
        0 <= j <= s.len(),
        forall|t: int|
            0 <= t < j ==> {
                let p = #[trigger] ahead(home(hash, s.len() as int), t, s.len() as int);
                !(s[p] is Some && s[p]->0.key.eq_spec(&key))
            },
        slot_dist(s, ahead(home(hash, s.len() as int), j, s.len() as int)) < j,
    ensures
        forall|i: int| 0 <= i < s.len() && (#[trigger] s[i]) is Some ==> !s[i]->0.key.eq_spec(&key),
{
    let cap = s.len() as int;
    let h0 = home(hash, cap);
    assert forall|i: int| 0 <= i < s.len() && (#[trigger] s[i]) is Some implies !s[i]->0.key.eq_spec(
        &key,
    ) by {
        if s[i]->0.key.eq_spec(&key) {
            assert(hashes_to(&s[i]->0.key, s[i]->0.hash));
            assert(s[i]->0.hash == hash);
            lemma_probe_range(hash, i, cap);
            let d = probe_distance(hash, i, cap);
            if d < j {
                assert(ahead(h0, d, cap) == i);
            } else {
                lemma_chain(s, i, d - j);
                assert(behind(i, d - j, cap) == ahead(h0, j, cap));
            }
        }
    }
}

/// The view holds, for the key of each entry, the value of that entry.
pub proof fn lemma_view_at<K: Eq + Hash + AsByte, V>(s: Seq<Option<HashElem<K, V>>>, i: int)
    requires
        obeys_key_model::<K>(),
        keys_unique(s),
        0 <= i < s.len(),
        s[i] is Some,
    ensures
        slots_view(s).contains_key(s[i]->0.key),
        slots_view(s)[s[i]->0.key] == s[i]->0.value,
{
    let k = s[i]->0.key;
    assert(holds(s, i, k));
    let c = choose|c: int| holds(s, c, k);
    assert(s[c]->0.key.eq_spec(&s[i]->0.key));
}

/// The keys of the view are distinct, and each of them sits in a slot.
pub proof fn lemma_view_keys<K: Eq + Hash + AsByte, V>(s: Seq<Option<HashElem<K, V>>>)
    requires
        obeys_key_model::<K>(),
        keys_unique(s),
    ensures
        crate::model::distinct_keys(slots_view(s)),
        forall|k: K| #[trigger]
            slots_view(s).contains_key(k) ==> exists|i: int| holds(s, i, k),
{
    assert forall|a: K, b: K|
        slots_view(s).contains_key(a) && slots_view(s).contains_key(b) && #[trigger] a.eq_spec(
            &b,
        ) implies a == b by {
        let i = choose|i: int| holds(s, i, a);
        let j = choose|j: int| holds(s, j, b);
        assert(s[i]->0.key.eq_spec(&s[j]->0.key));
    }
}

/// What putting an entry into a slot does: where the entry records its place
/// and its hash, equals no key in another slot, is at least as far from home
/// as what the slot held, and no more than one step farther than the entry
/// before it, the table stays in order, and its view is the old one without
/// the key that the slot held and with the new entry.
pub proof fn lemma_put<K: Eq + Hash + AsByte, V>(
    s: Seq<Option<HashElem<K, V>>>,
    pos: int,
    e: HashElem<K, V>,
)
    requires
        obeys_key_model::<K>(),
        table_inv(s),
        0 <= pos < s.len(),
        e.dist == probe_distance(e.hash, pos, s.len() as int),
        hashes_to(&e.key, e.hash),
        forall|i: int|
            0 <= i < s.len() && i != pos && (#[trigger] s[i]) is Some ==> !s[i]->0.key.eq_spec(
                &e.key,
            ),
        slot_dist(s, pos) <= e.dist,
        slot_dist(s, behind(pos, 1, s.len() as int)) >= e.dist - 1,
    ensures
        table_inv(s.update(pos, Some(e))),
        slots_view(s.update(pos, Some(e))) == (match s[pos] {
            Some(o) => slots_view(s).remove(o.key),
            None => slots_view(s),
        }).insert(e.key, e.value),
        occupied(s.update(pos, Some(e))) == occupied(s) + if s[pos] is None {
            1nat
        } else {
            0nat
        },
{
    let cap = s.len() as int;
    let s2 = s.update(pos, Some(e));
    assert(keys_unique(s2)) by {
        assert forall|i: int, j: int|
            0 <= i < s2.len() && 0 <= j < s2.len() && i != j && (#[trigger] s2[i]) is Some && (
            #[trigger] s2[j]) is Some implies !s2[i]->0.key.eq_spec(&s2[j]->0.key) by {
            if i == pos {
                assert(s[j] is Some);
                if e.key.eq_spec(&s[j]->0.key) {
                    assert(s[j]->0.key.eq_spec(&e.key));
                }
            } else if j == pos {
                assert(s[i] is Some);
            } else {
                assert(s[i] is Some && s[j] is Some);
            }
        }
    }
    assert(dists_recorded(s2)) by {
        assert forall|i: int| 0 <= i < s2.len() && (#[trigger] s2[i]) is Some implies s2[i]->0.dist
            == probe_distance(s2[i]->0.hash, i, s2.len() as int) by {
            if i != pos {
                assert(s[i] is Some);
            }
        }
    }
    assert(hashes_recorded(s2)) by {
        assert forall|i: int| 0 <= i < s2.len() && (#[trigger] s2[i]) is Some implies hashes_to(
            &s2[i]->0.key,
            s2[i]->0.hash,
        ) by {
            if i != pos {
                assert(s[i] is Some);
            }
        }
    }
    assert(robin_hood(s2)) by {
        assert forall|i: int| 0 <= i < s2.len() implies #[trigger] in_order(s2, i) by {
            let n = ahead(i, 1, cap);
            assert(in_order(s, i));
            if n == pos {
                assert(i == behind(pos, 1, cap));
            }
        }
    }
    lemma_view_put(s, pos, e);
    lemma_occupied_update(s, pos, Some(e));
}

/// The view after an entry has been put into a slot, where no other slot
/// holds a key equal to the entry's.
pub proof fn lemma_view_put<K: Eq + Hash + AsByte, V>(
    s: Seq<Option<HashElem<K, V>>>,
    pos: int,
    e: HashElem<K, V>,
)
    requires
        obeys_key_model::<K>(),
        0 <= pos < s.len(),
        keys_unique(s),
        keys_unique(s.update(pos, Some(e))),
    ensures
        slots_view(s.update(pos, Some(e))) == (match s[pos] {
            Some(o) => slots_view(s).remove(o.key),
            None => slots_view(s),
        }).insert(e.key, e.value),
{
    let s2 = s.update(pos, Some(e));
    let base = match s[pos] {
        Some(o) => slots_view(s).remove(o.key),
        None => slots_view(s),
    };
    let m = base.insert(e.key, e.value);
    let m2 = slots_view(s2);
    lemma_view_at(s2, pos);
    assert forall|k: K| #[trigger] m2.contains_key(k) implies m.contains_key(k) && m[k] == m2[k] by {
        let i = choose|i: int| holds(s2, i, k);
        lemma_view_at(s2, i);
        if i != pos {
            assert(holds(s, i, k));
            lemma_view_at(s, i);
            if s[pos] is Some && s[pos]->0.key == k {
                assert(s[i]->0.key.eq_spec(&s[pos]->0.key));
            }
            if e.key == k {
                assert(s2[i]->0.key.eq_spec(&s2[pos]->0.key));
            }
        }
    }
    assert forall|k: K| #[trigger] m.contains_key(k) implies m2.contains_key(k) by {
        if k != e.key {
            let i = choose|i: int| holds(s, i, k);
            assert(holds(s, i, k));
            assert(i != pos);
            assert(holds(s2, i, k));
        }
    }
    assert(m2.dom() =~= m.dom());
    assert(m2 =~= m);
}

/// Changing one slot changes the number of entries by what the slot gains
/// or loses.
pub proof fn lemma_occupied_update<K: Eq + Hash, V>(
    s: Seq<Option<HashElem<K, V>>>,
    pos: int,
    x: Option<HashElem<K, V>>,
)
    requires
        0 <= pos < s.len(),
    ensures
        occupied(s.update(pos, x)) + (if s[pos] is Some {
            1nat
        } else {
            0nat
        }) == occupied(s) + (if x is Some {
            1nat
        } else {
            0nat
        }),
    decreases s.len(),
{
    let s2 = s.update(pos, x);
    if pos == s.len() - 1 {
        assert(s2.drop_last() =~= s.drop_last());
    } else {
        assert(s2.drop_last() =~= s.drop_last().update(pos, x));
        lemma_occupied_update(s.drop_last(), pos, x);
    }
}

/// There are no more entries than slots, and where there are fewer, some
/// slot is empty.
pub proof fn lemma_occupied_bound<K: Eq + Hash, V>(s: Seq<Option<HashElem<K, V>>>)
    ensures
        occupied(s) <= s.len(),
        occupied(s) < s.len() ==> exists|i: int| 0 <= i < s.len() && (#[trigger] s[i]) is None,
    decreases s.len(),
{
    if s.len() > 0 {
        let p = s.drop_last();
        lemma_occupied_bound(p);
        if occupied(s) < s.len() {
            if s.last() is None {
                assert(s[s.len() - 1] is None);
            } else {
                let i = choose|i: int| 0 <= i < p.len() && (#[trigger] p[i]) is None;
                assert(s[i] is None);
            }
        }
    }
}

/// The view after one more slot has been added at the end.
pub proof fn lemma_view_push<K: Eq + Hash + AsByte, V>(
    s: Seq<Option<HashElem<K, V>>>,
    x: Option<HashElem<K, V>>,
)
    requires
        obeys_key_model::<K>(),
        keys_unique(s.push(x)),
    ensures
        keys_unique(s),
        match x {
            Some(e) => {
                &&& slots_view(s.push(x)) == slots_view(s).insert(e.key, e.value)
                &&& forall|k: K| slots_view(s).contains_key(k) ==> !#[trigger] k.eq_spec(&e.key)
            },
            None => slots_view(s.push(x)) == slots_view(s),
        },
{
    let s2 = s.push(x);
    let n = s.len() as int;
    assert(keys_unique(s)) by {
        assert forall|i: int, j: int|
            0 <= i < s.len() && 0 <= j < s.len() && i != j && (#[trigger] s[i]) is Some && (
            #[trigger] s[j]) is Some implies !s[i]->0.key.eq_spec(&s[j]->0.key) by {
            assert(s2[i] is Some && s2[j] is Some);
        }
    }
    let m = match x {
        Some(e) => slots_view(s).insert(e.key, e.value),
        None => slots_view(s),
    };
    let m2 = slots_view(s2);
    if x is Some {
        assert forall|k: K| slots_view(s).contains_key(k) implies !#[trigger] k.eq_spec(
            &x->0.key,
        ) by {
            let i = choose|i: int| holds(s, i, k);
            assert(s2[i] is Some && s2[n] is Some);
        }
    }
    assert forall|k: K| #[trigger] m2.contains_key(k) implies m.contains_key(k) && m[k] == m2[k] by {
        let i = choose|i: int| holds(s2, i, k);
        lemma_view_at(s2, i);
        if i != n {
            assert(holds(s, i, k));
            lemma_view_at(s, i);
            if x is Some && x->0.key == k {
                assert(s2[i]->0.key.eq_spec(&s2[n]->0.key));
            }
        }
    }
    assert forall|k: K| #[trigger] m.contains_key(k) implies m2.contains_key(k) by {
        if x is Some && k == x->0.key {
            assert(holds(s2, n, k));
        } else {
            let i = choose|i: int| holds(s, i, k);
            assert(holds(s2, i, k));
        }
    }
    assert(m2 =~= m);
}

/// The view has as many keys as there are entries.
pub proof fn lemma_view_len<K: Eq + Hash + AsByte, V>(s: Seq<Option<HashElem<K, V>>>)
    requires
        obeys_key_model::<K>(),
        keys_unique(s),
    ensures
        slots_view(s).dom().finite(),
        slots_view(s).len() == occupied(s),
    decreases s.len(),
{
    if s.len() == 0 {
        assert(slots_view(s).dom() =~= Set::<K>::empty());
    } else {
        let p = s.drop_last();
        assert(s =~= p.push(s.last()));
        lemma_view_push(p, s.last());
        lemma_view_len(p);
        if s.last() is Some {
            let e = s.last()->0;
            if slots_view(p).contains_key(e.key) {
                assert(e.key.eq_spec(&e.key));
            }
        }
    }
}

/// A table of empty slots is in order and stands for the empty map.
pub proof fn lemma_all_empty<K: Eq + Hash + AsByte, V>(s: Seq<Option<HashElem<K, V>>>)
    requires
        forall|i: int| 0 <= i < s.len() ==> (#[trigger] s[i]) is None,
    ensures
        s.len() >= 2 ==> table_inv(s),
        slots_view(s) == Map::<K, V>::empty(),
        occupied(s) == 0,
    decreases s.len(),
{
    assert(slots_view(s) =~= Map::<K, V>::empty());
    if s.len() > 0 {
        lemma_all_empty(s.drop_last());
    }
    if s.len() >= 2 {
        assert forall|i: int| 0 <= i < s.len() implies #[trigger] in_order(s, i) by {
            assert(s[ahead(i, 1, s.len() as int)] is None);
        }
    }
}

/// The greatest probe distance among the first `n` slots; -1 where they are
/// all empty.
pub open spec fn farthest<K: Eq + Hash, V>(s: Seq<Option<HashElem<K, V>>>, n: int) -> int
    decreases n,
{
    if n <= 0 {
        -1
    } else if slot_dist(s, n - 1) > farthest(s, n - 1) {
        slot_dist(s, n - 1)
    } else {
        farthest(s, n - 1)
    }
}

/// The greatest probe distance is below the number of slots.
pub proof fn lemma_farthest_bound<K: Eq + Hash, V>(s: Seq<Option<HashElem<K, V>>>, n: int)
    requires
        0 <= n <= s.len(),
    ensures
        -1 <= farthest(s, n) < s.len(),
    decreases n,
{
    if n > 0 {
        lemma_farthest_bound(s, n - 1);
        if s[n - 1] is Some {
            lemma_probe_range(s[n - 1]->0.hash, n - 1, s.len() as int);
        }
    }
}

/// No slot among the first `n` is farther from its home than `farthest`.
pub proof fn lemma_farthest<K: Eq + Hash, V>(s: Seq<Option<HashElem<K, V>>>, n: int, i: int)
    requires
        0 <= i < n,
    ensures
        slot_dist(s, i) <= farthest(s, n),
    decreases n,
{
    if i < n - 1 {
        lemma_farthest(s, n - 1, i);
    }
}

/// What the slot `i` adds to the first `i` slots: one entry more if it holds
/// one, under a key that none of them holds.
pub proof fn lemma_take_step<K: Eq + Hash + AsByte, V>(s: Seq<Option<HashElem<K, V>>>, i: int)
    requires
        obeys_key_model::<K>(),
        keys_unique(s),
        0 <= i < s.len(),
    ensures
        occupied(s.take(i)) <= i,
        occupied(s.take(i + 1)) == occupied(s.take(i)) + if s[i] is Some {
            1nat
        } else {
            0nat
        },
        match s[i] {
            Some(e) => {
                &&& lookup(slots_view(s.take(i)), e.key) is None
                &&& slots_view(s.take(i + 1)) == store(slots_view(s.take(i)), e.key, e.value)
            },
            None => slots_view(s.take(i + 1)) == slots_view(s.take(i)),
        },
{
    let p = s.take(i);
    let q = s.take(i + 1);
    lemma_occupied_bound(p);
    assert(q.drop_last() =~= p);
    assert(q =~= p.push(s[i]));
    assert(keys_unique(q)) by {
        assert forall|a: int, b: int|
            0 <= a < q.len() && 0 <= b < q.len() && a != b && (#[trigger] q[a]) is Some && (
            #[trigger] q[b]) is Some implies !q[a]->0.key.eq_spec(&q[b]->0.key) by {
            assert(s[a] is Some && s[b] is Some);
        }
    }
    lemma_view_push(p, s[i]);
    if s[i] is Some {
        lemma_store_absent(slots_view(p), s[i]->0.key, s[i]->0.value);
    }
}

/// The table `s` with the value `v` in the entry of slot `pos`.
pub open spec fn revalued<K: Eq + Hash, V>(s: Seq<Option<HashElem<K, V>>>, pos: int, v: V) -> Seq<
    Option<HashElem<K, V>>,
> {
    s.update(
        pos,
        Some(HashElem { dist: s[pos]->0.dist, key: s[pos]->0.key, value: v, hash: s[pos]->0.hash }),
    )
}

/// Giving the entry in a slot another value leaves the table in order and
/// changes the view under the key of that entry alone.
pub proof fn lemma_revalue<K: Eq + Hash + AsByte, V>(s: Seq<Option<HashElem<K, V>>>, pos: int, v: V)
    requires
        obeys_key_model::<K>(),
        table_inv(s),
        0 <= pos < s.len(),
        s[pos] is Some,
    ensures
        table_inv(revalued(s, pos, v)),
        occupied(revalued(s, pos, v)) == occupied(s),
        slots_view(revalued(s, pos, v)) == slots_view(s).insert(s[pos]->0.key, v),
{
    let cap = s.len() as int;
    let o = s[pos]->0;
    let e = HashElem { dist: o.dist, key: o.key, value: v, hash: o.hash };
    assert(in_order(s, behind(pos, 1, cap)));
    assert(e.key.eq_spec(&e.key));
    lemma_put(s, pos, e);
    lemma_view_at(s, pos);
    assert(slots_view(s).remove(e.key).insert(e.key, e.value) =~= slots_view(s).insert(e.key, e.value));
}

} // verus!
