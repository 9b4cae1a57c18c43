//! The walks through the table. An insertion carries an entry forward from
//! its home slot; its walk is given as the table that it leaves, and as a
//! relation between the table at the start and the table, the entry in hand
//! and the position at each step. A lookup walks forward from the home slot
//! of its key until it may stop.

use vstd::prelude::*;
use vstd::std_specs::cmp::PartialEqSpec;
use std::hash::Hash;
use crate::geometry::{ahead, behind, gap, home, probe_distance};
use crate::hashing::hashes_to;
use crate::key::{obeys_key_model, AsByte};
use crate::model::{lemma_store_absent, lemma_store_present, lookup, store};
use crate::slots::{empty_slots, farthest, lemma_farthest, holds, in_order, lemma_absent, lemma_occupied_bound, lemma_probe_range, lemma_put, lemma_view_at, lemma_view_keys, occupied, slot_dist, slots_view, table_inv, HashElem};

verus! {

/// The table after an entry with key `k`, value `v` and hash `h` has been
/// carried on from slot `pos`, where its probe distance would be `dist`,
/// over `fuel` slots at most. An empty slot takes the entry, and so does a
/// slot whose key is equal to `k`. An entry that is closer to its home than
/// `dist` takes the place of the entry carried, which takes its slot; any
/// other entry is passed.
pub open spec fn carried<K: Eq + Hash, V>(
    s: Seq<Option<HashElem<K, V>>>,
    k: K,
    v: V,
    h: u64,
    pos: int,
    dist: int,
    fuel: nat,
) -> Seq<Option<HashElem<K, V>>>
    decreases fuel,
{
    let cap = s.len() as int;
    let e = HashElem { dist: dist as u64, key: k, value: v, hash: h };
    if fuel == 0 || pos < 0 || pos >= cap {
        s
    } else if s[pos] is None {
        s.update(pos, Some(e))
    } else if s[pos]->0.key.eq_spec(&k) {
        s.update(pos, Some(e))
    } else if slot_dist(s, pos) < dist {
        carried(
            s.update(pos, Some(e)),
            s[pos]->0.key,
            s[pos]->0.value,
            s[pos]->0.hash,
            ahead(pos, 1, cap),
            slot_dist(s, pos) + 1,
            (fuel - 1) as nat,
        )
    } else {
        carried(s, k, v, h, ahead(pos, 1, cap), dist + 1, (fuel - 1) as nat)
    }
}

/// The table `s` after `key` has been inserted with `val` under `hash`: the
/// new entry is carried on from the home slot of `hash`.
pub open spec fn inserted<K: Eq + Hash, V>(
    s: Seq<Option<HashElem<K, V>>>,
    key: K,
    val: V,
    hash: u64,
) -> Seq<Option<HashElem<K, V>>> {
    carried(s, key, val, hash, home(hash, s.len() as int), 0, s.len())
}

/// The table of twice the slots of `s` after the entries of the first `n`
/// slots of `s` have been inserted into it, in the order of the slots.
pub open spec fn regrown<K: Eq + Hash, V>(s: Seq<Option<HashElem<K, V>>>, n: int) -> Seq<
    Option<HashElem<K, V>>,
>
    decreases n,
{
    if n <= 0 {
        empty_slots(2 * s.len())
    } else {
        match s[n - 1] {
            Some(e) => inserted(regrown(s, n - 1), e.key, e.value, e.hash),
            None => regrown(s, n - 1),
        }
    }
}

/// The most steps that an insertion under `hash` can walk before it reaches
/// the empty slot `z`.
pub open spec fn walk_budget<K: Eq + Hash + AsByte, V>(
    s0: Seq<Option<HashElem<K, V>>>,
    hash: u64,
    z: int,
) -> int {
    gap(home(hash, s0.len() as int), z, s0.len() as int)
}

/// The state of an insertion of `key`, whose hash is `hash`, with `val` into
/// the table `s0`, after `j` steps: the table is now `s`, the entry in hand
/// has the key `k`, the value `v` and the hash `h`, it stands before slot
/// `pos` and would have the probe distance `dist` there; carrying it on
/// gives the table that the insertion is to give.
/// Until an entry has been displaced, the table is unchanged, the entry in
/// hand is the new one, and no slot passed holds a key equal to `key`.
/// After that, the entry in hand is one that the table held, no key in the
/// table is equal to its key, and the table with it is `s0` with the new
/// entry stored.
pub closed spec fn walk_inv<K: Eq + Hash + AsByte, V>(
    s0: Seq<Option<HashElem<K, V>>>,
    key: K,
    val: V,
    hash: u64,
    z: int,
    s: Seq<Option<HashElem<K, V>>>,
    k: K,
    v: V,
    h: u64,
    pos: int,
    dist: int,
    j: int,
    displaced: bool,
) -> bool {
    let cap = s0.len() as int;
    let h0 = home(hash, cap);
    &&& obeys_key_model::<K>()
    &&& hashes_to(&key, hash)
    &&& table_inv(s0)
    &&& table_inv(s)
    &&& s.len() == cap
    &&& occupied(s) == occupied(s0)
    &&& forall|i: int| 0 <= i < cap ==> ((#[trigger] s[i]) is Some <==> s0[i] is Some)
    &&& 0 <= z < cap
    &&& s0[z] is None
    &&& 0 <= j <= walk_budget(s0, hash, z)
    &&& pos == ahead(h0, j, cap)
    &&& 0 <= dist <= j
    &&& dist == probe_distance(h, pos, cap)
    &&& hashes_to(&k, h)
    &&& slot_dist(s, behind(pos, 1, cap)) >= dist - 1
    &&& carried(s, k, v, h, pos, dist, (cap - j) as nat) == inserted(s0, key, val, hash)
    &&& !displaced ==> {
        &&& s == s0
        &&& k == key
        &&& v == val
        &&& h == hash
        &&& dist == j
        &&& forall|t: int|
            0 <= t < j ==> {
                let p = #[trigger] ahead(h0, t, cap);
                !(s0[p] is Some && s0[p]->0.key.eq_spec(&key))
            }
    }
    &&& displaced ==> {
        &&& forall|i: int| 0 <= i < cap && (#[trigger] s[i]) is Some ==> !s[i]->0.key.eq_spec(&k)
        &&& slots_view(s).insert(k, v) == store(slots_view(s0), key, val)
        &&& lookup(slots_view(s0), key) is None
    }
}

/// An insertion into a table with an empty slot starts at the home slot of
/// the key, with the new entry in hand.
pub proof fn lemma_walk_start<K: Eq + Hash + AsByte, V>(
    s0: Seq<Option<HashElem<K, V>>>,
    key: K,
    val: V,
    hash: u64,
    entry: HashElem<K, V>,
) -> (z: int)
    requires
        obeys_key_model::<K>(),
        table_inv(s0),
        occupied(s0) < s0.len(),
        hashes_to(&key, hash),
        entry.key == key,
        entry.value == val,
        entry.hash == hash,
    ensures
        walk_inv(s0, key, val, hash, z, s0, key, val, entry.hash, home(entry.hash, s0.len() as int), 0, 0, false),
{
    lemma_occupied_bound(s0);
    let z = choose|i: int| 0 <= i < s0.len() && (#[trigger] s0[i]) is None;
    let cap = s0.len() as int;
    lemma_probe_range(entry.hash, z, cap);
    z
}

/// What a walk says of the position and of the slot there.
pub proof fn lemma_walk_facts<K: Eq + Hash + AsByte, V>(
    s0: Seq<Option<HashElem<K, V>>>,
    key: K,
    val: V,
    hash: u64,
    z: int,
    s: Seq<Option<HashElem<K, V>>>,
    entry: HashElem<K, V>,
    pos: int,
    dist: int,
    j: int,
    displaced: bool,
)
    requires
        walk_inv(s0, key, val, hash, z, s, entry.key, entry.value, entry.hash, pos, dist, j, displaced),
    ensures
        obeys_key_model::<K>(),
        s.len() == s0.len(),
        0 <= pos < s.len(),
        0 <= dist < s.len(),
        0 <= j <= walk_budget(s0, hash, z),
        occupied(s) == occupied(s0),
        s[pos] is Some ==> 0 <= slot_dist(s, pos) < s.len(),
{
    let cap = s0.len() as int;
    let h0 = home(hash, cap);
    lemma_probe_range(hash, z, cap);
    if s[pos] is Some {
        lemma_probe_range(s[pos]->0.hash, pos, cap);
    }
}

/// The walk ends at a slot whose key is equal to the key of the entry in
/// hand: the entry in hand is the new one, and it takes the place of the
/// old.
pub proof fn lemma_walk_overwrite<K: Eq + Hash + AsByte, V>(
    s0: Seq<Option<HashElem<K, V>>>,
    key: K,
    val: V,
    hash: u64,
    z: int,
    s: Seq<Option<HashElem<K, V>>>,
    entry: HashElem<K, V>,
    pos: int,
    dist: int,
    j: int,
    displaced: bool,
)
    requires
        walk_inv(s0, key, val, hash, z, s, entry.key, entry.value, entry.hash, pos, dist, j, displaced),
        0 <= pos < s.len(),
        entry.dist == dist,
        s[pos] is Some,
        s[pos]->0.key.eq_spec(&entry.key),
    ensures
        table_inv(s.update(pos, Some(entry))),
        occupied(s.update(pos, Some(entry))) == occupied(s0),
        slots_view(s.update(pos, Some(entry))) == store(slots_view(s0), key, val),
        lookup(slots_view(s0), key) is Some,
        s.update(pos, Some(entry)) == inserted(s0, key, val, hash),
{
    lemma_walk_facts(s0, key, val, hash, z, s, entry, pos, dist, j, displaced);
    let cap = s0.len() as int;
    let o = s[pos]->0;
    assert(!displaced);
    assert(hashes_to(&o.key, o.hash));
    assert(o.hash == hash);
    assert forall|i: int|
        0 <= i < s.len() && i != pos && (#[trigger] s[i]) is Some implies !s[i]->0.key.eq_spec(
        &entry.key,
    ) by {
        if s[i]->0.key.eq_spec(&key) {
            assert(key.eq_spec(&o.key));
            assert(s[i]->0.key.eq_spec(&o.key));
        }
    }
    assert(in_order(s, behind(pos, 1, cap)));
    lemma_put(s, pos, entry);
    lemma_view_at(s, pos);
    lemma_view_keys(s);
    lemma_store_present(slots_view(s), o.key, key, val);
}

/// Until an entry has been displaced, a walk that meets an empty slot or an
/// entry closer to its home than the walk is long has shown that no key of
/// the table is equal to the new key.
proof fn lemma_walk_absent<K: Eq + Hash + AsByte, V>(
    s0: Seq<Option<HashElem<K, V>>>,
    key: K,
    val: V,
    hash: u64,
    z: int,
    s: Seq<Option<HashElem<K, V>>>,
    entry: HashElem<K, V>,
    pos: int,
    dist: int,
    j: int,
)
    requires
        walk_inv(s0, key, val, hash, z, s, entry.key, entry.value, entry.hash, pos, dist, j, false),
        0 <= pos < s.len(),
        slot_dist(s, pos) < dist,
    ensures
        forall|i: int| 0 <= i < s0.len() && (#[trigger] s0[i]) is Some ==> !s0[i]->0.key.eq_spec(&key),
        lookup(slots_view(s0), key) is None,
        store(slots_view(s0), key, val) == slots_view(s0).insert(key, val),
{
    lemma_walk_facts(s0, key, val, hash, z, s, entry, pos, dist, j, false);
    lemma_absent(s0, key, hash, j);
    assert forall|k: K| slots_view(s0).contains_key(k) implies !#[trigger] k.eq_spec(&key) by {
        let i = choose|i: int| holds(s0, i, k);
        assert(s0[i] is Some);
    }
    lemma_store_absent(slots_view(s0), key, val);
}

/// The walk ends at an empty slot, which takes the entry in hand.
pub proof fn lemma_walk_place<K: Eq + Hash + AsByte, V>(
    s0: Seq<Option<HashElem<K, V>>>,
    key: K,
    val: V,
    hash: u64,
    z: int,
    s: Seq<Option<HashElem<K, V>>>,
    entry: HashElem<K, V>,
    pos: int,
    dist: int,
    j: int,
    displaced: bool,
)
    requires
        walk_inv(s0, key, val, hash, z, s, entry.key, entry.value, entry.hash, pos, dist, j, displaced),
        0 <= pos < s.len(),
        entry.dist == dist,
        s[pos] is None,
    ensures
        table_inv(s.update(pos, Some(entry))),
        occupied(s.update(pos, Some(entry))) == occupied(s0) + 1,
        slots_view(s.update(pos, Some(entry))) == store(slots_view(s0), key, val),
        lookup(slots_view(s0), key) is None,
        s.update(pos, Some(entry)) == inserted(s0, key, val, hash),
{
    lemma_walk_facts(s0, key, val, hash, z, s, entry, pos, dist, j, displaced);
    if !displaced {
        lemma_walk_absent(s0, key, val, hash, z, s, entry, pos, dist, j);
    }
    lemma_put(s, pos, entry);
}

/// The walk meets an entry that is closer to its home than the entry in
/// hand: the two change places, and the walk goes on with the other.
pub proof fn lemma_walk_swap<K: Eq + Hash + AsByte, V>(
    s0: Seq<Option<HashElem<K, V>>>,
    key: K,
    val: V,
    hash: u64,
    z: int,
    s: Seq<Option<HashElem<K, V>>>,
    entry: HashElem<K, V>,
    pos: int,
    dist: int,
    j: int,
    displaced: bool,
)
    requires
        walk_inv(s0, key, val, hash, z, s, entry.key, entry.value, entry.hash, pos, dist, j, displaced),
        0 <= pos < s.len(),
        entry.dist == dist,
        s[pos] is Some,
        !s[pos]->0.key.eq_spec(&entry.key),
        slot_dist(s, pos) < dist,
    ensures
        walk_inv(
            s0,
            key,
            val,
            hash,
            z,
            s.update(pos, Some(entry)),
            s[pos]->0.key,
            s[pos]->0.value,
            s[pos]->0.hash,
            pos,
            slot_dist(s, pos),
            j,
            true,
        ),
        !entry.key.eq_spec(&s[pos]->0.key),
        slot_dist(s.update(pos, Some(entry)), pos) == dist,
{
    let cap = s0.len() as int;
    let o = s[pos]->0;
    let s2 = s.update(pos, Some(entry));
    if !displaced {
        lemma_walk_absent(s0, key, val, hash, z, s, entry, pos, dist, j);
    }
    if entry.key.eq_spec(&o.key) {
        assert(o.key.eq_spec(&entry.key));
    }
    lemma_put(s, pos, entry);
    lemma_view_at(s, pos);
    assert forall|i: int| 0 <= i < cap && (#[trigger] s2[i]) is Some implies !s2[i]->0.key.eq_spec(
        &o.key,
    ) by {
        if i != pos {
            assert(s[i] is Some);
        }
    }
    assert(o.key.eq_spec(&o.key));
    assert(slots_view(s2).insert(o.key, o.value) =~= slots_view(s).insert(entry.key, entry.value));
    assert forall|i: int| 0 <= i < cap implies ((#[trigger] s2[i]) is Some <==> s0[i] is Some) by {
        assert(s[i] is Some <==> s0[i] is Some);
    }
    lemma_probe_range(hash, z, cap);
    lemma_probe_range(o.hash, pos, cap);
    assert(slot_dist(s2, behind(pos, 1, cap)) == slot_dist(s, behind(pos, 1, cap)));
}

/// The walk passes a slot whose entry has another key and is at least as
/// far from its home as the entry in hand.
pub proof fn lemma_walk_step<K: Eq + Hash + AsByte, V>(
    s0: Seq<Option<HashElem<K, V>>>,
    key: K,
    val: V,
    hash: u64,
    z: int,
    s: Seq<Option<HashElem<K, V>>>,
    entry: HashElem<K, V>,
    pos: int,
    dist: int,
    j: int,
    displaced: bool,
)
    requires
        walk_inv(s0, key, val, hash, z, s, entry.key, entry.value, entry.hash, pos, dist, j, displaced),
        0 <= pos < s.len(),
        s[pos] is Some,
        !s[pos]->0.key.eq_spec(&entry.key),
        slot_dist(s, pos) >= dist,
    ensures
        walk_inv(
            s0,
            key,
            val,
            hash,
            z,
            s,
            entry.key,
            entry.value,
            entry.hash,
            ahead(pos, 1, s.len() as int),
            dist + 1,
            j + 1,
            displaced,
        ),
        j + 1 <= walk_budget(s0, hash, z),
{
    let cap = s0.len() as int;
    let h0 = home(hash, cap);
    lemma_probe_range(hash, z, cap);
    lemma_probe_range(hash, pos, cap);
    lemma_probe_range(entry.hash, pos, cap);
    let next = ahead(pos, 1, cap);
    lemma_probe_range(entry.hash, next, cap);
    assert(s0[pos] is Some);
    assert(pos != z);
    assert(behind(next, 1, cap) == pos);
    if !displaced {
        assert forall|t: int| 0 <= t < j + 1 implies {
            let p = #[trigger] ahead(h0, t, cap);
            !(s0[p] is Some && s0[p]->0.key.eq_spec(&key))
        } by {
            if t == j {
                assert(ahead(h0, t, cap) == pos);
            }
        }
    }
}

/// The state of a lookup of `key`, whose hash is `hash`, in the table `s`
/// after `j` steps: it stands before slot `pos`, `j` steps from the home
/// slot of `key`, and no slot passed holds a key equal to `key`. The walk
/// is never longer than the greatest probe distance in the table and one.
pub closed spec fn probe_inv<K: Eq + Hash + AsByte, V>(
    s: Seq<Option<HashElem<K, V>>>,
    key: K,
    hash: u64,
    pos: int,
    j: int,
) -> bool {
    let cap = s.len() as int;
    let h0 = home(hash, cap);
    &&& obeys_key_model::<K>()
    &&& hashes_to(&key, hash)
    &&& table_inv(s)
    &&& 0 <= j <= farthest(s, cap) + 1
    &&& j <= cap
    &&& pos == ahead(h0, j, cap)
    &&& forall|t: int|
        0 <= t < j ==> {
            let p = #[trigger] ahead(h0, t, cap);
            !(s[p] is Some && s[p]->0.key.eq_spec(&key))
        }
}

/// A lookup starts at the home slot of the key.
pub proof fn lemma_probe_start<K: Eq + Hash + AsByte, V>(
    s: Seq<Option<HashElem<K, V>>>,
    key: K,
    hash: u64,
)
    requires
        obeys_key_model::<K>(),
        table_inv(s),
        hashes_to(&key, hash),
    ensures
        probe_inv(s, key, hash, home(hash, s.len() as int), 0),
{
    lemma_probe_range(hash, 0, s.len() as int);
    lemma_farthest(s, s.len() as int, 0);
}

/// What a lookup says of the position.
pub proof fn lemma_probe_facts<K: Eq + Hash + AsByte, V>(
    s: Seq<Option<HashElem<K, V>>>,
    key: K,
    hash: u64,
    pos: int,
    j: int,
)
    requires
        probe_inv(s, key, hash, pos, j),
    ensures
        0 <= pos < s.len(),
        0 <= j <= farthest(s, s.len() as int) + 1,
        j <= s.len(),
        s[pos] is Some ==> 0 <= slot_dist(s, pos) < s.len(),
{
    let cap = s.len() as int;
    lemma_probe_range(hash, 0, cap);
    if s[pos] is Some {
        lemma_probe_range(s[pos]->0.hash, pos, cap);
    }
}

/// A lookup that meets an empty slot, or an entry closer to its home than
/// the lookup is long, has shown that no key of the table is equal to the
/// key.
pub proof fn lemma_probe_stop<K: Eq + Hash + AsByte, V>(
    s: Seq<Option<HashElem<K, V>>>,
    key: K,
    hash: u64,
    pos: int,
    j: int,
)
    requires
        probe_inv(s, key, hash, pos, j),
        slot_dist(s, pos) < j,
    ensures
        forall|i: int| 0 <= i < s.len() && (#[trigger] s[i]) is Some ==> !s[i]->0.key.eq_spec(&key),
        lookup(slots_view(s), key) is None,
{
    lemma_absent(s, key, hash, j);
    assert forall|k: K| slots_view(s).contains_key(k) implies !#[trigger] k.eq_spec(&key) by {
        let i = choose|i: int| holds(s, i, k);
        assert(s[i] is Some);
    }
    assert(lookup(slots_view(s), key) is None);
}

/// A lookup that meets the entry it looks for gives the value that the view
/// holds for the key.
pub proof fn lemma_probe_found<K: Eq + Hash + AsByte, V>(
    s: Seq<Option<HashElem<K, V>>>,
    key: K,
    pos: int,
)
    requires
        obeys_key_model::<K>(),
        table_inv(s),
        0 <= pos < s.len(),
        s[pos] is Some,
        key.eq_spec(&s[pos]->0.key),
    ensures
        crate::model::stored_key(slots_view(s), key) == Some(s[pos]->0.key),
        lookup(slots_view(s), key) == Some(s[pos]->0.value),
{
    lemma_view_at(s, pos);
    lemma_view_keys(s);
    assert(s[pos]->0.key.eq_spec(&key));
    crate::model::lemma_lookup_present(slots_view(s), s[pos]->0.key, key);
}

/// A lookup passes a slot whose entry is not the one it looks for and is at
/// least as far from its home as the lookup is long.
pub proof fn lemma_probe_step<K: Eq + Hash + AsByte, V>(
    s: Seq<Option<HashElem<K, V>>>,
    key: K,
    hash: u64,
    pos: int,
    j: int,
)
    requires
        probe_inv(s, key, hash, pos, j),
        0 <= pos < s.len(),
        s[pos] is Some,
        slot_dist(s, pos) >= j,
        !(s[pos]->0.hash == hash && key.eq_spec(&s[pos]->0.key)),
    ensures
        probe_inv(s, key, hash, ahead(pos, 1, s.len() as int), j + 1),
{
    let cap = s.len() as int;
    let h0 = home(hash, cap);
    lemma_probe_range(hash, pos, cap);
    lemma_probe_range(s[pos]->0.hash, pos, cap);
    lemma_farthest(s, cap, pos);
    if s[pos]->0.key.eq_spec(&key) {
        assert(key.eq_spec(&s[pos]->0.key));
        assert(hashes_to(&s[pos]->0.key, s[pos]->0.hash));
    }
    assert forall|t: int| 0 <= t < j + 1 implies {
        let p = #[trigger] ahead(h0, t, cap);
        !(s[p] is Some && s[p]->0.key.eq_spec(&key))
    } by {
        if t == j {
            assert(ahead(h0, t, cap) == pos);
        }
    }
}

} // verus!
