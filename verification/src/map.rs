//! The map: a power-of-two array of slots, filled by Robin Hood insertion,
//! read by a probe that stops early, and doubled when it grows too full.

use vstd::prelude::*;
use vstd::arithmetic::power2::is_pow2;
use std::hash::Hash;
use crate::geometry::{ahead, ceil_pow2, lemma_ceil_pow2_fixed, lemma_ceil_pow2_is, distance, home_of, next_slot, pow2, MAX_CAPACITY};
use crate::hashing::{hash_key, hashes_to};
use crate::iter::{Iter, IterMut, Keys};
use crate::key::{obeys_key_model, AsByte};
use crate::listing::entries_from;
use crate::model::{lookup, store, stored_key};
use crate::slots::{empty_slots, farthest, holds, lemma_revalue, revalued, lemma_take_step, lemma_all_empty, lemma_occupied_bound, lemma_view_len, occupied, slots_view, table_inv, HashElem};
use crate::walk::{inserted, regrown, lemma_probe_facts, lemma_probe_found, lemma_probe_start, lemma_probe_step, lemma_probe_stop, probe_inv, lemma_walk_facts, lemma_walk_overwrite, lemma_walk_place, lemma_walk_start, lemma_walk_step, lemma_walk_swap, walk_budget, walk_inv};

verus! {

/// A hash map from `K` to `V` with open addressing and Robin Hood
/// displacement. It never shrinks and has no removal.
pub struct HashMap<K, V> where K: Eq + Hash + AsByte {
    elems: Vec<Option<HashElem<K, V>>>,
    len: u64,
    capacity: u64,
    threshold: u64,
    mask: usize,
    load_factor: usize,
}

impl<K, V> View for HashMap<K, V> where K: Eq + Hash + AsByte {
    type V = Map<K, V>;

    /// The stored keys with their values.
    open spec fn view(&self) -> Map<K, V> {
        slots_view(self.slots())
    }
}

impl<K, V> HashMap<K, V> where K: Eq + Hash + AsByte {
    /// The slots in their physical order.
    pub closed spec fn slots(&self) -> Seq<Option<HashElem<K, V>>> {
        self.elems@
    }

    pub closed spec fn spec_len(&self) -> u64 {
        self.len
    }

    pub closed spec fn spec_capacity(&self) -> u64 {
        self.capacity
    }

    /// The number of entries above which the next insertion grows the table.
    pub closed spec fn threshold(&self) -> u64 {
        self.threshold
    }

    /// The percentage of the capacity that gives the threshold.
    pub closed spec fn load_factor(&self) -> usize {
        self.load_factor
    }

    /// The mask is the capacity less one.
    pub closed spec fn mask_fits(&self) -> bool {
        self.mask == self.capacity - 1
    }

    /// The invariant of the map: a power-of-two number of slots, a threshold
    /// below it, a count that matches the entries, and slots in Robin Hood
    /// order that record the hash and the probe distance of distinct keys.
    pub open spec fn wf(&self) -> bool {
        &&& obeys_key_model::<K>()
        &&& is_pow2(self.spec_capacity() as int)
        &&& 2 <= self.spec_capacity() <= MAX_CAPACITY
        &&& self.spec_capacity() <= usize::MAX
        &&& self.slots().len() == self.spec_capacity()
        &&& self.mask_fits()
        &&& self.load_factor() < 100
        &&& self.threshold() == self.spec_capacity() * self.load_factor() / 100
        &&& self.spec_len() == occupied(self.slots())
        &&& table_inv(self.slots())
    }

    /// Whether the table can double.
    pub open spec fn can_grow(&self) -> bool {
        2 * self.spec_capacity() <= MAX_CAPACITY && 2 * self.spec_capacity() <= usize::MAX
    }

    /// The entries in the order of the slots.
    pub open spec fn entries(&self) -> Seq<(K, V)> {
        entries_from(self.slots(), 0)
    }

    /// A map of 256 slots with a load factor of 90.
    pub fn new() -> (m: Self)
        requires
            obeys_key_model::<K>(),
        ensures
            m.wf(),
            m@ == Map::<K, V>::empty(),
            m.slots() == empty_slots::<K, V>(256),
            m.spec_len() == 0,
            m.spec_capacity() == 256,
            m.load_factor() == 90,
    {
        proof {
            vstd::arithmetic::power2::lemma2_to64();
            lemma_ceil_pow2_is(256, 8);
        }
        Self::with_capacity(256)
    }

    /// A map of at least `capacity` slots with a load factor of 90.
    pub fn with_capacity(capacity: usize) -> (m: Self)
        requires
            obeys_key_model::<K>(),
            capacity <= MAX_CAPACITY,
            ceil_pow2(capacity as nat) <= usize::MAX,
        ensures
            m.wf(),
            m@ == Map::<K, V>::empty(),
            m.slots() == empty_slots::<K, V>(ceil_pow2(capacity as nat)),
            m.spec_len() == 0,
            m.spec_capacity() == ceil_pow2(capacity as nat),
            m.spec_capacity() >= capacity,
            m.load_factor() == 90,
    {
        Self::with_capacity_and_factor(capacity, 90)
    }

    /// A map whose number of slots is `capacity` rounded up to a power of
    /// two (two at the least), and that grows once it holds more than
    /// `load_factor` percent of its slots.
    pub fn with_capacity_and_factor(capacity: usize, load_factor: usize) -> (m: Self)
        requires
            obeys_key_model::<K>(),
            capacity <= MAX_CAPACITY,
            ceil_pow2(capacity as nat) <= usize::MAX,
            load_factor < 100,
        ensures
            m.wf(),
            m@ == Map::<K, V>::empty(),
            m.slots() == empty_slots::<K, V>(ceil_pow2(capacity as nat)),
            m.spec_len() == 0,
            m.spec_capacity() == ceil_pow2(capacity as nat),
            m.spec_capacity() >= capacity,
            m.load_factor() == load_factor,
    {
        let cap: u64 = pow2(capacity as u64);
        let slots: usize = cap as usize;
        let mut elems: Vec<Option<HashElem<K, V>>> = Vec::with_capacity(slots);
        let mut i: usize = 0;
        while i < slots
            invariant
                i <= slots,
                elems@.len() == i,
                forall|t: int| 0 <= t < i ==> (#[trigger] elems@[t]) is None,
            decreases slots - i,
        {
            elems.push(None);
            i += 1;
        }
        proof {
            lemma_all_empty(elems@);
            assert(elems@ =~= empty_slots::<K, V>(cap as nat));
            assert(0 <= cap * load_factor <= cap * 100) by (nonlinear_arith)
                requires
                    0 <= load_factor <= 100,
                    cap >= 0,
            ;
        }
        let threshold: u64 = ((cap as u128 * load_factor as u128) / 100) as u64;
        Self { elems, len: 0, capacity: cap, threshold, mask: slots - 1, load_factor }
    }

    /// The value stored under a key equal to `key`, if there is one.
    pub fn get(&self, key: &K) -> (r: Option<&V>)
        requires
            self.wf(),
        ensures
            match r {
                Some(v) => lookup(self@, *key) == Some(*v),
                None => lookup(self@, *key) is None,
            },
    {
        match self.index(key) {
            Some(i) => Some(&self.elems[i].as_ref().unwrap().value),
            None => None,
        }
    }

    /// The value stored under a key equal to `key`, if there is one, to be
    /// changed in place. Nothing else changes.
    pub fn get_mut(&mut self, key: &K) -> (r: Option<&mut V>)
        requires
            old(self).wf(),
        ensures
            final(self).wf(),
            final(self).spec_len() == old(self).spec_len(),
            final(self).spec_capacity() == old(self).spec_capacity(),
            final(self).load_factor() == old(self).load_factor(),
            match r {
                Some(v) => {
                    &&& lookup(old(self)@, *key) == Some(*v)
                    &&& final(self)@ == old(self)@.insert(stored_key(old(self)@, *key)->0, *final(v))
                    &&& exists|i: int|
                        {
                            &&& #[trigger] holds(old(self).slots(), i, stored_key(old(self)@, *key)->0)
                            &&& final(self).slots() == revalued(old(self).slots(), i, *final(v))
                        }
                },
                None => lookup(old(self)@, *key) is None && *final(self) == *old(self),
            },
    {
        match self.index(key) {
            Some(i) => {
                let ghost s = self.elems@;
                let r = &mut self.elems[i].as_mut().unwrap().value;
                proof {
                    lemma_revalue(s, i as int, *final(r));
                    assert(holds(s, i as int, s[i as int]->0.key));
                }
                Some(r)
            },
            None => None,
        }
    }

    /// An iterator over the keys, in the order of the slots.
    pub fn keys(&self) -> (keys: Keys<'_, K, V>)
        requires
            self.wf(),
        ensures
            keys.inner().wf(),
            keys.inner().table() == *self,
            keys.inner().remaining() == self.entries(),
    {
        Keys::new(self.iter())
    }

    /// An iterator over the entries, in the order of the slots.
    pub fn iter(&self) -> (it: Iter<'_, K, V>)
        requires
            self.wf(),
        ensures
            it.wf(),
            it.table() == *self,
            it.remaining() == self.entries(),
    {
        Iter::new(self)
    }

    /// An iterator over the entries, in the order of the slots, that lets
    /// the values be changed.
    pub fn iter_mut(&mut self) -> (it: IterMut<'_, K, V>)
        requires
            old(self).wf(),
        ensures
            it.wf(),
            *it.map == *old(self),
            *final(it.map) == *final(self),
            it.remaining() == old(self).entries(),
    {
        IterMut::new(self)
    }

    /// Gives `key` the value `val`: a key equal to `key` that is already
    /// there is overwritten together with its value, and the number of
    /// entries stays; otherwise the entry is new. Before that the table
    /// doubles if it holds more entries than its threshold.
    pub fn insert(&mut self, key: K, val: V)
        requires
            old(self).wf(),
            old(self).spec_len() > old(self).threshold() ==> old(self).can_grow(),
        ensures
            final(self).wf(),
            final(self)@ == store(old(self)@, key, val),
            exists|hash: u64| #[trigger]
                hashes_to(&key, hash) && final(self).slots() == inserted(
                    if old(self).spec_len() > old(self).threshold() {
                        regrown(old(self).slots(), old(self).slots().len() as int)
                    } else {
                        old(self).slots()
                    },
                    key,
                    val,
                    hash,
                ),
            final(self).spec_len() == old(self).spec_len() + if lookup(old(self)@, key) is Some {
                0int
            } else {
                1int
            },
            final(self).spec_capacity() == if old(self).spec_len() > old(self).threshold() {
                2 * old(self).spec_capacity()
            } else {
                old(self).spec_capacity() as int
            },
            final(self).load_factor() == old(self).load_factor(),
    {
        proof {
            lemma_occupied_bound(self.elems@);
            assert(self.capacity * self.load_factor / 100 < self.capacity) by (nonlinear_arith)
                requires
                    self.capacity > 0,
                    0 <= self.load_factor < 100,
            ;
        }
        // Grow the map if we've run out of slots.
        if self.len > self.threshold {
            self.grow();
        }
        let _overwritten = self.insert_raw(hash_key(&key), key, val);
    }

    /// Doubles the table and puts every entry into the new one, in the
    /// order of the slots.
    fn grow(&mut self)
        requires
            old(self).wf(),
            old(self).can_grow(),
        ensures
            final(self).wf(),
            final(self).slots() == regrown(old(self).slots(), old(self).slots().len() as int),
            final(self)@ == old(self)@,
            final(self).spec_len() == old(self).spec_len(),
            final(self).spec_capacity() == 2 * old(self).spec_capacity(),
            final(self).load_factor() == old(self).load_factor(),
    {
        proof {
            lemma_ceil_pow2_fixed(self.capacity);
            lemma_ceil_pow2_fixed((2 * self.capacity) as u64);
        }
        let mut new_map = Self::with_capacity_and_factor((self.capacity * 2) as usize, self.load_factor);
        let ghost s0 = self.elems@;
        let n: usize = self.elems.len();
        let mut i: usize = 0;
        proof {
            assert(s0.take(0) =~= Seq::<Option<HashElem<K, V>>>::empty());
            lemma_all_empty(s0.take(0));
        }
        while i < n
            invariant
                obeys_key_model::<K>(),
                table_inv(s0),
                s0 == old(self).elems@,
                i <= n,
                n == s0.len(),
                self.elems@.len() == n,
                forall|t: int| i <= t < n ==> self.elems@[t] == s0[t],
                self.capacity == old(self).capacity,
                self.load_factor == old(self).load_factor,
                n == self.capacity,
                new_map.wf(),
                new_map.capacity == 2 * self.capacity,
                new_map.load_factor == self.load_factor,
                new_map.elems@ == regrown(s0, i as int),
                new_map@ == slots_view(s0.take(i as int)),
                new_map.len == occupied(s0.take(i as int)),
            decreases n - i,
        {
            proof {
                lemma_take_step(s0, i as int);
            }
            let e = self.elems[i].take();
            if let Some(HashElem { hash, key, value, .. }) = e {
                new_map.insert_raw(hash, key, value);
            }
            i += 1;
        }
        proof {
            assert(s0.take(n as int) =~= s0);
        }
        std::mem::swap(&mut new_map, self);
    }

    /// Puts `key` with `val` into the table, where `hash` is the hash of
    /// `key` and one slot at least is empty. Walks forward from the home
    /// slot of the entry in hand: an empty slot takes it; a slot with an
    /// equal key is overwritten by it; an entry that is closer to its home
    /// than the entry in hand gives up its slot and is carried on instead.
    /// Says whether a key equal to `key` was there before.
    fn insert_raw(&mut self, hash: u64, key: K, val: V) -> (overwritten: bool)
        requires
            old(self).wf(),
            old(self).spec_len() < old(self).spec_capacity(),
            hashes_to(&key, hash),
        ensures
            final(self).wf(),
            final(self).slots() == inserted(old(self).slots(), key, val, hash),
            final(self)@ == store(old(self)@, key, val),
            overwritten == (lookup(old(self)@, key) is Some),
            final(self).spec_len() == old(self).spec_len() + if overwritten {
                0int
            } else {
                1int
            },
            final(self).spec_capacity() == old(self).spec_capacity(),
            final(self).load_factor() == old(self).load_factor(),
            final(self).threshold() == old(self).threshold(),
    {
        let mut pos: usize = home_of(hash, self.mask);

        let mut dist: u64 = 0;
        let mut entry = HashElem::new(dist, key, val, hash);

        let ghost s0 = self.elems@;
        let ghost z = lemma_walk_start(s0, key, val, hash, entry);
        let ghost mut j: int = 0;
        let ghost mut displaced = false;

        // Continue searching until we find an empty slot or lower probe distance.
        loop
            invariant
                is_pow2(self.capacity as int),
                2 <= self.capacity <= MAX_CAPACITY,
                self.capacity <= usize::MAX,
                self.mask == self.capacity - 1,
                self.elems@.len() == self.capacity,
                s0.len() == self.capacity,
                self.len == occupied(s0),
                self.len < self.capacity,
                self.len == old(self).len,
                self.capacity == old(self).capacity,
                self.threshold == old(self).threshold,
                self.load_factor == old(self).load_factor,
                self.load_factor < 100,
                self.threshold == self.capacity * self.load_factor / 100,
                s0 == old(self).elems@,
                walk_inv(
                    s0,
                    key,
                    val,
                    hash,
                    z,
                    self.elems@,
                    entry.key,
                    entry.value,
                    entry.hash,
                    pos as int,
                    dist as int,
                    j,
                    displaced,
                ),
            decreases walk_budget(s0, hash, z) - j,
        {
            // Empty slot found or matching key, insert and exit.
            entry.dist = dist;
            let ghost s = self.elems@;
            let ghost pending = entry;
            proof {
                lemma_walk_facts(s0, key, val, hash, z, s, pending, pos as int, dist as int, j, displaced);
            }
            let elem_dist: u64;
            match &self.elems[pos] {
                Some(e) => {
                    if e.key.eq(&entry.key) {
                        proof {
                            lemma_walk_overwrite(s0, key, val, hash, z, s, pending, pos as int, dist as int, j, displaced);
                        }
                        self.elems[pos] = Some(entry);
                        return true;
                    }
                    elem_dist = distance(e.hash, pos, self.capacity);
                },
                None => {
                    proof {
                        lemma_walk_place(s0, key, val, hash, z, s, pending, pos as int, dist as int, j, displaced);
                    }
                    self.elems[pos] = Some(entry);
                    self.len += 1;
                    return false;
                },
            }

            // If the existing elem has probed less than us, then swap places with
            // existing elem, and keep going to find another slot for that elem.
            if elem_dist < dist {
                proof {
                    lemma_walk_swap(s0, key, val, hash, z, s, pending, pos as int, dist as int, j, displaced);
                    displaced = true;
                }
                // Update current distance.
                dist = elem_dist;
                let e = self.elems[pos].as_mut().unwrap();
                std::mem::swap(e, &mut entry);
            }
            proof {
                lemma_walk_step(s0, key, val, hash, z, self.elems@, entry, pos as int, dist as int, j, displaced);
            }
            pos = next_slot(pos, self.mask);
            dist += 1;
            proof {
                j = j + 1;
            }
        }
    }

    /// index returns the position of key in the hash map. The probe gives
    /// up at the first empty slot and at the first entry that is closer to
    /// its home than the probe is long, so it is never longer than the
    /// greatest probe distance in the table and one.
    fn index(&self, key: &K) -> (r: Option<usize>)
        requires
            self.wf(),
        ensures
            match r {
                Some(i) => {
                    &&& i < self.slots().len()
                    &&& self.slots()[i as int] is Some
                    &&& stored_key(self@, *key) == Some(self.slots()[i as int]->0.key)
                    &&& lookup(self@, *key) == Some(self.slots()[i as int]->0.value)
                },
                None => lookup(self@, *key) is None,
            },
    {
        let hash: u64 = hash_key(key);
        let mut pos: usize = home_of(hash, self.mask);

        let mut dist: u64 = 0;
        proof {
            lemma_probe_start(self.elems@, *key, hash);
        }
        loop
            invariant
                self.wf(),
                probe_inv(self.elems@, *key, hash, pos as int, dist as int),
            decreases farthest(self.elems@, self.elems@.len() as int) + 1 - dist,
        {
            proof {
                lemma_probe_facts(self.elems@, *key, hash, pos as int, dist as int);
            }
            let e = match self.elems[pos].as_ref() {
                Some(e) => e,
                None => {
                    proof {
                        lemma_probe_stop(self.elems@, *key, hash, pos as int, dist as int);
                    }
                    return None;
                },
            };
            if dist > distance(e.hash, pos, self.capacity) {
                proof {
                    lemma_probe_stop(self.elems@, *key, hash, pos as int, dist as int);
                }
                return None;
            } else if e.hash == hash && key.eq(&e.key) {
                proof {
                    lemma_probe_found(self.elems@, *key, pos as int);
                }
                return Some(pos);
            }
            proof {
                lemma_probe_step(self.elems@, *key, hash, pos as int, dist as int);
                lemma_probe_facts(self.elems@, *key, hash, ahead(pos as int, 1, self.capacity as int), dist + 1);
            }
            pos = next_slot(pos, self.mask);
            dist += 1;
        }
    }

    #[verifier::when_used_as_spec(spec_len)]
    pub fn len(&self) -> (n: u64)
        requires
            self.wf(),
        ensures
            n == self.spec_len(),
            n == self@.len(),
            n <= self.spec_capacity(),
    {
        proof {
            lemma_view_len(self.elems@);
            lemma_occupied_bound(self.elems@);
        }
        self.len
    }

    #[verifier::when_used_as_spec(spec_capacity)]
    pub fn capacity(&self) -> (c: u64)
        requires
            self.wf(),
        ensures
            c == self.spec_capacity(),
            is_pow2(c as int),
            2 <= c <= MAX_CAPACITY,
    {
        self.capacity
    }

    /// The number of slots.
    pub(crate) fn slot_count(&self) -> (n: usize)
        requires
            self.wf(),
        ensures
            n == self.slots().len(),
    {
        self.elems.len()
    }

    /// The entry in slot `i`, if the slot holds one.
    pub(crate) fn slot(&self, i: usize) -> (e: Option<&HashElem<K, V>>)
        requires
            i < self.slots().len(),
        ensures
            match e {
                Some(e) => self.slots()[i as int] == Some(*e),
                None => self.slots()[i as int] is None,
            },
    {
        self.elems[i].as_ref()
    }

    /// The key in slot `i` and its value, the value to be changed in place.
    pub(crate) fn slot_mut(&mut self, i: usize) -> (r: Option<(&K, &mut V)>)
        requires
            old(self).wf(),
            i < old(self).slots().len(),
        ensures
            final(self).wf(),
            final(self).spec_len() == old(self).spec_len(),
            final(self).spec_capacity() == old(self).spec_capacity(),
            final(self).load_factor() == old(self).load_factor(),
            match r {
                Some((k, v)) => {
                    &&& old(self).slots()[i as int] is Some
                    &&& *k == old(self).slots()[i as int]->0.key
                    &&& *v == old(self).slots()[i as int]->0.value
                    &&& final(self).slots() == revalued(old(self).slots(), i as int, *final(v))
                    &&& final(self)@ == old(self)@.insert(*k, *final(v))
                },
                None => old(self).slots()[i as int] is None && *final(self) == *old(self),
            },
    {
        if self.elems[i].is_some() {
            let ghost s = self.elems@;
            let e = self.elems[i].as_mut().unwrap();
            let k = &e.key;
            let v = &mut e.value;
            proof {
                lemma_revalue(s, i as int, *final(v));
            }
            Some((k, v))
        } else {
            None
        }
    }
}

} // verus!
