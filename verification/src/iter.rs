//! Iteration over the entries in the order of the slots.

use vstd::prelude::*;
use std::hash::Hash;
use crate::key::AsByte;
use crate::listing::{entries_from, lemma_entries_after, lemma_entries_len};
use crate::map::HashMap;
use crate::slots::{lemma_occupied_bound, occupied, revalued, HashElem};

verus! {

/// Yields the keys of a map with their values, in the order of the slots.
pub struct Iter<'a, K: 'a, V: 'a> where K: Eq + Hash + AsByte {
    map: &'a HashMap<K, V>,
    at: usize,
    num_found: usize,
}

impl<'a, K: 'a, V: 'a> Iter<'a, K, V> where K: Eq + Hash + AsByte {
    /// The map that is iterated.
    pub closed spec fn table(&self) -> HashMap<K, V> {
        *self.map
    }

    /// The slot that is looked at next.
    pub closed spec fn position(&self) -> int {
        self.at as int
    }

    /// The number of entries yielded so far.
    pub closed spec fn found(&self) -> int {
        self.num_found as int
    }

    /// The iterator stands at a slot of a map that is in order, and has
    /// counted the entries before that slot.
    pub open spec fn wf(&self) -> bool {
        &&& self.table().wf()
        &&& 0 <= self.position() <= self.table().slots().len()
        &&& self.found() == occupied(self.table().slots().take(self.position()))
    }

    /// The entries still to come.
    pub open spec fn remaining(&self) -> Seq<(K, V)> {
        entries_from(self.table().slots(), self.position())
    }

    pub fn new(map: &'a HashMap<K, V>) -> (it: Self)
        requires
            map.wf(),
        ensures
            it.wf(),
            it.table() == *map,
            it.position() == 0,
            it.remaining() == map.entries(),
    {
        proof {
            assert(map.slots().take(0) =~= Seq::<Option<HashElem<K, V>>>::empty());
        }
        Self { map, at: 0, num_found: 0 }
    }

    /// The next entry, if one is left.
    pub fn next(&mut self) -> (r: Option<(&'a K, &'a V)>)
        requires
            old(self).wf(),
        ensures
            final(self).wf(),
            final(self).table() == old(self).table(),
            match r {
                Some((k, v)) => {
                    &&& old(self).remaining().len() > 0
                    &&& (*k, *v) == old(self).remaining()[0]
                    &&& final(self).remaining() == old(self).remaining().drop_first()
                },
                None => old(self).remaining().len() == 0 && final(self).remaining().len() == 0,
            },
    {
        loop
            invariant
                self.wf(),
                self.map == old(self).map,
                self.remaining() == old(self).remaining(),
            decreases self.map.slots().len() - self.at,
        {
            if self.at >= self.map.slot_count() {
                return None;
            }
            let ghost s = self.map.slots();
            let ghost at = self.at as int;
            proof {
                assert(s.take(at + 1).drop_last() =~= s.take(at));
                lemma_occupied_bound(s.take(at + 1));
            }
            let e = self.map.slot(self.at);
            self.at += 1;

            if let Some(e) = e {
                self.num_found += 1;
                proof {
                    assert(entries_from(s, at).drop_first() =~= entries_from(s, at + 1));
                }
                return Some((&e.key, &e.value));
            }
        }
    }

    /// The number of entries still to come, as the least and as the most.
    pub fn size_hint(&self) -> (r: (usize, Option<usize>))
        requires
            self.wf(),
        ensures
            r.0 == self.remaining().len(),
            r.1 == Some(r.0),
    {
        proof {
            lemma_entries_len(self.map.slots(), self.at as int);
            lemma_occupied_bound(self.map.slots());
        }
        let hint: usize = self.map.len() as usize - self.num_found;
        (hint, Some(hint))
    }
}

/// Yields the keys of a map, in the order of the slots.
pub struct Keys<'a, K: 'a, V: 'a> where K: Eq + Hash + AsByte {
    inner: Iter<'a, K, V>,
}

impl<'a, K: 'a, V: 'a> Keys<'a, K, V> where K: Eq + Hash + AsByte {
    /// The iterator over the entries that the keys are taken from.
    pub closed spec fn inner(&self) -> Iter<'a, K, V> {
        self.inner
    }

    pub fn new(inner: Iter<'a, K, V>) -> (keys: Self)
        ensures
            keys.inner() == inner,
    {
        Self { inner }
    }

    /// The key of the next entry, if one is left.
    pub fn next(&mut self) -> (r: Option<&'a K>)
        requires
            old(self).inner().wf(),
        ensures
            final(self).inner().wf(),
            final(self).inner().table() == old(self).inner().table(),
            match r {
                Some(k) => {
                    &&& old(self).inner().remaining().len() > 0
                    &&& *k == old(self).inner().remaining()[0].0
                    &&& final(self).inner().remaining() == old(self).inner().remaining().drop_first()
                },
                None => old(self).inner().remaining().len() == 0 && final(self).inner().remaining().len()
                    == 0,
            },
    {
        match self.inner.next() {
            Some((k, _)) => Some(k),
            None => None,
        }
    }
}

/// Yields the keys of a map with their values, in the order of the slots,
/// the values to be changed in place. The keys cannot be changed, and the
/// map cannot be touched otherwise while the iterator lives.
pub struct IterMut<'a, K: 'a, V: 'a> where K: Eq + Hash + AsByte {
    /// The map that is iterated. What it is when the iterator is gone is
    /// what the borrowed map is from then on.
    pub map: &'a mut HashMap<K, V>,
    /// The slot that is looked at next.
    pub at: usize,
}

impl<'a, K: 'a, V: 'a> IterMut<'a, K, V> where K: Eq + Hash + AsByte {
    /// The slot that is looked at next.
    pub open spec fn position(&self) -> int {
        self.at as int
    }

    /// The iterator stands at a slot of a map that is in order.
    pub open spec fn wf(&self) -> bool {
        &&& self.map.wf()
        &&& 0 <= self.position() <= self.map.slots().len()
    }

    /// The entries still to come.
    pub open spec fn remaining(&self) -> Seq<(K, V)> {
        entries_from(self.map.slots(), self.position())
    }

    pub fn new(map: &'a mut HashMap<K, V>) -> (it: Self)
        requires
            old(map).wf(),
        ensures
            it.wf(),
            *it.map == *old(map),
            *final(it.map) == *final(map),
            it.position() == 0,
            it.remaining() == old(map).entries(),
    {
        Self { map, at: 0 }
    }

    /// The next entry, if one is left. The value that the caller leaves in
    /// it is the value of its key from then on; nothing else changes.
    pub fn next(&mut self) -> (r: Option<(&K, &mut V)>)
        requires
            old(self).wf(),
        ensures
            final(self).wf(),
            *final(final(self).map) == *final(old(self).map),
            final(self).map.spec_len() == old(self).map.spec_len(),
            final(self).map.spec_capacity() == old(self).map.spec_capacity(),
            final(self).map.load_factor() == old(self).map.load_factor(),
            match r {
                Some((k, v)) => {
                    &&& old(self).remaining().len() > 0
                    &&& (*k, *v) == old(self).remaining()[0]
                    &&& final(self).remaining() == old(self).remaining().drop_first()
                    &&& final(self).map@ == old(self).map@.insert(*k, *final(v))
                    &&& final(self).map.slots() == revalued(
                        old(self).map.slots(),
                        final(self).position() - 1,
                        *final(v),
                    )
                },
                None => {
                    &&& old(self).remaining().len() == 0
                    &&& final(self).remaining().len() == 0
                    &&& *final(self).map == *old(self).map
                },
            },
    {
        loop
            invariant
                self.wf(),
                *self.map == *old(self).map,
                *final(self.map) == *final(old(self).map),
                self.remaining() == old(self).remaining(),
            decreases self.map.slots().len() - self.at,
        {
            if self.at >= self.map.slot_count() {
                return None;
            }
            let ghost s = self.map.slots();
            let i: usize = self.at;
            self.at += 1;
            if self.map.slot(i).is_some() {
                proof {
                    assert(entries_from(s, i as int).drop_first() =~= entries_from(s, i + 1));
                    assert forall|x: Option<HashElem<K, V>>| #[trigger]
                        entries_from(s.update(i as int, x), i + 1) == entries_from(s, i + 1) by {
                        lemma_entries_after(s, i as int, x, i + 1);
                    }
                }
                return self.map.slot_mut(i);
            }
        }
    }
}

} // verus!
