//! Access to the values of one key, with the possibility to add one.
use vstd::prelude::*;
use vstd::std_specs::hash::obeys_key_model;
use std::hash::Hash;

use crate::map::{EntryValuesMut, TotalOrderMultiMap};
use crate::model::{lemma_has_key_values, positions, values_of};

verus! {

/// The place of one key in a map, obtained with `TotalOrderMultiMap::entry`.
#[derive(Debug)]
pub struct Entry<'a, K: Hash + Eq + Copy, V> {
    map: &'a mut TotalOrderMultiMap<K, V>,
    key: K,
}

impl<'a, K: Hash + Eq + Copy, V> Entry<'a, K, V> {
    /// The key of this entry.
    pub closed spec fn entry_key(&self) -> K {
        self.key
    }

    /// The pairs of the map this entry belongs to, in insertion order.
    pub closed spec fn map_view(&self) -> Seq<(K, V)> {
        self.map@
    }

    /// The borrow of the map this entry holds.
    pub closed spec fn map_ref(&self) -> &'a mut TotalOrderMultiMap<K, V> {
        self.map
    }
}

impl<'a, K: Hash + Eq + Copy, V> Entry<'a, K, V> {
    #[verifier::type_invariant]
    spec fn map_well_formed(self) -> bool {
        &&& self.map.well_formed()
        &&& obeys_key_model::<K>()
    }

    /// The entry of `key` in `map`.
    pub(crate) fn new(map: &'a mut TotalOrderMultiMap<K, V>, key: K) -> (r: Self)
        requires
            old(map).well_formed(),
            obeys_key_model::<K>(),
        ensures
            r.entry_key() == key,
            r.map_view() == old(map)@,
            *r.map_ref() == *old(map),
            *final(map) == *final(r.map_ref()),
    {
        Entry { map, key }
    }

    /// When an entry is no longer used, the map it borrows ends with the
    /// value it has through the entry.
    pub proof fn lemma_resolved(self)
        requires
            has_resolved(self),
        ensures
            *final(self.map_ref()) == *self.map_ref(),
    {
    }

    /// The key used to create this entry.
    pub fn key(&self) -> (k: K)
        ensures
            k == self.entry_key(),
    {
        self.key
    }

    /// The number of values stored under the key of this entry.
    pub fn value_count(&self) -> (n: usize)
        ensures
            n == values_of(self.map_view(), self.entry_key()).len(),
    {
        proof {
            use_type_invariant(self);
            lemma_has_key_values(self.map_view(), self.key);
        }
        match self.map.get(self.key) {
            Some(vals) => vals.len(),
            None => 0,
        }
    }

    /// Adds a value under the key of this entry; returns mutable references
    /// to the values of the key afterwards, in insertion order, the new
    /// value last. What is written through them ends up in the map; the
    /// other pairs stay as `insert` left them.
    pub fn add(self, val: V) -> (r: EntryValuesMut<'a, K, V>)
        requires
            self.map_view().len() < usize::MAX,
        ensures
            ({
                let t = self.map_view().push((self.entry_key(), val));
                let k = self.entry_key();
                &&& r@.len() == values_of(t, k).len()
                &&& final(self.map_ref()).well_formed()
                &&& final(self.map_ref())@.len() == t.len()
                &&& forall|i: int|
                    0 <= i < t.len() && (#[trigger] t[i]).0 != k ==> final(self.map_ref())@[i]
                        == t[i]
                &&& forall|m: int|
                    0 <= m < r@.len() ==> {
                        &&& *(#[trigger] r@[m]) == values_of(t, k)[m]
                        &&& final(self.map_ref())@[positions(t, k)[m] as int] == (k, *final(r@[m]))
                    }
            }),
    {
        proof {
            use_type_invariant(&self);
        }
        let key = self.key;
        let map = self.map;
        map.insert(key, val);
        map.key_values_mut(key)
    }
}

} // verus!
