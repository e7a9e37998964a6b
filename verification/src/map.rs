//! The multi map itself: the pairs in insertion order and an index from
//! each key to the positions of its pairs.
use vstd::prelude::*;
use vstd::std_specs::hash::obeys_key_model;
use std::collections::HashMap;
use std::hash::Hash;
use std::marker::PhantomData;

use vstd::std_specs::cmp::PartialEqSpecImpl;
use vstd::std_specs::iter::IteratorSpec;

use crate::capacity::{hash_map_shrink_to_fit, vec_capacity, vec_shrink_to_fit};
use crate::entry::Entry;
use crate::laws::law_kept_is_filter;
use crate::iter::{pair_refs, take_reversed, Iter, IterMut};
use crate::map_iter::{
    group_items, seconds, split_at_positions, GroupMut, GroupedValues, GroupedValuesMut, Keys, Values, ValuesMut,
};
use crate::index::{
    index_add, index_entries, index_remove_last, key_list, lemma_group_keys, lemma_map_dom,
    lemma_map_keys, rebuild_index,
};
use crate::model::{
    has_group, has_key, key_set, kept, lemma_has_key_values, lemma_kept_len, lemma_positions,
    lemma_positions_reverse, lemma_positions_same_keys, lemma_without_absent_key, lemma_without_len,
    map_describes, pair_eq_follows_spec, pairs_equal, positions, values_of, without_key,
};

verus! {

/// A multi map which keeps the total order of the inserted pairs.
///
/// Iterating over the map gives the pairs in the order they were
/// inserted; `get` gives the values of one key, also in insertion order.
///
/// Internally the pairs are held in a `Vec` in insertion order, and a
/// `HashMap` holds, for every key, the positions of its pairs in that `Vec`.
#[derive(Debug)]
pub struct TotalOrderMultiMap<K, V> {
    vec_data: Vec<(K, V)>,
    map_access: HashMap<K, Vec<usize>>,
}

impl<K, V> View for TotalOrderMultiMap<K, V> {
    type V = Seq<(K, V)>;

    /// The key-value pairs of the map, in insertion order.
    closed spec fn view(&self) -> Seq<(K, V)> {
        self.vec_data@
    }
}

/// The values stored under one key, in insertion order; returned by `get`.
///
/// It hands out the values one by one with `next`.
#[derive(Debug)]
pub struct EntryValues<'a, K, V> {
    data: &'a Vec<(K, V)>,
    idxs: &'a Vec<usize>,
    pos: usize,
}

impl<'a, K, V> View for EntryValues<'a, K, V> {
    type V = Seq<V>;

    /// The values not handed out yet, in order.
    closed spec fn view(&self) -> Seq<V> {
        self.idxs@.subrange(self.pos as int, self.idxs@.len() as int).map_values(
            |i: usize| self.data@[i as int].1,
        )
    }
}

impl<'a, K, V> EntryValues<'a, K, V> {
    #[verifier::type_invariant]
    spec fn positions_in_range(self) -> bool {
        &&& self.pos <= self.idxs@.len()
        &&& forall|i: int| 0 <= i < self.idxs@.len() ==> #[trigger] self.idxs@[i] < self.data@.len()
    }

    /// The values at the positions `idxs` of `data`.
    pub(crate) fn new(data: &'a Vec<(K, V)>, idxs: &'a Vec<usize>) -> (r: Self)
        requires
            forall|i: int| 0 <= i < idxs@.len() ==> #[trigger] idxs@[i] < data@.len(),
        ensures
            r@ == idxs@.map_values(|i: usize| data@[i as int].1),
    {
        let r = EntryValues { data, idxs, pos: 0 };
        assert(r@ =~= idxs@.map_values(|i: usize| data@[i as int].1));
        r
    }

    /// Hands out the next value, if any is left.
    pub fn next(&mut self) -> (r: Option<&'a V>)
        ensures
            old(self)@.len() == 0 ==> r is None && final(self)@ == old(self)@,
            old(self)@.len() > 0 ==> (r matches Some(v) && *v == old(self)@[0] && final(self)@
                == old(self)@.drop_first()),
    {
        proof {
            use_type_invariant(&*self);
        }
        if self.pos < self.idxs.len() {
            let data: &'a Vec<(K, V)> = self.data;
            let i = self.idxs[self.pos];
            let ghost before = self@;
            self.pos = self.pos + 1;
            assert(self@ =~= before.drop_first());
            Some(&data[i].1)
        } else {
            None
        }
    }

    /// The number of values left.
    pub fn len(&self) -> (n: usize)
        ensures
            n == self@.len(),
    {
        proof {
            use_type_invariant(self);
        }
        self.idxs.len() - self.pos
    }

    /// The exact number of values left, as lower and upper bound.
    pub fn size_hint(&self) -> (r: (usize, Option<usize>))
        ensures
            r == (self@.len() as usize, Some(self@.len() as usize)),
    {
        let n = self.len();
        (n, Some(n))
    }
}

impl<'a, K, V> Clone for EntryValues<'a, K, V> {
    /// A second cursor over the same values, at the same place.
    fn clone(&self) -> (r: Self)
        ensures
            r@ == self@,
    {
        proof {
            use_type_invariant(self);
        }
        EntryValues { data: self.data, idxs: self.idxs, pos: self.pos }
    }
}

/// Mutable references to the values stored under one key, in insertion
/// order; returned by `Entry::add`. What is written through them ends up
/// in the map.
#[derive(Debug)]
pub struct EntryValuesMut<'a, K, V> {
    rev_items: Vec<&'a mut V>,
    keys: PhantomData<K>,
}

impl<'a, K, V> View for EntryValuesMut<'a, K, V> {
    type V = Seq<&'a mut V>;

    /// The references not handed out yet, in order.
    closed spec fn view(&self) -> Seq<&'a mut V> {
        self.rev_items@.reverse()
    }
}

impl<'a, K, V> EntryValuesMut<'a, K, V> {
    /// An iterator over the references `items`, in order.
    pub(crate) fn new(items: Vec<&'a mut V>) -> (r: Self)
        ensures
            r@ == items@,
    {
        let ghost s = items@;
        let mut items = items;
        let rev_items = take_reversed(&mut items);
        let r = EntryValuesMut { rev_items, keys: PhantomData };
        assert(r@ =~= s.reverse().reverse());
        r
    }

    /// When the iterator is no longer used, the values it did not hand out
    /// end as they are.
    pub proof fn lemma_resolved(self)
        requires
            has_resolved(self),
        ensures
            forall|i: int| 0 <= i < self@.len() ==> *final(#[trigger] self@[i]) == *self@[i],
    {
        assert forall|i: int| 0 <= i < self@.len() implies *final(#[trigger] self@[i])
            == *self@[i] by {
            let j = self.rev_items@.len() - 1 - i;
            assert(self@[i] == self.rev_items@[j]);
            assert(has_resolved(self.rev_items@[j]));
        }
    }

    /// Hands out the next reference, if any is left.
    pub fn next(&mut self) -> (r: Option<&'a mut V>)
        ensures
            old(self)@.len() == 0 ==> r is None && final(self)@ == old(self)@,
            old(self)@.len() > 0 ==> r == Some(old(self)@[0]) && final(self)@
                == old(self)@.drop_first(),
    {
        let ghost before = self.rev_items@;
        let r = self.rev_items.pop();
        assert(self@ =~= if before.len() > 0 { before.reverse().drop_first() } else { before.reverse() });
        r
    }

    /// The number of references left.
    pub fn len(&self) -> (n: usize)
        ensures
            n == self@.len(),
    {
        self.rev_items.len()
    }

    /// The exact number of references left, as lower and upper bound.
    pub fn size_hint(&self) -> (r: (usize, Option<usize>))
        ensures
            r == (self@.len() as usize, Some(self@.len() as usize)),
    {
        let n = self.rev_items.len();
        (n, Some(n))
    }
}

impl<K: Hash + Eq + Copy, V> TotalOrderMultiMap<K, V> {
    /// The index holds exactly the positions of every key.
    pub closed spec fn well_formed(&self) -> bool {
        &&& map_describes(self.map_access@, self.vec_data@)
        &&& self.vec_data@.len() <= usize::MAX
    }

    /// Creates a new empty map.
    pub fn new() -> (map: Self)
        ensures
            map.well_formed(),
            map@ == Seq::<(K, V)>::empty(),
    {
        TotalOrderMultiMap { vec_data: Vec::new(), map_access: HashMap::new() }
    }

    /// Returns the total number of pairs.
    pub fn len(&self) -> (n: usize)
        ensures
            n == self@.len(),
    {
        self.vec_data.len()
    }

    /// True if the map holds no pair.
    pub fn is_empty(&self) -> (b: bool)
        ensures
            b == (self@.len() == 0),
    {
        self.vec_data.len() == 0
    }

    /// Inserts a key-value pair and returns the new number of values of the key.
    pub fn insert(&mut self, key: K, value: V) -> (count: usize)
        requires
            old(self).well_formed(),
            obeys_key_model::<K>(),
            old(self)@.len() < usize::MAX,
        ensures
            final(self).well_formed(),
            final(self)@ == old(self)@.push((key, value)),
            count == values_of(final(self)@, key).len(),
    {
        let idx = self.vec_data.len();
        let ghost s = self.vec_data@;
        self.vec_data.push((key, value));
        let ghost t = self.vec_data@;
        assert(t.drop_last() =~= s);
        index_add::<K, V>(&mut self.map_access, Ghost(s), Ghost(t), key, idx)
    }

    /// Adds a key-value pair; returns the values of the key afterwards, in
    /// insertion order.
    pub fn add(&mut self, key: K, value: V) -> (r: EntryValues<'_, K, V>)
        requires
            old(self).well_formed(),
            obeys_key_model::<K>(),
            old(self)@.len() < usize::MAX,
        ensures
            final(self).well_formed(),
            final(self)@ == old(self)@.push((key, value)),
            r@ == values_of(final(self)@, key),
    {
        self.insert(key, value);
        let shared: &Self = self;
        proof {
            lemma_has_key_values(shared@, key);
        }
        shared.get(key).unwrap()
    }

    /// True if at least one value is stored under the key.
    pub fn contains_key(&self, k: K) -> (b: bool)
        requires
            self.well_formed(),
            obeys_key_model::<K>(),
        ensures
            b == has_key(self@, k),
    {
        proof {
            lemma_map_keys(self.map_access@, self.vec_data@, k);
        }
        self.map_access.contains_key(&k)
    }

    /// Removes and returns the pair inserted last.
    pub fn pop(&mut self) -> (r: Option<(K, V)>)
        requires
            old(self).well_formed(),
            obeys_key_model::<K>(),
        ensures
            final(self).well_formed(),
            old(self)@.len() == 0 ==> r is None && final(self)@ == old(self)@,
            old(self)@.len() > 0 ==> r == Some(old(self)@.last()) && final(self)@
                == old(self)@.drop_last(),
    {
        if self.vec_data.len() == 0 {
            return None;
        }
        let last = self.vec_data.len() - 1;
        let k = self.vec_data[last].0;
        index_remove_last::<K, V>(&mut self.map_access, Ghost(self.vec_data@), k, last);
        self.vec_data.pop()
    }

    /// Creates an empty map with room for `capacity` pairs and keys.
    ///
    /// Panics, as std's `Vec::with_capacity` and `HashMap::with_capacity`
    /// do, when the room asked for exceeds what can be allocated; the
    /// contract does not exclude such a `capacity`, since the exact bound
    /// depends on the size of the pairs and on the `HashMap`'s layout.
    pub fn with_capacity(capacity: usize) -> (map: Self)
        ensures
            map.well_formed(),
            map@ == Seq::<(K, V)>::empty(),
    {
        TotalOrderMultiMap {
            vec_data: Vec::with_capacity(capacity),
            map_access: HashMap::with_capacity(capacity),
        }
    }

    /// The capacity of the vector of pairs; at least the number of pairs.
    pub fn capacity(&self) -> (cap: usize)
        ensures
            cap >= self@.len(),
    {
        vec_capacity(&self.vec_data)
    }

    /// Reserves room for `additional` more pairs and keys.
    ///
    /// Panics, as std's `Vec::reserve` and `HashMap::reserve` do, when the
    /// new capacity overflows what can be allocated; the contract does not
    /// exclude such an `additional`, since the exact bound depends on the
    /// size of the pairs and on the `HashMap`'s layout.
    pub fn reserve(&mut self, additional: usize)
        requires
            old(self).well_formed(),
        ensures
            final(self).well_formed(),
            final(self)@ == old(self)@,
    {
        self.vec_data.reserve(additional);
        self.map_access.reserve(additional);
    }

    /// Gives back spare capacity of the vector of pairs, of the index and
    /// of the position lists in the index.
    pub fn shrink_to_fit(&mut self)
        requires
            old(self).well_formed(),
            obeys_key_model::<K>(),
        ensures
            final(self).well_formed(),
            final(self)@ == old(self)@,
    {
        vec_shrink_to_fit(&mut self.vec_data);
        hash_map_shrink_to_fit(&mut self.map_access);
        let ghost m0 = self.map_access@;
        let keys = key_list(&self.map_access);
        let mut a: usize = 0;
        while a < keys.len()
            invariant
                a <= keys@.len(),
                obeys_key_model::<K>(),
                keys@.no_duplicates(),
                forall|k: K| keys@.contains(k) <==> m0.contains_key(k),
                map_describes(m0, self.vec_data@),
                self.vec_data@ == old(self).vec_data@,
                self.vec_data@.len() <= usize::MAX,
                self.map_access@.dom() == m0.dom(),
                forall|k: K| #[trigger] self.map_access@.contains_key(k) ==> self.map_access@[k]@ == m0[k]@,
            decreases keys@.len() - a,
        {
            let k = keys[a];
            assert(keys@.contains(k));
            let mut idxs = self.map_access.remove(&k).unwrap();
            vec_shrink_to_fit(&mut idxs);
            self.map_access.insert(k, idxs);
            assert(self.map_access@.dom() =~= m0.dom());
            a += 1;
        }
        assert forall|i: int| 0 <= i < self.vec_data@.len() implies self.map_access@.contains_key(
            #[trigger] self.vec_data@[i].0,
        ) by {
            assert(m0.contains_key(self.vec_data@[i].0));
        }
    }

    /// The number of different keys.
    pub fn key_count(&self) -> (n: usize)
        requires
            self.well_formed(),
            obeys_key_model::<K>(),
        ensures
            n == key_set(self@).len(),
    {
        proof {
            lemma_map_dom(self.map_access@, self.vec_data@);
        }
        self.map_access.len()
    }

    /// Removes all pairs.
    pub fn clear(&mut self)
        ensures
            final(self).well_formed(),
            final(self)@ == Seq::<(K, V)>::empty(),
    {
        self.map_access.clear();
        self.vec_data.clear();
    }

    /// The values stored under `k` in insertion order, or `None` if there
    /// are none.
    pub fn get(&self, k: K) -> (r: Option<EntryValues<'_, K, V>>)
        requires
            self.well_formed(),
            obeys_key_model::<K>(),
        ensures
            r is Some <==> has_key(self@, k),
            r matches Some(vals) ==> vals@ == values_of(self@, k),
    {
        proof {
            lemma_map_keys(self.map_access@, self.vec_data@, k);
            lemma_positions(self.vec_data@, k);
        }
        match self.map_access.get(&k) {
            None => None,
            Some(idxs) => {
                assert(idxs@ == positions(self.vec_data@, k));
                let vals = EntryValues::new(&self.vec_data, idxs);
                assert(vals@ =~= values_of(self@, k));
                Some(vals)
            },
        }
    }

    /// Reverses the insertion order, of all pairs and of the values of each key.
    pub fn reverse(&mut self)
        requires
            old(self).well_formed(),
            obeys_key_model::<K>(),
        ensures
            final(self).well_formed(),
            final(self)@ == old(self)@.reverse(),
    {
        let n = self.vec_data.len();
        let ghost s = self.vec_data@;
        let ghost m0 = self.map_access@;
        let rev = take_reversed(&mut self.vec_data);
        self.vec_data = rev;
        let keys = key_list(&self.map_access);
        let mut a: usize = 0;
        while a < keys.len()
            invariant
                a <= keys@.len(),
                obeys_key_model::<K>(),
                keys@.no_duplicates(),
                forall|k: K| keys@.contains(k) <==> m0.contains_key(k),
                map_describes(m0, s),
                n == s.len(),
                s.len() <= usize::MAX,
                self.vec_data@ == s.reverse(),
                self.map_access@.dom() == m0.dom(),
                forall|b: int|
                    0 <= b < a ==> self.map_access@[#[trigger] keys@[b]]@ == m0[keys@[b]]@.reverse().map_values(
                        |p: usize| (n - 1 - p) as usize,
                    ),
                forall|b: int| a <= b < keys@.len() ==> self.map_access@[#[trigger] keys@[b]] == m0[keys@[b]],
            decreases keys@.len() - a,
        {
            let k = keys[a];
            assert(keys@.contains(k));
            assert(self.map_access@[keys@[a as int]] == m0[k]);
            let ghost before = self.map_access@;
            let old_idxs = self.map_access.remove(&k).unwrap();
            let len = old_idxs.len();
            proof {
                lemma_positions(s, k);
            }
            assert(old_idxs@ == positions(s, k));
            let mut new_idxs: Vec<usize> = Vec::with_capacity(len);
            let mut m = len;
            while m > 0
                invariant
                    m <= len,
                    len == old_idxs@.len(),
                    new_idxs@.len() == len - m,
                    forall|i: int| 0 <= i < len ==> #[trigger] old_idxs@[i] < n,
                    forall|i: int|
                        0 <= i < new_idxs@.len() ==> #[trigger] new_idxs@[i] == n - 1 - old_idxs@[len
                            - 1 - i],
                decreases m,
            {
                m -= 1;
                assert(old_idxs@[m as int] < n);
                new_idxs.push(n - 1 - old_idxs[m]);
            }
            assert(new_idxs@ =~= old_idxs@.reverse().map_values(|p: usize| (n - 1 - p) as usize));
            self.map_access.insert(k, new_idxs);
            proof {
                let after = self.map_access@;
                assert(after.dom() =~= m0.dom());
                assert forall|b: int| 0 <= b < a + 1 implies after[#[trigger] keys@[b]]@
                    == m0[keys@[b]]@.reverse().map_values(|p: usize| (n - 1 - p) as usize) by {
                    if b < a {
                        assert(keys@[b] != k);
                    }
                }
                assert forall|b: int| a + 1 <= b < keys@.len() implies after[#[trigger] keys@[b]]
                    == m0[keys@[b]] by {
                    assert(keys@[b] != k);
                }
            }
            a += 1;
        }
        proof {
            let r = s.reverse();
            let h = self.map_access@;
            assert forall|k: K| #[trigger] h.contains_key(k) implies h[k]@ == positions(r, k)
                && h[k]@.len() > 0 by {
                assert(keys@.contains(k));
                let b = choose|b: int| 0 <= b < keys@.len() && keys@[b] == k;
                lemma_positions_reverse(s, k);
                assert(h[keys@[b]]@ == m0[k]@.reverse().map_values(|p: usize| (n - 1 - p) as usize));
            }
            assert forall|i: int| 0 <= i < r.len() implies h.contains_key(#[trigger] r[i].0) by {
                assert(r[i] == s[s.len() - 1 - i]);
                assert(m0.contains_key(s[s.len() - 1 - i].0));
            }
        }
    }

    /// Removes all pairs with key `key_to_remove`; true if there was one.
    pub fn remove_all(&mut self, key_to_remove: K) -> (removed: bool)
        requires
            old(self).well_formed(),
            obeys_key_model::<K>(),
        ensures
            final(self).well_formed(),
            removed == has_key(old(self)@, key_to_remove),
            final(self)@ == without_key(old(self)@, key_to_remove),
    {
        let ghost s = self.vec_data@;
        let ghost m0 = self.map_access@;
        proof {
            lemma_map_keys(m0, s, key_to_remove);
            lemma_positions(s, key_to_remove);
        }
        match self.map_access.remove(&key_to_remove) {
            None => {
                proof {
                    assert(self.map_access@ =~= m0);
                    lemma_without_absent_key(s, key_to_remove);
                }
                false
            },
            Some(pos) => {
                assert(pos@ == positions(s, key_to_remove));
                let n = self.vec_data.len();
                let mut rev = take_reversed(&mut self.vec_data);
                let mut out: Vec<(K, V)> = Vec::new();
                let mut i: usize = 0;
                let mut j: usize = 0;
                assert(s.take(0) =~= Seq::<(K, V)>::empty());
                while i < n
                    invariant
                        n == s.len(),
                        i <= n,
                        rev@.len() == n - i,
                        forall|q: int| 0 <= q < rev@.len() ==> #[trigger] rev@[q] == s[s.len() - 1 - q],
                        out@ == without_key(s.take(i as int), key_to_remove),
                        j <= pos@.len(),
                        pos@ == positions(s, key_to_remove),
                        forall|q: int| #![trigger pos@[q]] 0 <= q < j ==> pos@[q] < i,
                        forall|q: int| #![trigger pos@[q]] j <= q < pos@.len() ==> pos@[q] >= i,
                        forall|q: int|
                            #![trigger pos@[q]]
                            0 <= q < pos@.len() ==> pos@[q] < s.len() && s[pos@[q] as int].0
                                == key_to_remove,
                        forall|q1: int, q2: int|
                            0 <= q1 < q2 < pos@.len() ==> pos@[q1] < pos@[q2],
                        forall|p: int|
                            0 <= p < s.len() && #[trigger] s[p].0 == key_to_remove ==> exists|q: int|
                                0 <= q < pos@.len() && pos@[q] == p,
                    decreases n - i,
                {
                    assert(rev@[rev@.len() - 1] == s[i as int]);
                    let p = rev.pop().unwrap();
                    assert(s.take(i + 1).drop_last() =~= s.take(i as int));
                    assert(s.take(i + 1).last() == p);
                    if j < pos.len() && pos[j] == i {
                        j += 1;
                    } else {
                        assert(p.0 != key_to_remove) by {
                            if p.0 == key_to_remove {
                                assert(s[i as int].0 == key_to_remove);
                                let q = choose|q: int| 0 <= q < pos@.len() && pos@[q] == i;
                                if q < j {
                                    assert(pos@[q] < i);
                                } else if q > j {
                                    assert(pos@[j as int] < pos@[q]);
                                }
                            }
                        }
                        out.push(p);
                    }
                    i += 1;
                }
                assert(s.take(s.len() as int) =~= s);
                self.vec_data = out;
                self.map_access = rebuild_index(&self.vec_data);
                proof {
                    lemma_without_len(s, key_to_remove);
                }
                true
            },
        }
    }

    /// Keeps only the pairs for which `func` returns true, in their order.
    ///
    /// `func` is called once for every pair, in insertion order.
    pub fn retain<FN>(&mut self, mut func: FN)
        where
            FN: FnMut(K, &V) -> bool,
        requires
            old(self).well_formed(),
            obeys_key_model::<K>(),
            forall|i: int|
                0 <= i < old(self)@.len() ==> call_requires(
                    func,
                    (old(self)@[i].0, &old(self)@[i].1),
                ),
        ensures
            final(self).well_formed(),
            exists|keep: Seq<bool>|
                {
                    &&& keep.len() == old(self)@.len()
                    &&& forall|i: int|
                        0 <= i < keep.len() ==> call_ensures(
                            func,
                            (old(self)@[i].0, &old(self)@[i].1),
                            #[trigger] keep[i],
                        )
                    &&& final(self)@ == kept(old(self)@, keep)
                },
            forall|p: spec_fn((K, V)) -> bool|
                (forall|i: int, b: bool|
                    0 <= i < old(self)@.len() && #[trigger] call_ensures(
                        func,
                        (old(self)@[i].0, &old(self)@[i].1),
                        b,
                    ) ==> b == p(old(self)@[i])) ==> final(self)@ == old(self)@.filter(p),
    {
        let ghost s = self.vec_data@;
        let ghost func0 = func;
        assert forall|i: int| 0 <= i < s.len() implies call_requires(func0, (s[i].0, &s[i].1)) by {
            assert(s[i] == old(self)@[i]);
        }
        let mut rev = take_reversed(&mut self.vec_data);
        let mut out: Vec<(K, V)> = Vec::new();
        let ghost mut keep: Seq<bool> = Seq::empty();
        assert(s.take(0) =~= Seq::<(K, V)>::empty());
        while rev.len() > 0
            invariant
                rev@.len() <= s.len(),
                forall|i: int| 0 <= i < rev@.len() ==> #[trigger] rev@[i] == s[s.len() - 1 - i],
                keep.len() == s.len() - rev@.len(),
                forall|i: int|
                    0 <= i < keep.len() ==> call_ensures(func0, (s[i].0, &s[i].1), #[trigger] keep[i]),
                out@ == kept(s.take(keep.len() as int), keep),
                forall|i: int| 0 <= i < s.len() ==> call_requires(func0, (s[i].0, &s[i].1)),
                func == func0,
            decreases rev@.len(),
        {
            let ghost c: int = keep.len() as int;
            let p = rev.pop().unwrap();
            assert(p == s[c as int]);
            let b = func(p.0, &p.1);
            let ghost keep0 = keep;
            proof {
                keep = keep.push(b);
            }
            assert(s.take(c + 1).drop_last() =~= s.take(c));
            assert(s.take(c + 1).last() == p);
            assert(keep.drop_last() =~= keep0);
            if b {
                out.push(p);
            }
        }
        assert(s.take(s.len() as int) =~= s);
        self.vec_data = out;
        self.map_access = rebuild_index(&self.vec_data);
        proof {
            lemma_kept_len(s, keep);
            assert forall|p: spec_fn((K, V)) -> bool|
                (forall|i: int, b: bool|
                    0 <= i < s.len() && #[trigger] call_ensures(func0, (s[i].0, &s[i].1), b) ==> b
                        == p(s[i])) implies kept(s, keep) == s.filter(p) by {
                assert forall|i: int| 0 <= i < s.len() implies #[trigger] keep[i] == p(s[i]) by {
                    assert(call_ensures(func0, (s[i].0, &s[i].1), keep[i]));
                }
                law_kept_is_filter(s, keep, p);
            }
        }
    }

    /// Iterator over the key-value pairs in insertion order; a key appears
    /// once for each of its values.
    pub fn iter(&self) -> (r: Iter<'_, K, V>)
        ensures
            r@ == self@,
    {
        Iter::new(&self.vec_data)
    }

    /// Iterator over the keys and mutable references to the values, in
    /// insertion order. What is written through the references ends up in
    /// the map.
    pub fn iter_mut(&mut self) -> (r: IterMut<'_, K, V>)
        requires
            old(self).well_formed(),
        ensures
            final(self).well_formed(),
            r@.len() == old(self)@.len(),
            final(self)@.len() == old(self)@.len(),
            forall|i: int|
                0 <= i < r@.len() ==> {
                    &&& (#[trigger] r@[i]).0 == old(self)@[i].0
                    &&& *r@[i].1 == old(self)@[i].1
                    &&& final(self)@[i] == (old(self)@[i].0, *final(r@[i].1))
                },
    {
        let ghost g = self.map_access@;
        let ghost s = self.vec_data@;
        let ghost f = final(self).vec_data@;
        let items = pair_refs(&mut self.vec_data);
        proof {
            assert forall|i: int| 0 <= i < f.len() implies (#[trigger] f[i]).0 == s[i].0 by {
                assert(items@[i].0 == s[i].0);
            }
            assert forall|k: K| positions(f, k) == positions(s, k) by {
                lemma_positions_same_keys(f, s, k);
            }
            assert forall|i: int| 0 <= i < f.len() implies g.contains_key(#[trigger] f[i].0) by {
                assert(f[i].0 == s[i].0);
            }
        }
        IterMut::new(items)
    }

    /// Iterator over the keys; every key comes exactly once, in no fixed order.
    pub fn keys(&self) -> (r: Keys<'_, K>)
        requires
            self.well_formed(),
            obeys_key_model::<K>(),
        ensures
            r@.no_duplicates(),
            forall|k: K| r@.contains(k) <==> has_key(self@, k),
    {
        let list = key_list(&self.map_access);
        proof {
            assert forall|k: K| list@.contains(k) <==> has_key(self@, k) by {
                lemma_map_keys(self.map_access@, self.vec_data@, k);
            }
        }
        Keys::new(list)
    }

    /// Iterator over the values grouped by key: one group per key, in no
    /// fixed order, each with the values of its key in insertion order.
    pub fn group_iter(&self) -> (r: GroupedValues<'_, K, V>)
        requires
            self.well_formed(),
            obeys_key_model::<K>(),
        ensures
            forall|a: int, b: int|
                #![trigger r@[a], r@[b]]
                0 <= a < r@.len() && 0 <= b < r@.len() && a != b ==> r@[a].0 != r@[b].0,
            forall|k: K| has_key(self@, k) <==> exists|a: int| 0 <= a < r@.len() && #[trigger] r@[a].0 == k,
            forall|a: int| 0 <= a < r@.len() ==> (#[trigger] r@[a]).1 == values_of(self@, r@[a].0),
    {
        let ghost s = self.vec_data@;
        let entries = index_entries::<K, V>(&self.map_access, Ghost(s));
        let ghost g = entries@;
        proof {
            assert forall|a: int, i: int|
                0 <= a < g.len() && 0 <= i < g[a].1@.len() implies #[trigger] g[a].1@[i] < s.len() by {
                lemma_positions(s, g[a].0);
                assert(g[a].1@ == positions(s, g[a].0));
            }
        }
        let r = GroupedValues::new(&self.vec_data, entries);
        proof {
            assert forall|a: int| 0 <= a < r@.len() implies (#[trigger] r@[a]).1 == values_of(
                s,
                r@[a].0,
            ) by {
                lemma_positions(s, g[a].0);
                assert(g[a].1@ == positions(s, g[a].0));
                assert(r@[a].1 =~= values_of(s, g[a].0));
            }
            assert forall|k: K| has_key(s, k) <==> exists|a: int| 0 <= a < r@.len() && #[trigger] r@[a].0
                == k by {
                lemma_group_keys(g, s, k);
                if has_group(g, k) {
                    let a = choose|a: int| 0 <= a < g.len() && (#[trigger] g[a]).0 == k;
                    assert(r@[a].0 == k);
                }
                if exists|a: int| 0 <= a < r@.len() && #[trigger] r@[a].0 == k {
                    let a = choose|a: int| 0 <= a < r@.len() && #[trigger] r@[a].0 == k;
                    assert(g[a].0 == k);
                }
            }
            assert forall|a: int, b: int|
                #![trigger r@[a], r@[b]]
                0 <= a < r@.len() && 0 <= b < r@.len() && a != b implies r@[a].0 != r@[b].0 by {
                assert(g[a].0 != g[b].0);
            }
        }
        r
    }

    /// Iterator over the values grouped by key, handing out mutable
    /// references: one group per key, in no fixed order, each with the
    /// values of its key in insertion order. What is written through the
    /// references ends up in the map.
    pub fn group_iter_mut(&mut self) -> (r: GroupedValuesMut<'_, K, V>)
        requires
            old(self).well_formed(),
            obeys_key_model::<K>(),
        ensures
            final(self).well_formed(),
            final(self)@.len() == old(self)@.len(),
            forall|i: int| 0 <= i < old(self)@.len() ==> (#[trigger] final(self)@[i]).0 == old(self)@[i].0,
            forall|a: int, b: int|
                #![trigger r@[a], r@[b]]
                0 <= a < r@.len() && 0 <= b < r@.len() && a != b ==> r@[a].group_key()
                    != r@[b].group_key(),
            forall|k: K|
                has_key(old(self)@, k) <==> exists|a: int|
                    0 <= a < r@.len() && #[trigger] r@[a].group_key() == k,
            forall|a: int|
                0 <= a < r@.len() ==> (#[trigger] r@[a])@.len() == values_of(
                    old(self)@,
                    r@[a].group_key(),
                ).len(),
            forall|a: int, m: int|
                #![trigger r@[a]@[m]]
                0 <= a < r@.len() && 0 <= m < r@[a]@.len() ==> {
                    &&& *r@[a]@[m] == values_of(old(self)@, r@[a].group_key())[m]
                    &&& final(self)@[positions(old(self)@, r@[a].group_key())[m] as int].1
                        == *final(r@[a]@[m])
                },
    {
        let ghost m0 = self.map_access@;
        let ghost s = self.vec_data@;
        let ghost f = final(self).vec_data@;
        let entries = index_entries::<K, V>(&self.map_access, Ghost(s));
        let ghost g = entries@;
        let items = pair_refs(&mut self.vec_data);
        let ghost its = items@;
        let grouped = group_items::<K, V, &mut V>(&entries, items, Ghost(s));
        let ghost gr = grouped@;
        let mut rev = take_reversed(&mut { grouped });
        let mut groups: Vec<GroupMut<'_, K, V>> = Vec::new();
        while rev.len() > 0
            invariant
                groups@.len() + rev@.len() == gr.len(),
                forall|q: int| 0 <= q < rev@.len() ==> #[trigger] rev@[q] == gr[gr.len() - 1 - q],
                forall|b: int|
                    0 <= b < groups@.len() ==> (#[trigger] groups@[b]).group_key() == gr[b].0
                        && groups@[b]@ == gr[b].1@,
            decreases rev@.len(),
        {
            let ghost c = groups@.len();
            assert(rev@[rev@.len() - 1] == gr[c as int]);
            let (k, vs) = rev.pop().unwrap();
            groups.push(GroupMut::new(k, vs));
        }
        let r = GroupedValuesMut::new(groups);
        proof {
            assert forall|i: int| 0 <= i < f.len() implies (#[trigger] f[i]).0 == s[i].0 by {
                assert(its[i].0 == s[i].0);
            }
            assert forall|k: K| positions(f, k) == positions(s, k) by {
                lemma_positions_same_keys(f, s, k);
            }
            assert forall|i: int| 0 <= i < f.len() implies m0.contains_key(#[trigger] f[i].0) by {
                assert(f[i].0 == s[i].0);
            }
            assert forall|a: int| 0 <= a < r@.len() implies (#[trigger] r@[a])@.len() == values_of(
                s,
                r@[a].group_key(),
            ).len() by {
                lemma_positions(s, g[a].0);
            }
            assert forall|a: int, m: int|
                #![trigger r@[a]@[m]]
                0 <= a < r@.len() && 0 <= m < r@[a]@.len() implies {
                    &&& *r@[a]@[m] == values_of(s, r@[a].group_key())[m]
                    &&& f[positions(s, r@[a].group_key())[m] as int].1 == *final(r@[a]@[m])
                } by {
                lemma_positions(s, g[a].0);
                let p = positions(s, g[a].0)[m];
                assert(r@[a]@[m] == its[p as int].1);
            }
            assert forall|k: K|
                has_key(s, k) <==> exists|a: int| 0 <= a < r@.len() && #[trigger] r@[a].group_key() == k by {
                lemma_group_keys(g, s, k);
                if has_group(g, k) {
                    let a = choose|a: int| 0 <= a < g.len() && (#[trigger] g[a]).0 == k;
                    assert(r@[a].group_key() == k);
                }
                if exists|a: int| 0 <= a < r@.len() && #[trigger] r@[a].group_key() == k {
                    let a = choose|a: int| 0 <= a < r@.len() && #[trigger] r@[a].group_key() == k;
                    assert(g[a].0 == k);
                }
            }
            assert forall|a: int, b: int|
                #![trigger r@[a], r@[b]]
                0 <= a < r@.len() && 0 <= b < r@.len() && a != b implies r@[a].group_key()
                != r@[b].group_key() by {
                assert(g[a].0 != g[b].0);
            }
        }
        r
    }

    /// Iterator over the values in insertion order.
    pub fn values(&self) -> (r: Values<'_, K, V>)
        ensures
            r@ == self@.map_values(|p: (K, V)| p.1),
    {
        Values::new(&self.vec_data)
    }

    /// Iterator over mutable references to the values, in insertion order.
    /// What is written through the references ends up in the map.
    pub fn values_mut(&mut self) -> (r: ValuesMut<'_, K, V>)
        requires
            old(self).well_formed(),
        ensures
            final(self).well_formed(),
            r@.len() == old(self)@.len(),
            final(self)@.len() == old(self)@.len(),
            forall|i: int|
                0 <= i < r@.len() ==> {
                    &&& *(#[trigger] r@[i]) == old(self)@[i].1
                    &&& final(self)@[i] == (old(self)@[i].0, *final(r@[i]))
                },
    {
        let ghost g = self.map_access@;
        let ghost s = self.vec_data@;
        let ghost f = final(self).vec_data@;
        let items = pair_refs(&mut self.vec_data);
        let ghost its = items@;
        let refs = seconds(items);
        proof {
            assert forall|i: int| 0 <= i < f.len() implies (#[trigger] f[i]).0 == s[i].0 by {
                assert(its[i].0 == s[i].0);
            }
            assert forall|k: K| positions(f, k) == positions(s, k) by {
                lemma_positions_same_keys(f, s, k);
            }
            assert forall|i: int| 0 <= i < f.len() implies g.contains_key(#[trigger] f[i].0) by {
                assert(f[i].0 == s[i].0);
            }
            assert forall|i: int| 0 <= i < refs@.len() implies *(#[trigger] refs@[i]) == s[i].1 && f[i]
                == (s[i].0, *final(refs@[i])) by {
                assert(refs@[i] == its[i].1);
            }
        }
        ValuesMut::new(refs)
    }

    /// Mutable references to the values stored under `k`, in insertion
    /// order; what is written through them ends up in the map, and the
    /// other pairs stay as they are.
    pub(crate) fn key_values_mut(&mut self, k: K) -> (r: EntryValuesMut<'_, K, V>)
        requires
            old(self).well_formed(),
            obeys_key_model::<K>(),
        ensures
            final(self).well_formed(),
            final(self)@.len() == old(self)@.len(),
            forall|i: int|
                0 <= i < old(self)@.len() && (#[trigger] old(self)@[i]).0 != k ==> final(self)@[i]
                    == old(self)@[i],
            r@.len() == values_of(old(self)@, k).len(),
            forall|m: int|
                0 <= m < r@.len() ==> {
                    &&& *(#[trigger] r@[m]) == values_of(old(self)@, k)[m]
                    &&& final(self)@[positions(old(self)@, k)[m] as int] == (k, *final(r@[m]))
                },
    {
        let ghost m0 = self.map_access@;
        let ghost s = self.vec_data@;
        let ghost f = final(self).vec_data@;
        proof {
            lemma_map_keys(m0, s, k);
            lemma_positions(s, k);
        }
        let empty: Vec<usize> = Vec::new();
        let pos: &Vec<usize> = match self.map_access.get(&k) {
            Some(p) => p,
            None => &empty,
        };
        assert(pos@ == positions(s, k));
        let items = pair_refs(&mut self.vec_data);
        let ghost its = items@;
        let refs = seconds(items);
        let ghost rs = refs@;
        let (sel, rest) = split_at_positions(refs, pos);
        proof {
            assert forall|i: int| 0 <= i < f.len() implies (#[trigger] f[i]).0 == s[i].0 by {
                assert(its[i].0 == s[i].0);
            }
            assert forall|kk: K| positions(f, kk) == positions(s, kk) by {
                lemma_positions_same_keys(f, s, kk);
            }
            assert forall|i: int| 0 <= i < f.len() implies m0.contains_key(#[trigger] f[i].0) by {
                assert(f[i].0 == s[i].0);
            }
            assert(has_resolved(rest));
            assert forall|i: int| 0 <= i < s.len() && (#[trigger] s[i]).0 != k implies f[i] == s[i] by {
                assert(rs[i] == its[i].1);
                assert(!pos@.contains(i as usize)) by {
                    if pos@.contains(i as usize) {
                        let q = choose|q: int| 0 <= q < pos@.len() && pos@[q] == i as usize;
                        assert(s[pos@[q] as int].0 == k);
                    }
                }
                assert(rest@.contains(rs[i]));
                let w = choose|w: int| 0 <= w < rest@.len() && rest@[w] == rs[i];
                assert(has_resolved(rest@[w]));
            }
        }
        let r = EntryValuesMut::new(sel);
        proof {
            assert forall|m: int| 0 <= m < r@.len() implies {
                &&& *(#[trigger] r@[m]) == values_of(s, k)[m]
                &&& f[positions(s, k)[m] as int] == (k, *final(r@[m]))
            } by {
                let p = pos@[m];
                assert(r@[m] == rs[p as int]);
                assert(rs[p as int] == its[p as int].1);
            }
        }
        r
    }

    /// The entry of `key`, to look at or add to its values.
    pub fn entry(&mut self, key: K) -> (r: Entry<'_, K, V>)
        requires
            old(self).well_formed(),
            obeys_key_model::<K>(),
        ensures
            r.entry_key() == key,
            r.map_view() == old(self)@,
            *r.map_ref() == *old(self),
            *final(self) == *final(r.map_ref()),
    {
        Entry::new(self, key)
    }

    /// Adds the pairs of `src` in their order, as `insert` would one by one.
    pub fn extend(&mut self, src: Vec<(K, V)>)
        requires
            old(self).well_formed(),
            obeys_key_model::<K>(),
            old(self)@.len() + src@.len() <= usize::MAX,
        ensures
            final(self).well_formed(),
            final(self)@ == old(self)@ + src@,
    {
        let ghost s0 = self@;
        let ghost add = src@;
        let mut src = src;
        let mut rev = take_reversed(&mut src);
        while rev.len() > 0
            invariant
                self.well_formed(),
                obeys_key_model::<K>(),
                s0.len() + add.len() <= usize::MAX,
                rev@.len() <= add.len(),
                forall|q: int| 0 <= q < rev@.len() ==> #[trigger] rev@[q] == add[add.len() - 1 - q],
                self@ == s0 + add.take(add.len() - rev@.len()),
            decreases rev@.len(),
        {
            let ghost c: int = add.len() - rev@.len();
            assert(rev@[rev@.len() - 1] == add[c]);
            let (k, v) = rev.pop().unwrap();
            self.insert(k, v);
            assert(add.take(c + 1) =~= add.take(c).push(add[c]));
        }
        assert(add.take(add.len() as int) =~= add);
    }

    /// A map holding the pairs of `src`, in their order.
    pub fn from_iter(src: Vec<(K, V)>) -> (map: Self)
        requires
            obeys_key_model::<K>(),
        ensures
            map.well_formed(),
            map@ == src@,
    {
        let n = src.len();
        let mut out = if n > 0 {
            Self::with_capacity(n)
        } else {
            Self::new()
        };
        out.extend(src);
        assert(Seq::<(K, V)>::empty() + src@ =~= src@);
        out
    }
}

impl<K: Hash + Eq + Copy, V> Default for TotalOrderMultiMap<K, V> {
    /// An empty map.
    fn default() -> (map: Self)
        ensures
            map.well_formed(),
            map@ == Seq::<(K, V)>::empty(),
    {
        TotalOrderMultiMap::new()
    }
}

impl<K: Hash + Eq + Copy, V: Clone> Clone for TotalOrderMultiMap<K, V> {
    /// A map with the same keys, in the same order, and clones of the values.
    fn clone(&self) -> (r: Self)
        ensures
            self.well_formed() ==> r.well_formed(),
            r@.len() == self@.len(),
            forall|i: int|
                0 <= i < self@.len() ==> (#[trigger] r@[i]).0 == self@[i].0 && cloned::<V>(
                    self@[i].1,
                    r@[i].1,
                ),
    {
        let mut vec_data: Vec<(K, V)> = Vec::with_capacity(self.vec_data.len());
        let mut i: usize = 0;
        while i < self.vec_data.len()
            invariant
                i <= self.vec_data@.len(),
                vec_data@.len() == i,
                forall|j: int|
                    0 <= j < i ==> (#[trigger] vec_data@[j]).0 == self.vec_data@[j].0 && cloned::<V>(
                        self.vec_data@[j].1,
                        vec_data@[j].1,
                    ),
            decreases self.vec_data@.len() - i,
        {
            let v = self.vec_data[i].1.clone();
            vec_data.push((self.vec_data[i].0, v));
            i += 1;
        }
        let map_access = self.map_access.clone();
        proof {
            let s = self.vec_data@;
            let t = vec_data@;
            let h = map_access@;
            if self.well_formed() {
                assert forall|k: K| positions(t, k) == positions(s, k) by {
                    lemma_positions_same_keys(t, s, k);
                }
                assert forall|i: int| 0 <= i < t.len() implies h.contains_key(#[trigger] t[i].0) by {
                    assert(h.contains_key(s[i].0));
                }
            }
        }
        TotalOrderMultiMap { vec_data, map_access }
    }
}

impl<K: Hash + Eq + Copy, V: PartialEq> PartialEq for TotalOrderMultiMap<K, V> {
    /// Equal when the pairs are equal one by one, in insertion order.
    fn eq(&self, other: &Self) -> (r: bool) {
        if self.vec_data.len() != other.vec_data.len() {
            return false;
        }
        let mut i: usize = 0;
        while i < self.vec_data.len()
            invariant
                i <= self.vec_data@.len(),
                self.vec_data@.len() == other.vec_data@.len(),
                pair_eq_follows_spec::<K, V>() ==> pairs_equal(
                    self.vec_data@.take(i as int),
                    other.vec_data@.take(i as int),
                ),
            decreases self.vec_data@.len() - i,
        {
            if !(self.vec_data[i].0 == other.vec_data[i].0) {
                return false;
            }
            if !(self.vec_data[i].1 == other.vec_data[i].1) {
                return false;
            }
            i += 1;
        }
        assert(self.vec_data@.take(i as int) =~= self.vec_data@);
        assert(other.vec_data@.take(i as int) =~= other.vec_data@);
        true
    }
}

impl<K: Hash + Eq + Copy, V: PartialEq> PartialEqSpecImpl for TotalOrderMultiMap<K, V> {
    open spec fn obeys_eq_spec() -> bool {
        pair_eq_follows_spec::<K, V>()
    }

    open spec fn eq_spec(&self, other: &Self) -> bool {
        pairs_equal(self@, other@)
    }
}

impl<K: Hash + Eq + Copy, V: Eq> Eq for TotalOrderMultiMap<K, V> {

}

impl<K: Hash + Eq + Copy, V> IntoIterator for TotalOrderMultiMap<K, V> {
    type Item = (K, V);

    type IntoIter = std::vec::IntoIter<(K, V)>;

    /// The pairs, by value, in insertion order.
    fn into_iter(self) -> (r: Self::IntoIter)
        ensures
            IteratorSpec::remaining(&r) == self@,
    {
        broadcast use vstd::std_specs::vec::axiom_spec_into_iter;

        self.vec_data.into_iter()
    }
}

} // verus!
