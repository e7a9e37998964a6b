//! Iteration over the keys, the values, and the values grouped by key.
use vstd::prelude::*;
use std::marker::PhantomData;

use crate::iter::take_reversed;
use crate::model::{index_describes, lemma_positions, positions};

verus! {

/// Iterator over the keys of a map; each key comes once, in no fixed order.
#[derive(Debug)]
pub struct Keys<'a, K> {
    keys: Vec<K>,
    pos: usize,
    map: PhantomData<&'a K>,
}

impl<'a, K> View for Keys<'a, K> {
    type V = Seq<K>;

    /// The keys not handed out yet.
    closed spec fn view(&self) -> Seq<K> {
        self.keys@.subrange(self.pos as int, self.keys@.len() as int)
    }
}

impl<'a, K> Keys<'a, K> {
    #[verifier::type_invariant]
    spec fn pos_in_range(self) -> bool {
        self.pos <= self.keys@.len()
    }
}

impl<'a, K: Copy> Keys<'a, K> {
    /// An iterator over `keys`, in order.
    pub(crate) fn new(keys: Vec<K>) -> (r: Self)
        ensures
            r@ == keys@,
    {
        let r = Keys { keys, pos: 0, map: PhantomData };
        assert(r@ =~= r.keys@);
        r
    }

    /// Hands out the next key, if any is left.
    pub fn next(&mut self) -> (r: Option<K>)
        ensures
            old(self)@.len() == 0 ==> r is None && final(self)@ == old(self)@,
            old(self)@.len() > 0 ==> r == Some(old(self)@[0]) && final(self)@
                == old(self)@.drop_first(),
    {
        proof {
            use_type_invariant(&*self);
        }
        if self.pos < self.keys.len() {
            let k = self.keys[self.pos];
            let ghost before = self@;
            self.pos = self.pos + 1;
            assert(self@ =~= before.drop_first());
            Some(k)
        } else {
            None
        }
    }

    /// The number of keys left.
    pub fn len(&self) -> (n: usize)
        ensures
            n == self@.len(),
    {
        proof {
            use_type_invariant(self);
        }
        self.keys.len() - self.pos
    }

    /// The exact number of keys left, as lower and upper bound.
    pub fn size_hint(&self) -> (r: (usize, Option<usize>))
        ensures
            r == (self@.len() as usize, Some(self@.len() as usize)),
    {
        let n = self.len();
        (n, Some(n))
    }
}

impl<'a, K: Copy> Clone for Keys<'a, K> {
    /// A second iterator over the same keys, at the same place.
    fn clone(&self) -> (r: Self)
        ensures
            r@ == self@,
    {
        proof {
            use_type_invariant(self);
        }
        let mut keys: Vec<K> = Vec::with_capacity(self.keys.len());
        let mut i: usize = 0;
        while i < self.keys.len()
            invariant
                i <= self.keys@.len(),
                keys@ == self.keys@.take(i as int),
            decreases self.keys@.len() - i,
        {
            keys.push(self.keys[i]);
            i += 1;
            assert(keys@ =~= self.keys@.take(i as int));
        }
        assert(keys@ =~= self.keys@);
        let r = Keys { keys, pos: self.pos, map: PhantomData };
        assert(r@ =~= self@);
        r
    }
}

/// The values of one key, in insertion order; handed out by `GroupedValues`.
#[derive(Debug)]
pub struct Group<'a, K, V> {
    data: &'a Vec<(K, V)>,
    idxs: &'a Vec<usize>,
    pos: usize,
    key: K,
}

impl<'a, K, V> View for Group<'a, K, V> {
    type V = Seq<V>;

    /// The values not handed out yet, in order.
    closed spec fn view(&self) -> Seq<V> {
        self.idxs@.subrange(self.pos as int, self.idxs@.len() as int).map_values(
            |i: usize| self.data@[i as int].1,
        )
    }
}

impl<'a, K, V> Group<'a, K, V> {
    /// The key whose values this group holds.
    pub closed spec fn group_key(&self) -> K {
        self.key
    }
}

impl<'a, K, V> Group<'a, K, V> {
    #[verifier::type_invariant]
    spec fn positions_in_range(self) -> bool {
        &&& self.pos <= self.idxs@.len()
        &&& forall|i: int| 0 <= i < self.idxs@.len() ==> #[trigger] self.idxs@[i] < self.data@.len()
    }
}

impl<'a, K: Copy, V> Group<'a, K, V> {
    /// The values at the positions `idxs` of `data`, under `key`.
    pub(crate) fn new(data: &'a Vec<(K, V)>, idxs: &'a Vec<usize>, key: K) -> (r: Self)
        requires
            forall|i: int| 0 <= i < idxs@.len() ==> #[trigger] idxs@[i] < data@.len(),
        ensures
            r@ == idxs@.map_values(|i: usize| data@[i as int].1),
            r.group_key() == key,
    {
        let r = Group { data, idxs, pos: 0, key };
        assert(r@ =~= idxs@.map_values(|i: usize| data@[i as int].1));
        r
    }

    /// The key of this group.
    pub fn key(&self) -> (k: K)
        ensures
            k == self.group_key(),
    {
        self.key
    }

    /// Hands out the next value, if any is left.
    pub fn next(&mut self) -> (r: Option<&'a V>)
        ensures
            final(self).group_key() == old(self).group_key(),
            old(self)@.len() == 0 ==> r is None && final(self)@ == old(self)@,
            old(self)@.len() > 0 ==> (r matches Some(v) && *v == old(self)@[0] && final(self)@
                == old(self)@.drop_first()),
    {
        proof {
            use_type_invariant(&*self);
        }
        if self.pos < self.idxs.len() {
            let data: &'a Vec<(K, V)> = self.data;
            let i = self.idxs[self.pos];
            let ghost before = self@;
            self.pos = self.pos + 1;
            assert(self@ =~= before.drop_first());
            Some(&data[i].1)
        } else {
            None
        }
    }

    /// The exact number of values left, as lower and upper bound.
    pub fn size_hint(&self) -> (r: (usize, Option<usize>))
        ensures
            r == (self@.len() as usize, Some(self@.len() as usize)),
    {
        proof {
            use_type_invariant(self);
        }
        let n = self.idxs.len() - self.pos;
        (n, Some(n))
    }
}

impl<'a, K: Copy, V> Clone for Group<'a, K, V> {
    /// A second iterator over the same values, at the same place.
    fn clone(&self) -> (r: Self)
        ensures
            r@ == self@,
            r.group_key() == self.group_key(),
    {
        proof {
            use_type_invariant(self);
        }
        Group { data: self.data, idxs: self.idxs, pos: self.pos, key: self.key }
    }
}

/// Mutable references to the values of one key, in insertion order;
/// handed out by `GroupedValuesMut`.
#[derive(Debug)]
pub struct GroupMut<'a, K, V> {
    rev_items: Vec<&'a mut V>,
    key: K,
}

impl<'a, K, V> View for GroupMut<'a, K, V> {
    type V = Seq<&'a mut V>;

    /// The references not handed out yet, in order.
    closed spec fn view(&self) -> Seq<&'a mut V> {
        self.rev_items@.reverse()
    }
}

impl<'a, K, V> GroupMut<'a, K, V> {
    /// The key whose values this group holds.
    pub closed spec fn group_key(&self) -> K {
        self.key
    }
}

impl<'a, K: Copy, V> GroupMut<'a, K, V> {
    /// The references `items`, in order, under `key`.
    pub(crate) fn new(key: K, items: Vec<&'a mut V>) -> (r: Self)
        ensures
            r@ == items@,
            r.group_key() == key,
    {
        let ghost s = items@;
        let mut items = items;
        let rev_items = take_reversed(&mut items);
        let r = GroupMut { rev_items, key };
        assert(r@ =~= s.reverse().reverse());
        r
    }

    /// The key of this group.
    pub fn key(&self) -> (k: K)
        ensures
            k == self.group_key(),
    {
        self.key
    }

    /// When the iterator is no longer used, the values it did not hand out
    /// end as they are.
    pub proof fn lemma_resolved(self)
        requires
            has_resolved(self),
        ensures
            forall|i: int| 0 <= i < self@.len() ==> *final(#[trigger] self@[i]) == *self@[i],
    {
        assert forall|i: int| 0 <= i < self@.len() implies *final(#[trigger] self@[i])
            == *self@[i] by {
            let j = self.rev_items@.len() - 1 - i;
            assert(self@[i] == self.rev_items@[j]);
            assert(has_resolved(self.rev_items@[j]));
        }
    }

    /// Hands out the next reference, if any is left.
    pub fn next(&mut self) -> (r: Option<&'a mut V>)
        ensures
            final(self).group_key() == old(self).group_key(),
            old(self)@.len() == 0 ==> r is None && final(self)@ == old(self)@,
            old(self)@.len() > 0 ==> r == Some(old(self)@[0]) && final(self)@
                == old(self)@.drop_first(),
    {
        let ghost before = self.rev_items@;
        let r = self.rev_items.pop();
        assert(self@ =~= if before.len() > 0 { before.reverse().drop_first() } else { before.reverse() });
        r
    }

    /// The number of references left.
    pub fn len(&self) -> (n: usize)
        ensures
            n == self@.len(),
    {
        self.rev_items.len()
    }

    /// The exact number of references left, as lower and upper bound.
    pub fn size_hint(&self) -> (r: (usize, Option<usize>))
        ensures
            r == (self@.len() as usize, Some(self@.len() as usize)),
    {
        let n = self.rev_items.len();
        (n, Some(n))
    }
}

/// Iterator over the groups of values of a map, one per key, in no fixed
/// order.
#[derive(Debug)]
pub struct GroupedValues<'a, K, V> {
    data: &'a Vec<(K, V)>,
    groups: Vec<(K, &'a Vec<usize>)>,
    pos: usize,
}

impl<'a, K, V> View for GroupedValues<'a, K, V> {
    type V = Seq<(K, Seq<V>)>;

    /// The keys and values of the groups not handed out yet.
    closed spec fn view(&self) -> Seq<(K, Seq<V>)> {
        self.groups@.subrange(self.pos as int, self.groups@.len() as int).map_values(
            |g: (K, &'a Vec<usize>)| (g.0, g.1@.map_values(|i: usize| self.data@[i as int].1)),
        )
    }
}

impl<'a, K, V> GroupedValues<'a, K, V> {
    #[verifier::type_invariant]
    spec fn positions_in_range(self) -> bool {
        &&& self.pos <= self.groups@.len()
        &&& forall|a: int, i: int|
            0 <= a < self.groups@.len() && 0 <= i < self.groups@[a].1@.len()
                ==> #[trigger] self.groups@[a].1@[i] < self.data@.len()
    }
}

impl<'a, K: Copy, V> GroupedValues<'a, K, V> {
    /// The groups of the index entries `groups` over `data`.
    pub(crate) fn new(data: &'a Vec<(K, V)>, groups: Vec<(K, &'a Vec<usize>)>) -> (r: Self)
        requires
            forall|a: int, i: int|
                0 <= a < groups@.len() && 0 <= i < groups@[a].1@.len()
                    ==> #[trigger] groups@[a].1@[i] < data@.len(),
        ensures
            r@ == groups@.map_values(
                |g: (K, &'a Vec<usize>)| (g.0, g.1@.map_values(|i: usize| data@[i as int].1)),
            ),
    {
        let ghost gs = groups@;
        let r = GroupedValues { data, groups, pos: 0 };
        assert(r@ =~= gs.map_values(
            |g: (K, &'a Vec<usize>)| (g.0, g.1@.map_values(|i: usize| data@[i as int].1)),
        ));
        r
    }

    /// Hands out the next group, if any is left.
    pub fn next(&mut self) -> (r: Option<Group<'a, K, V>>)
        ensures
            old(self)@.len() == 0 ==> r is None && final(self)@ == old(self)@,
            old(self)@.len() > 0 ==> (r matches Some(g) && (g.group_key(), g@) == old(self)@[0]
                && final(self)@ == old(self)@.drop_first()),
    {
        proof {
            use_type_invariant(&*self);
        }
        if self.pos < self.groups.len() {
            let data: &'a Vec<(K, V)> = self.data;
            let a = self.pos;
            let idxs: &'a Vec<usize> = self.groups[a].1;
            let key = self.groups[a].0;
            let ghost before = self@;
            self.pos = self.pos + 1;
            assert(self@ =~= before.drop_first());
            let g = Group::new(data, idxs, key);
            assert(g@ =~= before[0].1);
            Some(g)
        } else {
            None
        }
    }
}

impl<'a, K: Copy, V> Clone for GroupedValues<'a, K, V> {
    /// A second iterator over the same groups, at the same place.
    fn clone(&self) -> (r: Self)
        ensures
            r@ == self@,
    {
        proof {
            use_type_invariant(self);
        }
        let mut groups: Vec<(K, &'a Vec<usize>)> = Vec::with_capacity(self.groups.len());
        let mut i: usize = 0;
        while i < self.groups.len()
            invariant
                i <= self.groups@.len(),
                groups@ == self.groups@.take(i as int),
            decreases self.groups@.len() - i,
        {
            groups.push(self.groups[i]);
            i += 1;
            assert(groups@ =~= self.groups@.take(i as int));
        }
        assert(groups@ =~= self.groups@);
        let r = GroupedValues { data: self.data, groups, pos: self.pos };
        assert(r@ =~= self@);
        r
    }
}

/// Iterator over the groups of mutable value references of a map, one per
/// key, in no fixed order.
#[derive(Debug)]
pub struct GroupedValuesMut<'a, K, V> {
    rev_groups: Vec<GroupMut<'a, K, V>>,
}

impl<'a, K, V> View for GroupedValuesMut<'a, K, V> {
    type V = Seq<GroupMut<'a, K, V>>;

    /// The groups not handed out yet.
    closed spec fn view(&self) -> Seq<GroupMut<'a, K, V>> {
        self.rev_groups@.reverse()
    }
}

impl<'a, K: Copy, V> GroupedValuesMut<'a, K, V> {
    /// An iterator over `groups`, in order.
    pub(crate) fn new(groups: Vec<GroupMut<'a, K, V>>) -> (r: Self)
        ensures
            r@ == groups@,
    {
        let ghost s = groups@;
        let mut groups = groups;
        let rev_groups = take_reversed(&mut groups);
        let r = GroupedValuesMut { rev_groups };
        assert(r@ =~= s.reverse().reverse());
        r
    }

    /// When the iterator is no longer used, the values of the groups it
    /// did not hand out end as they are.
    pub proof fn lemma_resolved(self)
        requires
            has_resolved(self),
        ensures
            forall|a: int, m: int|
                #![trigger self@[a]@[m]]
                0 <= a < self@.len() && 0 <= m < self@[a]@.len() ==> *final(self@[a]@[m])
                    == *self@[a]@[m],
    {
        assert forall|a: int, m: int|
            #![trigger self@[a]@[m]]
            0 <= a < self@.len() && 0 <= m < self@[a]@.len() implies *final(self@[a]@[m])
                == *self@[a]@[m] by {
            let b = self.rev_groups@.len() - 1 - a;
            assert(self@[a] == self.rev_groups@[b]);
            assert(has_resolved(self.rev_groups@[b]));
            let g = self.rev_groups@[b];
            let j = g.rev_items@.len() - 1 - m;
            assert(g@[m] == g.rev_items@[j]);
            assert(has_resolved(g.rev_items@[j]));
        }
    }

    /// Hands out the next group, if any is left.
    pub fn next(&mut self) -> (r: Option<GroupMut<'a, K, V>>)
        ensures
            old(self)@.len() == 0 ==> r is None && final(self)@ == old(self)@,
            old(self)@.len() > 0 ==> r == Some(old(self)@[0]) && final(self)@
                == old(self)@.drop_first(),
    {
        let ghost before = self.rev_groups@;
        let r = self.rev_groups.pop();
        assert(self@ =~= if before.len() > 0 { before.reverse().drop_first() } else { before.reverse() });
        r
    }
}

/// Iterator over the values of a map in insertion order.
///
/// An iterator made by `TotalOrderMultiMap::values` walks the map's vector
/// of pairs with a cursor; one converted from a `ValuesMut` holds the
/// references that were left in it.
#[derive(Debug)]
pub struct Values<'a, K, V> {
    data: Option<&'a Vec<(K, V)>>,
    pos: usize,
    rev_items: Vec<&'a V>,
}

impl<'a, K, V> View for Values<'a, K, V> {
    type V = Seq<V>;

    /// The values not handed out yet, in order.
    closed spec fn view(&self) -> Seq<V> {
        match self.data {
            Some(d) => if self.pos <= d@.len() {
                d@.subrange(self.pos as int, d@.len() as int).map_values(|p: (K, V)| p.1)
            } else {
                Seq::empty()
            },
            None => self.rev_items@.reverse().map_values(|r: &'a V| *r),
        }
    }
}

impl<'a, K, V> Values<'a, K, V> {
    /// An iterator over the values of the pairs `data`, in order.
    pub(crate) fn new(data: &'a Vec<(K, V)>) -> (r: Self)
        ensures
            r@ == data@.map_values(|p: (K, V)| p.1),
    {
        let r = Values { data: Some(data), pos: 0, rev_items: Vec::new() };
        assert(r@ =~= data@.map_values(|p: (K, V)| p.1));
        r
    }

    /// Hands out the next value, if any is left.
    pub fn next(&mut self) -> (r: Option<&'a V>)
        ensures
            old(self)@.len() == 0 ==> r is None && final(self)@ == old(self)@,
            old(self)@.len() > 0 ==> (r matches Some(v) && *v == old(self)@[0] && final(self)@
                == old(self)@.drop_first()),
    {
        let ghost before = self@;
        match self.data {
            Some(d) => {
                if self.pos < d.len() {
                    let i = self.pos;
                    self.pos = self.pos + 1;
                    assert(self@ =~= before.drop_first());
                    Some(&d[i].1)
                } else {
                    None
                }
            },
            None => {
                let ghost rev = self.rev_items@;
                let r = self.rev_items.pop();
                assert(self@ =~= if rev.len() > 0 { before.drop_first() } else { before });
                r
            },
        }
    }

    /// The number of values left.
    pub fn len(&self) -> (n: usize)
        ensures
            n == self@.len(),
    {
        match self.data {
            Some(d) => if self.pos < d.len() {
                d.len() - self.pos
            } else {
                0
            },
            None => self.rev_items.len(),
        }
    }

    /// The exact number of values left, as lower and upper bound.
    pub fn size_hint(&self) -> (r: (usize, Option<usize>))
        ensures
            r == (self@.len() as usize, Some(self@.len() as usize)),
    {
        let n = self.len();
        (n, Some(n))
    }
}

impl<'a, K, V> Clone for Values<'a, K, V> {
    /// A second iterator over the same values, at the same place.
    fn clone(&self) -> (r: Self)
        ensures
            r@ == self@,
    {
        let mut rev_items: Vec<&'a V> = Vec::new();
        let mut i: usize = 0;
        while i < self.rev_items.len()
            invariant
                i <= self.rev_items@.len(),
                rev_items@ == self.rev_items@.take(i as int),
            decreases self.rev_items@.len() - i,
        {
            let v: &'a V = self.rev_items[i];
            rev_items.push(v);
            i += 1;
            assert(rev_items@ =~= self.rev_items@.take(i as int));
        }
        assert(self.rev_items@.take(i as int) =~= self.rev_items@);
        Values { data: self.data, pos: self.pos, rev_items }
    }
}

/// Iterator over mutable references to the values of a map, in insertion
/// order.
#[derive(Debug)]
pub struct ValuesMut<'a, K, V> {
    rev_items: Vec<&'a mut V>,
    keys: PhantomData<K>,
}

impl<'a, K, V> View for ValuesMut<'a, K, V> {
    type V = Seq<&'a mut V>;

    /// The references not handed out yet, in order.
    closed spec fn view(&self) -> Seq<&'a mut V> {
        self.rev_items@.reverse()
    }
}

impl<'a, K, V> ValuesMut<'a, K, V> {
    /// An iterator over the references `items`, in order.
    pub(crate) fn new(items: Vec<&'a mut V>) -> (r: Self)
        ensures
            r@ == items@,
    {
        let ghost s = items@;
        let mut items = items;
        let rev_items = take_reversed(&mut items);
        let r = ValuesMut { rev_items, keys: PhantomData };
        assert(r@ =~= s.reverse().reverse());
        r
    }

    /// When the iterator is no longer used, the values it did not hand out
    /// end as they are.
    pub proof fn lemma_resolved(self)
        requires
            has_resolved(self),
        ensures
            forall|i: int| 0 <= i < self@.len() ==> *final(#[trigger] self@[i]) == *self@[i],
    {
        assert forall|i: int| 0 <= i < self@.len() implies *final(#[trigger] self@[i])
            == *self@[i] by {
            let j = self.rev_items@.len() - 1 - i;
            assert(self@[i] == self.rev_items@[j]);
            assert(has_resolved(self.rev_items@[j]));
        }
    }

    /// Hands out the next reference, if any is left.
    pub fn next(&mut self) -> (r: Option<&'a mut V>)
        ensures
            old(self)@.len() == 0 ==> r is None && final(self)@ == old(self)@,
            old(self)@.len() > 0 ==> r == Some(old(self)@[0]) && final(self)@
                == old(self)@.drop_first(),
    {
        let ghost before = self.rev_items@;
        let r = self.rev_items.pop();
        assert(self@ =~= if before.len() > 0 { before.reverse().drop_first() } else { before.reverse() });
        r
    }

    /// The number of references left.
    pub fn len(&self) -> (n: usize)
        ensures
            n == self@.len(),
    {
        self.rev_items.len()
    }

    /// The exact number of references left, as lower and upper bound.
    pub fn size_hint(&self) -> (r: (usize, Option<usize>))
        ensures
            r == (self@.len() as usize, Some(self@.len() as usize)),
    {
        let n = self.rev_items.len();
        (n, Some(n))
    }
}

impl<'a, K, V> vstd::std_specs::convert::FromSpecImpl<ValuesMut<'a, K, V>> for Values<'a, K, V> {
    /// The conversion is described by the `ensures` of `from`, not by a spec
    /// function.
    open spec fn obeys_from_spec() -> bool {
        false
    }

    open spec fn from_spec(v: ValuesMut<'a, K, V>) -> Self {
        arbitrary()
    }
}

impl<'a, K, V> From<ValuesMut<'a, K, V>> for Values<'a, K, V> {
    /// The values left in a mutable iterator, now handed out shared.
    fn from(valsmut: ValuesMut<'a, K, V>) -> (r: Self)
        ensures
            r@ == valsmut@.map_values(|v: &'a mut V| *v),
            forall|i: int| 0 <= i < valsmut@.len() ==> *final(#[trigger] valsmut@[i]) == *valsmut@[i],
    {
        let mut rest = valsmut.rev_items;
        let ghost s = rest@;
        let mut fwd: Vec<&'a V> = Vec::new();
        while rest.len() > 0
            invariant
                fwd@.len() + rest@.len() == s.len(),
                rest@ == s.subrange(0, rest@.len() as int),
                forall|i: int|
                    0 <= i < fwd@.len() ==> *(#[trigger] fwd@[i]) == *s[s.len() - 1 - i] && *final(
                        s[s.len() - 1 - i])
                        == *s[s.len() - 1 - i],
            decreases rest@.len(),
        {
            let ghost c = rest@.len() - 1;
            let v = rest.pop().unwrap();
            assert(v == s[c]);
            let shared: &'a V = v;
            assert(*final(s[c]) == *s[c]);
            fwd.push(shared);
        }
        assert forall|i: int| 0 <= i < valsmut@.len() implies *final(#[trigger] valsmut@[i])
            == *valsmut@[i] by {
            assert(valsmut@[i] == s[s.len() - 1 - i]);
            assert(*fwd@[i] == *s[s.len() - 1 - i]);
        }
        let rev_items = take_reversed(&mut fwd);
        let r = Values { data: None, pos: 0, rev_items };
        assert(r@ =~= s.reverse().map_values(|v: &'a mut V| *v));
        r
    }
}

/// The second components of the pairs `items`, in order.
pub(crate) fn seconds<A, B>(items: Vec<(A, B)>) -> (r: Vec<B>)
    ensures
        r@ == items@.map_values(|p: (A, B)| p.1),
{
    let ghost s = items@;
    let mut items = items;
    let mut rev = take_reversed(&mut items);
    let mut out: Vec<B> = Vec::new();
    while rev.len() > 0
        invariant
            out@.len() + rev@.len() == s.len(),
            forall|i: int| 0 <= i < rev@.len() ==> #[trigger] rev@[i] == s[s.len() - 1 - i],
            forall|i: int| 0 <= i < out@.len() ==> #[trigger] out@[i] == s[i].1,
        decreases rev@.len(),
    {
        let ghost c = out@.len();
        assert(rev@[rev@.len() - 1] == s[c as int]);
        let pr = rev.pop().unwrap();
        out.push(pr.1);
    }
    assert(out@ =~= s.map_values(|p: (A, B)| p.1));
    out
}

/// Splits `items` into the items at the increasing positions `pos`, in
/// that order, and the other items.
pub(crate) fn split_at_positions<B>(items: Vec<B>, pos: &Vec<usize>) -> (r: (Vec<B>, Vec<B>))
    requires
        forall|q: int| 0 <= q < pos@.len() ==> #[trigger] pos@[q] < items@.len(),
        forall|q1: int, q2: int| 0 <= q1 < q2 < pos@.len() ==> pos@[q1] < pos@[q2],
    ensures
        r.0@.len() == pos@.len(),
        forall|m: int| 0 <= m < pos@.len() ==> #[trigger] r.0@[m] == items@[pos@[m] as int],
        forall|p: int|
            0 <= p < items@.len() && !pos@.contains(p as usize) ==> r.1@.contains(
                #[trigger] items@[p],
            ),
{
    let n = items.len();
    let ghost its = items@;
    let mut items = items;
    let mut rev = take_reversed(&mut items);
    let mut sel: Vec<B> = Vec::new();
    let mut rest: Vec<B> = Vec::new();
    let mut i: usize = 0;
    let mut j: usize = 0;
    while i < n
        invariant
            n == its.len(),
            i <= n,
            rev@.len() == n - i,
            forall|q: int| 0 <= q < rev@.len() ==> #[trigger] rev@[q] == its[n - 1 - q],
            j <= pos@.len(),
            forall|q: int| #![trigger pos@[q]] 0 <= q < j ==> pos@[q] < i,
            forall|q: int| #![trigger pos@[q]] j <= q < pos@.len() ==> pos@[q] >= i,
            forall|q: int| 0 <= q < pos@.len() ==> #[trigger] pos@[q] < n,
            forall|q1: int, q2: int| 0 <= q1 < q2 < pos@.len() ==> pos@[q1] < pos@[q2],
            sel@.len() == j,
            forall|m: int| 0 <= m < j ==> #[trigger] sel@[m] == its[pos@[m] as int],
            forall|p: int| 0 <= p < i && !pos@.contains(p as usize) ==> rest@.contains(#[trigger] its[p]),
        decreases n - i,
    {
        assert(rev@[rev@.len() - 1] == its[i as int]);
        let x = rev.pop().unwrap();
        if j < pos.len() && pos[j] == i {
            sel.push(x);
            j += 1;
        } else {
            assert(!pos@.contains(i)) by {
                if pos@.contains(i) {
                    let q = choose|q: int| 0 <= q < pos@.len() && pos@[q] == i;
                    if q < j {
                        assert(pos@[q] < i);
                    } else if q > j {
                        assert(pos@[j as int] < pos@[q]);
                    }
                }
            }
            let ghost rest0 = rest@;
            rest.push(x);
            assert forall|p: int| 0 <= p < i + 1 && !pos@.contains(p as usize) implies rest@.contains(
                #[trigger] its[p],
            ) by {
                if p < i {
                    let w = choose|w: int| 0 <= w < rest0.len() && rest0[w] == its[p];
                    assert(rest@[w] == its[p]);
                } else {
                    assert(rest@[rest@.len() - 1] == its[p]);
                }
            }
        }
        i += 1;
    }
    assert(j == pos@.len()) by {
        if j < pos@.len() {
            assert(pos@[j as int] < n);
        }
    }
    (sel, rest)
}

/// Sorts the payloads of `items` (one per pair of `s`, in order) into one
/// group per entry `g` of the index, keeping their order.
pub(crate) fn group_items<K: Copy, V, B>(
    g: &Vec<(K, &Vec<usize>)>,
    items: Vec<(K, B)>,
    Ghost(s): Ghost<Seq<(K, V)>>,
) -> (r: Vec<(K, Vec<B>)>)
    requires
        index_describes(g@, s),
        s.len() <= usize::MAX,
        items@.len() == s.len(),
    ensures
        r@.len() == g@.len(),
        forall|j: int|
            0 <= j < r@.len() ==> (#[trigger] r@[j]).0 == g@[j].0 && r@[j].1@ == g@[j].1@.map_values(
                |p: usize| items@[p as int].1,
            ),
{
    let n = items.len();
    let ghost its = items@;
    // owner[p] is the entry of the index that holds position p.
    let mut owner: Vec<usize> = vec![0; n];
    let mut j: usize = 0;
    while j < g.len()
        invariant
            j <= g@.len(),
            owner@.len() == n,
            n == s.len(),
            index_describes(g@, s),
            s.len() <= usize::MAX,
            forall|p: int, a: int|
                #![trigger g@[a], owner@[p]]
                0 <= p < n && 0 <= a < j && g@[a].0 == s[p].0 ==> owner@[p] == a,
        decreases g@.len() - j,
    {
        let ghost ps = g@[j as int].1@;
        proof {
            lemma_positions(s, g@[j as int].0);
        }
        let mut m: usize = 0;
        while m < g[j].1.len()
            invariant
                j < g@.len(),
                m <= g@[j as int].1@.len(),
                ps == g@[j as int].1@,
                ps == positions(s, g@[j as int].0),
                owner@.len() == n,
                n == s.len(),
                index_describes(g@, s),
                s.len() <= usize::MAX,
                forall|i: int|
                    #![trigger ps[i]]
                    0 <= i < ps.len() ==> ps[i] < s.len() && s[ps[i] as int].0 == g@[j as int].0,
                forall|p: int, a: int|
                    #![trigger g@[a], owner@[p]]
                    0 <= p < n && 0 <= a < j && g@[a].0 == s[p].0 ==> owner@[p] == a,
                forall|i: int| 0 <= i < m ==> owner@[#[trigger] ps[i] as int] == j,
            decreases g@[j as int].1@.len() - m,
        {
            let p = g[j].1[m];
            assert(ps[m as int] == p);
            owner.set(p, j);
            m += 1;
            assert forall|q: int, a: int|
                #![trigger g@[a], owner@[q]]
                0 <= q < n && 0 <= a < j && g@[a].0 == s[q].0 implies owner@[q] == a by {
                if q == p {
                    assert(g@[a].0 != g@[j as int].0);
                }
            }
        }
        assert forall|p: int, a: int|
            #![trigger g@[a], owner@[p]]
            0 <= p < n && 0 <= a < j + 1 && g@[a].0 == s[p].0 implies owner@[p] == a by {
            if a == j {
                let i = choose|i: int| 0 <= i < ps.len() && ps[i] == p;
                assert(owner@[ps[i] as int] == j);
            }
        }
        j += 1;
    }
    // Every position now knows its entry.
    assert forall|p: int| 0 <= p < n implies #[trigger] owner@[p] < g@.len() && g@[owner@[p] as int].0
        == s[p].0 by {
        assert(crate::model::has_group(g@, s[p].0));
        let a = choose|a: int| 0 <= a < g@.len() && (#[trigger] g@[a]).0 == s[p].0;
        assert(owner@[p] == a);
    }
    let mut out: Vec<(K, Vec<B>)> = Vec::new();
    let mut a: usize = 0;
    while a < g.len()
        invariant
            a <= g@.len(),
            out@.len() == a,
            forall|b: int| 0 <= b < a ==> (#[trigger] out@[b]).0 == g@[b].0 && out@[b].1@.len() == 0,
        decreases g@.len() - a,
    {
        out.push((g[a].0, Vec::new()));
        a += 1;
    }
    let mut items = items;
    let mut rev = take_reversed(&mut items);
    let mut i: usize = 0;
    assert forall|b: int| 0 <= b < out@.len() implies (#[trigger] out@[b]).1@ == positions(
        s.take(0),
        g@[b].0,
    ).map_values(|p: usize| its[p as int].1) by {
        assert(s.take(0).len() == 0);
    }
    while i < n
        invariant
            i <= n,
            n == s.len(),
            s.len() <= usize::MAX,
            its.len() == n,
            rev@.len() == n - i,
            forall|q: int| 0 <= q < rev@.len() ==> #[trigger] rev@[q] == its[n - 1 - q],
            owner@.len() == n,
            forall|p: int| 0 <= p < n ==> #[trigger] owner@[p] < g@.len() && g@[owner@[p] as int].0
                == s[p].0,
            index_describes(g@, s),
            out@.len() == g@.len(),
            forall|b: int|
                0 <= b < out@.len() ==> (#[trigger] out@[b]).0 == g@[b].0 && out@[b].1@
                    == positions(s.take(i as int), g@[b].0).map_values(
                    |p: usize| its[p as int].1,
                ),
        decreases n - i,
    {
        assert(rev@[rev@.len() - 1] == its[i as int]);
        let pr = rev.pop().unwrap();
        let o = owner[i];
        let ghost out0 = out@;
        out[o].1.push(pr.1);
        let ghost t = s.take(i + 1);
        assert(t.drop_last() =~= s.take(i as int));
        assert(t.last() == s[i as int]);
        assert forall|b: int| 0 <= b < out@.len() implies (#[trigger] out@[b]).0 == g@[b].0
            && out@[b].1@ == positions(t, g@[b].0).map_values(|p: usize| its[p as int].1) by {
            if b == o {
                assert(positions(t, g@[b].0) == positions(s.take(i as int), g@[b].0).push(i));
                assert(out@[b].1@ =~= positions(t, g@[b].0).map_values(|p: usize| its[p as int].1));
            } else {
                assert(g@[b].0 != g@[o as int].0);
                assert(out@[b] == out0[b]);
            }
        }
        i += 1;
    }
    assert(s.take(n as int) =~= s);
    assert forall|b: int| 0 <= b < out@.len() implies (#[trigger] out@[b]).0 == g@[b].0
        && out@[b].1@ == g@[b].1@.map_values(|p: usize| its[p as int].1) by {
        assert(g@[b].1@ == positions(s, g@[b].0));
    }
    out
}

} // verus!
