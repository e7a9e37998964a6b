//! Iteration over the key-value pairs in insertion order.
use vstd::prelude::*;

verus! {

/// Moves all elements out of `v` and returns them in reverse order.
pub(crate) fn take_reversed<T>(v: &mut Vec<T>) -> (r: Vec<T>)
    ensures
        final(v)@ == Seq::<T>::empty(),
        r@ == old(v)@.reverse(),
{
    let ghost s = v@;
    let mut r: Vec<T> = Vec::new();
    while v.len() > 0
        invariant
            v@.len() + r@.len() == s.len(),
            v@ == s.subrange(0, v@.len() as int),
            forall|i: int| 0 <= i < r@.len() ==> #[trigger] r@[i] == s[s.len() - 1 - i],
        decreases v@.len(),
    {
        let x = v.pop().unwrap();
        r.push(x);
    }
    assert(r@ =~= s.reverse());
    r
}

/// Splits the pairs of `v` into their keys and references to their
/// values; what is written through the references ends up in `v`.
pub(crate) fn pair_refs<'a, K: Copy, V>(v: &'a mut Vec<(K, V)>) -> (r: Vec<(K, &'a mut V)>)
    ensures
        r@.len() == old(v)@.len(),
        final(v)@.len() == old(v)@.len(),
        forall|i: int|
            0 <= i < r@.len() ==> {
                &&& (#[trigger] r@[i]).0 == old(v)@[i].0
                &&& *r@[i].1 == old(v)@[i].1
                &&& final(v)@[i] == (old(v)@[i].0, *final(r@[i].1))
            },
{
    let ghost s = v@;
    let ghost fin = final(v)@;
    let mut rest: &'a mut [(K, V)] = v.as_mut_slice();
    let mut out: Vec<(K, &'a mut V)> = Vec::new();
    while rest.len() > 0
        invariant
            out@.len() + rest@.len() == s.len(),
            rest@ == s.subrange(out@.len() as int, s.len() as int),
            fin.len() == out@.len() + final(rest)@.len(),
            forall|i: int|
                0 <= i < out@.len() ==> {
                    &&& (#[trigger] out@[i]).0 == s[i].0
                    &&& *out@[i].1 == s[i].1
                    &&& fin[i] == (s[i].0, *final(out@[i].1))
                },
            forall|i: int|
                0 <= i < final(rest)@.len() ==> fin[out@.len() + i] == final(rest)@[i],
        decreases rest@.len(),
    {
        let ghost c: int = out@.len() as int;
        let ghost frest = final(rest)@;
        let (head, tail) = rest.split_at_mut(1);
        assert(frest == final(head)@ + final(tail)@);
        let ghost fhead = final(head)@;
        let ghost head0 = head@;
        let pair = head.first_mut().unwrap();
        let ghost fp = *final(pair);
        assert(fhead == head0.update(0, fp));
        let ghost p0 = *pair;
        let key = pair.0;
        let val = &mut pair.1;
        out.push((key, val));
        assert(fp == (p0.0, *final(out@[c].1)));
        assert(head0[0] == s[c]);
        assert(frest[0] == fhead[0]);
        assert(fin[c + 0] == frest[0]);
        let ghost ftail = final(tail)@;
        assert forall|i: int| 0 <= i < ftail.len() implies fin[c + 1 + i] == ftail[i] by {
            assert(frest[1 + i] == ftail[i]);
            assert(fin[c + (1 + i)] == frest[1 + i]);
        }
        rest = tail;
    }
    out
}

/// Iterator over the key-value pairs of a map in insertion order.
///
/// An iterator made by `TotalOrderMultiMap::iter` walks the map's vector of
/// pairs with a cursor; one converted from an `IterMut` holds the references
/// that were left in it.
#[derive(Debug)]
pub struct Iter<'a, K, V> {
    data: Option<&'a Vec<(K, V)>>,
    pos: usize,
    rev_items: Vec<(K, &'a V)>,
}

impl<'a, K, V> View for Iter<'a, K, V> {
    type V = Seq<(K, V)>;

    /// The pairs not handed out yet, in order.
    closed spec fn view(&self) -> Seq<(K, V)> {
        match self.data {
            Some(d) => if self.pos <= d@.len() {
                d@.subrange(self.pos as int, d@.len() as int)
            } else {
                Seq::empty()
            },
            None => self.rev_items@.reverse().map_values(|p: (K, &'a V)| (p.0, *p.1)),
        }
    }
}

impl<'a, K: Copy, V> Iter<'a, K, V> {
    /// An iterator over all pairs of `data`, in order.
    pub(crate) fn new(data: &'a Vec<(K, V)>) -> (r: Self)
        ensures
            r@ == data@,
    {
        let r = Iter { data: Some(data), pos: 0, rev_items: Vec::new() };
        assert(r@ =~= data@);
        r
    }

    /// Hands out the next pair, if any is left.
    pub fn next(&mut self) -> (r: Option<(K, &'a V)>)
        ensures
            old(self)@.len() == 0 ==> r is None && final(self)@ == old(self)@,
            old(self)@.len() > 0 ==> (r matches Some(p) && (p.0, *p.1) == old(self)@[0]
                && final(self)@ == old(self)@.drop_first()),
    {
        let ghost before = self@;
        match self.data {
            Some(d) => {
                if self.pos < d.len() {
                    let i = self.pos;
                    self.pos = self.pos + 1;
                    assert(self@ =~= before.drop_first());
                    Some((d[i].0, &d[i].1))
                } else {
                    None
                }
            },
            None => {
                let ghost rev = self.rev_items@;
                let r = self.rev_items.pop();
                assert(self@ =~= if rev.len() > 0 { before.drop_first() } else { before });
                r
            },
        }
    }

    /// The number of pairs left.
    pub fn len(&self) -> (n: usize)
        ensures
            n == self@.len(),
    {
        match self.data {
            Some(d) => if self.pos < d.len() {
                d.len() - self.pos
            } else {
                0
            },
            None => self.rev_items.len(),
        }
    }

    /// The exact number of pairs left, as lower and upper bound.
    pub fn size_hint(&self) -> (r: (usize, Option<usize>))
        ensures
            r == (self@.len() as usize, Some(self@.len() as usize)),
    {
        let n = self.len();
        (n, Some(n))
    }
}

impl<'a, K: Copy, V> Clone for Iter<'a, K, V> {
    /// A second iterator over the same pairs, at the same place.
    fn clone(&self) -> (r: Self)
        ensures
            r@ == self@,
    {
        let mut rev_items: Vec<(K, &'a V)> = Vec::new();
        let mut i: usize = 0;
        while i < self.rev_items.len()
            invariant
                i <= self.rev_items@.len(),
                rev_items@ == self.rev_items@.take(i as int),
            decreases self.rev_items@.len() - i,
        {
            let p = self.rev_items[i];
            rev_items.push(p);
            i += 1;
            assert(rev_items@ =~= self.rev_items@.take(i as int));
        }
        assert(self.rev_items@.take(i as int) =~= self.rev_items@);
        Iter { data: self.data, pos: self.pos, rev_items }
    }
}

/// Iterator over the key-value pairs of a map in insertion order, handing
/// out mutable references to the values.
#[derive(Debug)]
pub struct IterMut<'a, K, V> {
    rev_items: Vec<(K, &'a mut V)>,
}

impl<'a, K, V> View for IterMut<'a, K, V> {
    type V = Seq<(K, &'a mut V)>;

    /// The keys and value references not handed out yet, in order.
    closed spec fn view(&self) -> Seq<(K, &'a mut V)> {
        self.rev_items@.reverse()
    }
}

impl<'a, K: Copy, V> IterMut<'a, K, V> {
    /// An iterator over the keys and value references `items`, in order.
    pub(crate) fn new(items: Vec<(K, &'a mut V)>) -> (r: Self)
        ensures
            r@ == items@,
    {
        let ghost s = items@;
        let mut items = items;
        let rev_items = take_reversed(&mut items);
        let r = IterMut { rev_items };
        assert(r@ =~= s.reverse().reverse());
        r
    }

    /// When the iterator is no longer used, the values it did not hand out
    /// end as they are.
    pub proof fn lemma_resolved(self)
        requires
            has_resolved(self),
        ensures
            forall|i: int| 0 <= i < self@.len() ==> *final(#[trigger] self@[i].1) == *self@[i].1,
    {
        assert forall|i: int| 0 <= i < self@.len() implies *final(#[trigger] self@[i].1)
            == *self@[i].1 by {
            let j = self.rev_items@.len() - 1 - i;
            assert(self@[i] == self.rev_items@[j]);
            assert(has_resolved(self.rev_items@[j]));
        }
    }

    /// Hands out the next key and value reference, if any is left.
    pub fn next(&mut self) -> (r: Option<(K, &'a mut V)>)
        ensures
            old(self)@.len() == 0 ==> r is None && final(self)@ == old(self)@,
            old(self)@.len() > 0 ==> r == Some(old(self)@[0]) && final(self)@
                == old(self)@.drop_first(),
    {
        let ghost before = self.rev_items@;
        let r = self.rev_items.pop();
        assert(self@ =~= if before.len() > 0 { before.reverse().drop_first() } else { before.reverse() });
        r
    }

    /// The number of pairs left.
    pub fn len(&self) -> (n: usize)
        ensures
            n == self@.len(),
    {
        self.rev_items.len()
    }

    /// The exact number of pairs left, as lower and upper bound.
    pub fn size_hint(&self) -> (r: (usize, Option<usize>))
        ensures
            r == (self@.len() as usize, Some(self@.len() as usize)),
    {
        let n = self.rev_items.len();
        (n, Some(n))
    }
}

impl<'a, K: Copy, V> vstd::std_specs::convert::FromSpecImpl<IterMut<'a, K, V>> for Iter<'a, K, V> {
    /// The conversion is described by the `ensures` of `from`, not by a spec
    /// function.
    open spec fn obeys_from_spec() -> bool {
        false
    }

    open spec fn from_spec(v: IterMut<'a, K, V>) -> Self {
        arbitrary()
    }
}

impl<'a, K: Copy, V> From<IterMut<'a, K, V>> for Iter<'a, K, V> {
    /// The pairs left in a mutable iterator, now handed out shared.
    fn from(valsmut: IterMut<'a, K, V>) -> (r: Self)
        ensures
            r@ == valsmut@.map_values(|p: (K, &'a mut V)| (p.0, *p.1)),
            forall|i: int|
                0 <= i < valsmut@.len() ==> *final(#[trigger] valsmut@[i].1) == *valsmut@[i].1,
    {
        let mut rest = valsmut.rev_items;
        let ghost s = rest@;
        let mut fwd: Vec<(K, &'a V)> = Vec::new();
        while rest.len() > 0
            invariant
                fwd@.len() + rest@.len() == s.len(),
                rest@ == s.subrange(0, rest@.len() as int),
                forall|i: int|
                    0 <= i < fwd@.len() ==> (#[trigger] fwd@[i]).0 == s[s.len() - 1 - i].0
                        && *fwd@[i].1 == *s[s.len() - 1 - i].1 && *final(s[s.len() - 1 - i].1)
                        == *s[s.len() - 1 - i].1,
            decreases rest@.len(),
        {
            let ghost c = rest@.len() - 1;
            let (k, v) = rest.pop().unwrap();
            assert(v == s[c].1);
            let shared: &'a V = v;
            assert(*final(s[c].1) == *s[c].1);
            fwd.push((k, shared));
        }
        assert forall|i: int| 0 <= i < valsmut@.len() implies *final(#[trigger] valsmut@[i].1)
            == *valsmut@[i].1 by {
            assert(valsmut@[i] == s[s.len() - 1 - i]);
            assert(fwd@[i].0 == s[s.len() - 1 - i].0);
        }
        let rev_items = take_reversed(&mut fwd);
        let r = Iter { data: None, pos: 0, rev_items };
        assert(r@ =~= s.reverse().map_values(|p: (K, &'a mut V)| (p.0, *p.1)));
        r
    }
}

} // verus!
