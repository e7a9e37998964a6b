//! The mathematical model of a total-order multi map.
//!
//! A map is viewed as the sequence of its key-value pairs in insertion
//! order. Everything else (the values of one key, the set of keys, ...)
//! is derived from that sequence by the spec functions below.
use vstd::prelude::*;
use vstd::std_specs::cmp::PartialEqSpec;

verus! {

/// `k` occurs as the key of at least one pair of `s`.
pub open spec fn has_key<K, V>(s: Seq<(K, V)>, k: K) -> bool {
    exists|i: int| 0 <= i < s.len() && #[trigger] s[i].0 == k
}

/// The set of keys that occur in `s`.
pub open spec fn key_set<K, V>(s: Seq<(K, V)>) -> Set<K> {
    Set::new(|k: K| has_key(s, k))
}

/// The values stored under `k`, in the order they were inserted.
pub open spec fn values_of<K, V>(s: Seq<(K, V)>, k: K) -> Seq<V>
    decreases s.len(),
{
    if s.len() == 0 {
        Seq::empty()
    } else {
        let rest = values_of(s.drop_last(), k);
        if s.last().0 == k {
            rest.push(s.last().1)
        } else {
            rest
        }
    }
}

/// The positions in `s` of the pairs whose key is `k`, in increasing order.
pub open spec fn positions<K, V>(s: Seq<(K, V)>, k: K) -> Seq<usize>
    decreases s.len(),
{
    if s.len() == 0 {
        Seq::empty()
    } else {
        let rest = positions(s.drop_last(), k);
        if s.last().0 == k {
            rest.push((s.len() - 1) as usize)
        } else {
            rest
        }
    }
}

/// `s` without the pairs whose key is `k`, the others in their order.
pub open spec fn without_key<K, V>(s: Seq<(K, V)>, k: K) -> Seq<(K, V)>
    decreases s.len(),
{
    if s.len() == 0 {
        Seq::empty()
    } else {
        let rest = without_key(s.drop_last(), k);
        if s.last().0 == k {
            rest
        } else {
            rest.push(s.last())
        }
    }
}

/// The pairs `s[i]` for which `keep[i]` holds, in their order.
pub open spec fn kept<K, V>(s: Seq<(K, V)>, keep: Seq<bool>) -> Seq<(K, V)>
    decreases s.len(),
{
    if s.len() == 0 || keep.len() == 0 {
        Seq::empty()
    } else {
        let rest = kept(s.drop_last(), keep.drop_last());
        if keep.last() {
            rest.push(s.last())
        } else {
            rest
        }
    }
}

/// `g` holds one entry per key of `s`, in some order, and the entry of a
/// key lists exactly the positions of that key in `s`.
pub open spec fn index_describes<K, V, P: View<V = Seq<usize>>>(
    g: Seq<(K, P)>,
    s: Seq<(K, V)>,
) -> bool {
    &&& forall|a: int, b: int|
        #![trigger g[a], g[b]]
        0 <= a < g.len() && 0 <= b < g.len() && a != b ==> g[a].0 != g[b].0
    &&& forall|a: int|
        0 <= a < g.len() ==> (#[trigger] g[a]).1@ == positions(s, g[a].0) && g[a].1@.len() > 0
    &&& forall|i: int| 0 <= i < s.len() ==> has_group(g, #[trigger] s[i].0)
}

/// Some entry of the index `g` is for the key `k`.
pub open spec fn has_group<K, P>(g: Seq<(K, P)>, k: K) -> bool {
    exists|a: int| 0 <= a < g.len() && (#[trigger] g[a]).0 == k
}

/// The map `m` holds exactly the keys of `s`, each with the positions of
/// that key in `s`.
pub open spec fn map_describes<K, V>(m: Map<K, Vec<usize>>, s: Seq<(K, V)>) -> bool {
    &&& forall|k: K| #[trigger] m.contains_key(k) ==> m[k]@ == positions(s, k) && m[k]@.len() > 0
    &&& forall|i: int| 0 <= i < s.len() ==> m.contains_key(#[trigger] s[i].0)
}

/// What the positions of a key are, and how they give its values.
pub proof fn lemma_positions<K, V>(s: Seq<(K, V)>, k: K)
    requires
        s.len() <= usize::MAX,
    ensures
        positions(s, k).len() == values_of(s, k).len(),
        forall|i: int|
            #![trigger positions(s, k)[i]]
            0 <= i < positions(s, k).len() ==> {
                &&& positions(s, k)[i] < s.len()
                &&& s[positions(s, k)[i] as int].0 == k
                &&& values_of(s, k)[i] == s[positions(s, k)[i] as int].1
            },
        forall|i: int, j: int|
            0 <= i < j < positions(s, k).len() ==> positions(s, k)[i] < positions(s, k)[j],
        positions(s, k).len() > 0 <==> has_key(s, k),
        forall|p: int|
            0 <= p < s.len() && #[trigger] s[p].0 == k ==> exists|i: int|
                0 <= i < positions(s, k).len() && positions(s, k)[i] == p,
    decreases s.len(),
{
    if s.len() > 0 {
        let t = s.drop_last();
        lemma_positions(t, k);
        assert forall|p: int| 0 <= p < s.len() && #[trigger] s[p].0 == k implies exists|i: int|
            0 <= i < positions(s, k).len() && positions(s, k)[i] == p by {
            if p < t.len() {
                assert(t[p].0 == k);
                let i = choose|i: int| 0 <= i < positions(t, k).len() && positions(t, k)[i] == p;
                assert(positions(s, k)[i] == p);
            } else {
                assert(positions(s, k)[positions(s, k).len() - 1] == p);
            }
        }
        if has_key(t, k) {
            let i = choose|i: int| 0 <= i < t.len() && #[trigger] t[i].0 == k;
            assert(s[i].0 == k);
        }
        if has_key(s, k) && s.last().0 != k {
            let i = choose|i: int| 0 <= i < s.len() && #[trigger] s[i].0 == k;
            assert(t[i].0 == k);
        }
        if s.last().0 == k {
            assert(s[s.len() - 1].0 == k);
        }
    }
}

/// A key occurs in `s` exactly when it has values there.
pub proof fn lemma_has_key_values<K, V>(s: Seq<(K, V)>, k: K)
    ensures
        has_key(s, k) <==> values_of(s, k).len() > 0,
    decreases s.len(),
{
    if s.len() > 0 {
        let t = s.drop_last();
        lemma_has_key_values(t, k);
        if has_key(t, k) {
            let i = choose|i: int| 0 <= i < t.len() && #[trigger] t[i].0 == k;
            assert(s[i].0 == k);
        }
        if has_key(s, k) && s.last().0 != k {
            let i = choose|i: int| 0 <= i < s.len() && #[trigger] s[i].0 == k;
            assert(t[i].0 == k);
        }
        if s.last().0 == k {
            assert(s[s.len() - 1].0 == k);
        }
    }
}

/// Removing a key that does not occur changes nothing.
pub proof fn lemma_without_absent_key<K, V>(s: Seq<(K, V)>, k: K)
    requires
        !has_key(s, k),
    ensures
        without_key(s, k) == s,
    decreases s.len(),
{
    if s.len() > 0 {
        let t = s.drop_last();
        assert forall|i: int| 0 <= i < t.len() implies #[trigger] t[i].0 != k by {
            assert(s[i] == t[i]);
        }
        lemma_without_absent_key(t, k);
        assert(s[s.len() - 1].0 != k);
        assert(t.push(s.last()) =~= s);
    }
}

/// Removing pairs does not make the sequence longer.
pub proof fn lemma_without_len<K, V>(s: Seq<(K, V)>, k: K)
    ensures
        without_key(s, k).len() <= s.len(),
    decreases s.len(),
{
    if s.len() > 0 {
        lemma_without_len(s.drop_last(), k);
    }
}

/// Keeping some pairs does not make the sequence longer.
pub proof fn lemma_kept_len<K, V>(s: Seq<(K, V)>, keep: Seq<bool>)
    ensures
        kept(s, keep).len() <= s.len(),
    decreases s.len(),
{
    if s.len() > 0 && keep.len() > 0 {
        lemma_kept_len(s.drop_last(), keep.drop_last());
    }
}

/// The positions of a key depend only on the keys of the sequence.
pub proof fn lemma_positions_same_keys<K, V>(s1: Seq<(K, V)>, s2: Seq<(K, V)>, k: K)
    requires
        s1.len() == s2.len(),
        forall|i: int| 0 <= i < s1.len() ==> (#[trigger] s1[i]).0 == s2[i].0,
    ensures
        positions(s1, k) == positions(s2, k),
    decreases s1.len(),
{
    if s1.len() > 0 {
        let t1 = s1.drop_last();
        let t2 = s2.drop_last();
        assert forall|i: int| 0 <= i < t1.len() implies (#[trigger] t1[i]).0 == t2[i].0 by {
            assert(s1[i].0 == s2[i].0);
        }
        lemma_positions_same_keys(t1, t2, k);
        assert(s1[s1.len() - 1].0 == s2[s2.len() - 1].0);
    }
}

/// The equality of keys and the equality of values both follow their spec
/// functions.
pub open spec fn pair_eq_follows_spec<K: PartialEq, V: PartialEq>() -> bool {
    K::obeys_eq_spec() && V::obeys_eq_spec()
}

/// Two sequences of pairs are equal pair by pair, by the keys' and the
/// values' own equality.
pub open spec fn pairs_equal<K: PartialEq, V: PartialEq>(a: Seq<(K, V)>, b: Seq<(K, V)>) -> bool {
    &&& a.len() == b.len()
    &&& forall|i: int|
        0 <= i < a.len() ==> (#[trigger] a[i]).0.eq_spec(&b[i].0) && a[i].1.eq_spec(&b[i].1)
}

/// The positions of a key when a pair is put in front of the pairs.
pub proof fn lemma_positions_prepend<K, V>(x: (K, V), t: Seq<(K, V)>, k: K)
    requires
        t.len() + 1 <= usize::MAX,
    ensures
        positions(seq![x] + t, k) == (if x.0 == k {
            seq![0usize]
        } else {
            Seq::<usize>::empty()
        }) + positions(t, k).map_values(|p: usize| (p + 1) as usize),
    decreases t.len(),
{
    let u = seq![x] + t;
    let head = if x.0 == k {
        seq![0usize]
    } else {
        Seq::<usize>::empty()
    };
    if t.len() == 0 {
        assert(u.drop_last() =~= Seq::<(K, V)>::empty());
        assert(u.last() == x);
        assert(positions(t, k) == Seq::<usize>::empty());
        assert(positions(u.drop_last(), k) == Seq::<usize>::empty());
        assert(head + positions(t, k).map_values(|p: usize| (p + 1) as usize) =~= head);
        assert(Seq::<usize>::empty().push(0usize) =~= seq![0usize]);
    } else {
        let d = t.drop_last();
        lemma_positions_prepend(x, d, k);
        assert(u.drop_last() =~= seq![x] + d);
        assert(u.last() == t.last());
        let f = |p: usize| (p + 1) as usize;
        if t.last().0 == k {
            assert(positions(t, k) == positions(d, k).push((t.len() - 1) as usize));
            assert(positions(u, k) == positions(seq![x] + d, k).push((u.len() - 1) as usize));
            assert(positions(t, k).map_values(f) =~= positions(d, k).map_values(f).push(
                (u.len() - 1) as usize,
            ));
            assert((head + positions(d, k).map_values(f)).push((u.len() - 1) as usize) =~= head
                + positions(d, k).map_values(f).push((u.len() - 1) as usize));
        } else {
            assert(positions(t, k) == positions(d, k));
            assert(positions(u, k) == positions(seq![x] + d, k));
        }
    }
}

/// The positions of a key in the reversed pairs: the old positions,
/// counted from the other end, in reverse order.
pub proof fn lemma_positions_reverse<K, V>(s: Seq<(K, V)>, k: K)
    requires
        s.len() <= usize::MAX,
    ensures
        positions(s.reverse(), k) == positions(s, k).reverse().map_values(
            |p: usize| (s.len() - 1 - p) as usize,
        ),
    decreases s.len(),
{
    if s.len() == 0 {
        assert(s.reverse() =~= s);
        assert(positions(s, k).reverse().map_values(|p: usize| (s.len() - 1 - p) as usize)
            =~= Seq::<usize>::empty());
    } else {
        let d = s.drop_first();
        let n = s.len();
        lemma_positions_reverse(d, k);
        assert(s =~= seq![s[0]] + d);
        lemma_positions_prepend(s[0], d, k);
        lemma_positions(d, k);
        let r = s.reverse();
        assert(r.drop_last() =~= d.reverse());
        assert(r.last() == s[0]);
        let pd = positions(d, k);
        let inc = |p: usize| (p + 1) as usize;
        let back_s = |p: usize| (n - 1 - p) as usize;
        let back_d = |p: usize| (n - 2 - p) as usize;
        assert(positions(d.reverse(), k) == pd.reverse().map_values(back_d));
        assert(pd.map_values(inc).reverse().map_values(back_s) =~= pd.reverse().map_values(back_d))
            by {
            assert forall|i: int| 0 <= i < pd.len() implies #[trigger] pd[i] < d.len() by {}
        }
        if s[0].0 == k {
            assert((seq![0usize] + pd.map_values(inc)).reverse().map_values(back_s)
                =~= pd.map_values(inc).reverse().map_values(back_s).push((n - 1) as usize));
            assert(positions(r, k) == positions(d.reverse(), k).push((r.len() - 1) as usize));
        } else {
            assert((Seq::<usize>::empty() + pd.map_values(inc)) =~= pd.map_values(inc));
            assert(positions(r, k) == positions(d.reverse(), k));
        }
    }
}

} // verus!
