//! Properties of the map that relate several operations, stated over the
//! model in `model` that the operations' contracts use.
use vstd::prelude::*;

use vstd::std_specs::cmp::PartialEqSpec;
use std::hash::Hash;

use crate::map::TotalOrderMultiMap;
use crate::model::{has_key, key_set, kept, lemma_has_key_values, values_of, without_key};

verus! {

/// After `insert(k, v)`, `get(k)` gives the values it gave before followed
/// by `v`, and `get` of any other key gives what it gave before.
pub proof fn law_get_after_insert<K, V>(s: Seq<(K, V)>, k: K, v: V, other: K)
    ensures
        values_of(s.push((k, v)), k) == values_of(s, k).push(v),
        other != k ==> values_of(s.push((k, v)), other) == values_of(s, other),
{
    assert(s.push((k, v)).drop_last() =~= s);
}

/// `insert` returns one more than the number of values the key had before.
pub proof fn law_insert_count<K, V>(s: Seq<(K, V)>, k: K, v: V)
    ensures
        values_of(s.push((k, v)), k).len() == values_of(s, k).len() + 1,
{
    law_get_after_insert(s, k, v, k);
}

/// `pop` right after `insert(k, v)` gives back `(k, v)` and the map as it
/// was before the insertion.
pub proof fn law_pop_undoes_insert<K, V>(s: Seq<(K, V)>, k: K, v: V)
    ensures
        s.push((k, v)).len() > 0,
        s.push((k, v)).last() == (k, v),
        s.push((k, v)).drop_last() == s,
{
    assert(s.push((k, v)).drop_last() =~= s);
}

/// A key is contained in the map exactly when `get` gives it at least one
/// value.
pub proof fn law_contains_iff_values<K, V>(s: Seq<(K, V)>, k: K)
    ensures
        has_key(s, k) <==> values_of(s, k).len() > 0,
{
    lemma_has_key_values(s, k);
}

/// After `remove_all(k)` the key has no values and is not contained, the
/// other keys keep their values, and the map shrank by the values of `k`.
pub proof fn law_remove_all<K, V>(s: Seq<(K, V)>, k: K, other: K)
    ensures
        values_of(without_key(s, k), k) == Seq::<V>::empty(),
        !has_key(without_key(s, k), k),
        other != k ==> values_of(without_key(s, k), other) == values_of(s, other),
        without_key(s, k).len() + values_of(s, k).len() == s.len(),
    decreases s.len(),
{
    if s.len() > 0 {
        let t = s.drop_last();
        law_remove_all(t, k, other);
        if s.last().0 != k {
            assert(without_key(s, k).drop_last() =~= without_key(t, k));
        }
    }
    lemma_has_key_values(without_key(s, k), k);
}

/// The values of a key when a pair is put in front of the pairs.
proof fn lemma_values_prepend<K, V>(x: (K, V), t: Seq<(K, V)>, k: K)
    ensures
        values_of(seq![x] + t, k) == if x.0 == k {
            seq![x.1] + values_of(t, k)
        } else {
            values_of(t, k)
        },
    decreases t.len(),
{
    let u = seq![x] + t;
    if t.len() == 0 {
        assert(u =~= seq![x]);
        assert(u.drop_last() =~= Seq::<(K, V)>::empty());
        assert(seq![x.1] + Seq::<V>::empty() =~= seq![x.1]);
        assert(Seq::<V>::empty().push(x.1) =~= seq![x.1]);
        assert(values_of(t, k) == Seq::<V>::empty());
        assert(values_of(u.drop_last(), k) == Seq::<V>::empty());
        assert(u.last() == x);
    } else {
        lemma_values_prepend(x, t.drop_last(), k);
        assert(u.drop_last() =~= seq![x] + t.drop_last());
        assert(u.last() == t.last());
        assert(values_of(u, k) == if t.last().0 == k {
            values_of(seq![x] + t.drop_last(), k).push(t.last().1)
        } else {
            values_of(seq![x] + t.drop_last(), k)
        });
        if x.0 == k {
            assert((seq![x.1] + values_of(t.drop_last(), k)).push(t.last().1) =~= seq![x.1] + values_of(
                t.drop_last(),
                k,
            ).push(t.last().1));
        }
    }
}

/// Reversing the map reverses the order of the values of every key, as
/// if they had been inserted in reverse order.
pub proof fn law_reverse_values<K, V>(s: Seq<(K, V)>, k: K)
    ensures
        values_of(s.reverse(), k) == values_of(s, k).reverse(),
    decreases s.len(),
{
    if s.len() == 0 {
        assert(s.reverse() =~= s);
        assert(values_of(s, k).reverse() =~= Seq::<V>::empty());
    } else {
        let d = s.drop_first();
        law_reverse_values(d, k);
        assert(s =~= seq![s[0]] + d);
        lemma_values_prepend(s[0], d, k);
        let r = s.reverse();
        assert(r.drop_last() =~= d.reverse());
        assert(r.last() == s[0]);
        let w = values_of(d, k);
        if s[0].0 == k {
            assert((seq![s[0].1] + w).reverse() =~= w.reverse().push(s[0].1));
        }
    }
}

/// Reversing twice gives back the map.
pub proof fn law_reverse_twice<K, V>(s: Seq<(K, V)>)
    ensures
        s.reverse().reverse() == s,
{
    assert(s.reverse().reverse() =~= s);
}

/// The sum of the numbers of values of the keys `ks`.
pub open spec fn total_values<K, V>(ks: Seq<K>, s: Seq<(K, V)>) -> nat
    decreases ks.len(),
{
    if ks.len() == 0 {
        0
    } else {
        total_values(ks.drop_last(), s) + values_of(s, ks.last()).len()
    }
}

/// Adding a pair adds one to the total of the keys `ks` if its key is among
/// them.
proof fn lemma_total_values_push<K, V>(ks: Seq<K>, s: Seq<(K, V)>, p: (K, V))
    requires
        ks.no_duplicates(),
    ensures
        total_values(ks, s.push(p)) == total_values(ks, s) + if ks.contains(p.0) {
            1nat
        } else {
            0nat
        },
    decreases ks.len(),
{
    assert(s.push(p).drop_last() =~= s);
    if ks.len() > 0 {
        let d = ks.drop_last();
        assert(d.no_duplicates());
        lemma_total_values_push(d, s, p);
        if ks.last() == p.0 {
            assert(!d.contains(p.0));
            assert(ks.contains(p.0)) by {
                assert(ks[ks.len() - 1] == p.0);
            }
        } else {
            if d.contains(p.0) {
                let i = choose|i: int| 0 <= i < d.len() && d[i] == p.0;
                assert(ks[i] == p.0);
            }
            if ks.contains(p.0) {
                let i = choose|i: int| 0 <= i < ks.len() && ks[i] == p.0;
                assert(d[i] == p.0);
            }
        }
    }
}

/// The groups of values, one per key, together hold every pair exactly
/// once: their sizes add up to the number of pairs.
pub proof fn law_group_sizes_sum<K, V>(ks: Seq<K>, s: Seq<(K, V)>)
    requires
        ks.no_duplicates(),
        forall|k: K| has_key(s, k) ==> ks.contains(k),
    ensures
        total_values(ks, s) == s.len(),
    decreases s.len(),
{
    if s.len() == 0 {
        lemma_total_values_empty(ks, s);
    } else {
        let t = s.drop_last();
        let p = s.last();
        assert forall|k: K| has_key(t, k) implies ks.contains(k) by {
            let i = choose|i: int| 0 <= i < t.len() && #[trigger] t[i].0 == k;
            assert(s[i].0 == k);
        }
        law_group_sizes_sum(ks, t);
        assert(s[s.len() - 1].0 == p.0);
        assert(t.push(p) =~= s);
        lemma_total_values_push(ks, t, p);
    }
}

/// With no pairs, every key has no values.
proof fn lemma_total_values_empty<K, V>(ks: Seq<K>, s: Seq<(K, V)>)
    requires
        s.len() == 0,
    ensures
        total_values(ks, s) == 0,
    decreases ks.len(),
{
    if ks.len() > 0 {
        lemma_total_values_empty(ks.drop_last(), s);
    }
}

/// There are never more keys than pairs.
pub proof fn law_key_count_at_most_len<K, V>(s: Seq<(K, V)>)
    ensures
        key_set(s).finite(),
        key_set(s).len() <= s.len(),
{
    let ks = s.map_values(|p: (K, V)| p.0);
    assert forall|k: K| key_set(s).contains(k) <==> ks.to_set().contains(k) by {
        if has_key(s, k) {
            let i = choose|i: int| 0 <= i < s.len() && #[trigger] s[i].0 == k;
            assert(ks[i] == k);
        }
        if ks.contains(k) {
            let i = choose|i: int| 0 <= i < ks.len() && ks[i] == k;
            assert(s[i].0 == k);
        }
    }
    assert(key_set(s) =~= ks.to_set());
    ks.lemma_cardinality_of_set();
}

/// `==` on maps follows its spec exactly when `==` on keys and on values
/// does, and then two maps are equal exactly when they have the same
/// number of pairs and their pairs are equal one by one, in insertion
/// order: keys by the keys' `==`, values by the values' `==`.
pub proof fn law_eq_pairwise<K: Hash + Eq + Copy, V: PartialEq>(
    m1: TotalOrderMultiMap<K, V>,
    m2: TotalOrderMultiMap<K, V>,
)
    ensures
        TotalOrderMultiMap::<K, V>::obeys_eq_spec() <==> (K::obeys_eq_spec() && V::obeys_eq_spec()),
        m1.eq_spec(&m2) <==> {
            &&& m1@.len() == m2@.len()
            &&& forall|i: int|
                0 <= i < m1@.len() ==> (#[trigger] m1@[i]).0.eq_spec(&m2@[i].0) && m1@[i].1.eq_spec(
                    &m2@[i].1,
                )
        },
{
}

/// Where `==` on keys and on values is the equality of their values, two
/// maps are equal exactly when they hold the same pairs in the same
/// insertion order.
pub proof fn law_eq_same_pairs_in_order<K: Hash + Eq + Copy, V: PartialEq>(
    m1: TotalOrderMultiMap<K, V>,
    m2: TotalOrderMultiMap<K, V>,
)
    requires
        forall|a: K, b: K| a.eq_spec(&b) <==> a == b,
        forall|a: V, b: V| a.eq_spec(&b) <==> a == b,
    ensures
        m1.eq_spec(&m2) <==> m1@ == m2@,
{
    if m1.eq_spec(&m2) {
        assert forall|i: int| 0 <= i < m1@.len() implies m1@[i] == m2@[i] by {
            assert(m1@[i].0.eq_spec(&m2@[i].0));
            assert(m1@[i].1.eq_spec(&m2@[i].1));
        }
        assert(m1@ =~= m2@);
    }
    if m1@ == m2@ {
        assert forall|i: int| 0 <= i < m1@.len() implies (#[trigger] m1@[i]).0.eq_spec(&m2@[i].0)
            && m1@[i].1.eq_spec(&m2@[i].1) by {}
    }
}

/// Keeping the pairs whose flag is set, where every flag is what the rule
/// `p` says of its pair, is filtering the pairs by `p`: the pairs `p`
/// accepts stay, in their order, and all others go.
pub proof fn law_kept_is_filter<K, V>(s: Seq<(K, V)>, keep: Seq<bool>, p: spec_fn((K, V)) -> bool)
    requires
        keep.len() == s.len(),
        forall|i: int| 0 <= i < s.len() ==> #[trigger] keep[i] == p(s[i]),
    ensures
        kept(s, keep) == s.filter(p),
    decreases s.len(),
{
    reveal(Seq::filter);
    if s.len() > 0 {
        let t = s.drop_last();
        let kt = keep.drop_last();
        assert forall|i: int| 0 <= i < t.len() implies #[trigger] kt[i] == p(t[i]) by {
            assert(keep[i] == p(s[i]));
        }
        law_kept_is_filter(t, kt, p);
        assert(keep[s.len() - 1] == p(s[s.len() - 1]));
    }
}

} // verus!
