//! The index of a map: a `HashMap` from every key to the positions of its
//! pairs, and the operations that keep it in step with the pairs.
use vstd::prelude::*;
use vstd::std_specs::hash::{obeys_key_model, spec_keys_iter};
use vstd::std_specs::iter::IteratorSpec;
use std::collections::HashMap;
use std::hash::Hash;

use crate::model::{
    has_group, has_key, index_describes, key_set, lemma_positions, map_describes, positions,
    values_of,
};

verus! {

/// The keys of the index are the keys of the pairs it describes.
pub(crate) proof fn lemma_map_keys<K, V>(m: Map<K, Vec<usize>>, s: Seq<(K, V)>, k: K)
    requires
        map_describes(m, s),
        s.len() <= usize::MAX,
    ensures
        m.contains_key(k) <==> has_key(s, k),
{
    lemma_positions(s, k);
    if has_key(s, k) {
        let i = choose|i: int| 0 <= i < s.len() && #[trigger] s[i].0 == k;
        assert(m.contains_key(s[i].0));
    }
}

/// The keys of a list of index entries are the keys of the pairs it
/// describes.
pub(crate) proof fn lemma_group_keys<K, V, P: View<V = Seq<usize>>>(
    g: Seq<(K, P)>,
    s: Seq<(K, V)>,
    k: K,
)
    requires
        index_describes(g, s),
        s.len() <= usize::MAX,
    ensures
        has_group(g, k) <==> has_key(s, k),
{
    if has_group(g, k) {
        let a = choose|a: int| 0 <= a < g.len() && (#[trigger] g[a]).0 == k;
        lemma_positions(s, k);
        assert(g[a].1@ == positions(s, k));
    }
    if has_key(s, k) {
        let i = choose|i: int| 0 <= i < s.len() && #[trigger] s[i].0 == k;
        assert(has_group(g, s[i].0));
    }
}

/// The keys of the index are exactly the set of keys of the pairs.
pub(crate) proof fn lemma_map_dom<K, V>(m: Map<K, Vec<usize>>, s: Seq<(K, V)>)
    requires
        map_describes(m, s),
        s.len() <= usize::MAX,
    ensures
        m.dom() == key_set(s),
{
    assert forall|k: K| m.dom().contains(k) <==> key_set(s).contains(k) by {
        lemma_map_keys(m, s, k);
    }
    assert(m.dom() =~= key_set(s));
}

/// Records in the index `m` that the pair at position `idx` has key `k`;
/// returns the number of pairs with key `k` afterwards.
pub(crate) fn index_add<K: Hash + Eq + Copy, V>(
    m: &mut HashMap<K, Vec<usize>>,
    Ghost(s): Ghost<Seq<(K, V)>>,
    Ghost(t): Ghost<Seq<(K, V)>>,
    k: K,
    idx: usize,
) -> (count: usize)
    requires
        obeys_key_model::<K>(),
        map_describes(old(m)@, s),
        t.len() == s.len() + 1,
        t.len() <= usize::MAX,
        t.drop_last() == s,
        t.last().0 == k,
        idx == s.len(),
    ensures
        map_describes(final(m)@, t),
        count == values_of(t, k).len(),
{
    let ghost m0 = m@;
    assert forall|i: int| 0 <= i < s.len() implies #[trigger] t[i] == s[i] by {
        assert(t.drop_last()[i] == t[i]);
    }
    assert(positions(t, k) == positions(s, k).push(idx));
    assert forall|k2: K| k2 != k implies positions(t, k2) == positions(s, k2) by {}
    proof {
        lemma_positions(s, k);
        lemma_positions(t, k);
        lemma_map_keys(m0, s, k);
    }
    let mut idxs: Vec<usize> = match m.remove(&k) {
        Some(v) => v,
        None => Vec::new(),
    };
    assert(idxs@ == positions(s, k));
    idxs.push(idx);
    let count = idxs.len();
    m.insert(k, idxs);
    proof {
        let m1 = m@;
        assert forall|k2: K| #[trigger] m1.contains_key(k2) implies m1[k2]@ == positions(t, k2)
            && m1[k2]@.len() > 0 by {
            if k2 != k {
                assert(m0.contains_key(k2));
            }
        }
        assert forall|i: int| 0 <= i < t.len() implies m1.contains_key(#[trigger] t[i].0) by {
            if i < s.len() {
                assert(m0.contains_key(s[i].0));
            }
        }
    }
    count
}

/// Removes from the index `m` the last pair of the pairs `s` it describes;
/// `k` is the key of that pair.
pub(crate) fn index_remove_last<K: Hash + Eq + Copy, V>(
    m: &mut HashMap<K, Vec<usize>>,
    Ghost(s): Ghost<Seq<(K, V)>>,
    k: K,
    last: usize,
)
    requires
        obeys_key_model::<K>(),
        map_describes(old(m)@, s),
        s.len() > 0,
        last == s.len() - 1,
        s.len() <= usize::MAX,
        k == s.last().0,
    ensures
        map_describes(final(m)@, s.drop_last()),
{
    let ghost m0 = m@;
    let ghost t = s.drop_last();
    assert(positions(s, k) == positions(t, k).push(last));
    assert forall|k2: K| k2 != k implies positions(s, k2) == positions(t, k2) by {}
    assert forall|i: int| 0 <= i < t.len() implies #[trigger] t[i] == s[i] by {}
    assert(m0.contains_key(s[s.len() - 1].0));
    let mut idxs = m.remove(&k).unwrap();
    idxs.pop();
    assert(idxs@ =~= positions(t, k));
    if idxs.len() > 0 {
        m.insert(k, idxs);
    } else {
        proof {
            lemma_positions(t, k);
        }
    }
    proof {
        let m1 = m@;
        assert forall|k2: K| #[trigger] m1.contains_key(k2) implies m1[k2]@ == positions(t, k2)
            && m1[k2]@.len() > 0 by {
            if k2 != k {
                assert(m0.contains_key(k2));
            }
        }
        assert forall|i: int| 0 <= i < t.len() implies m1.contains_key(#[trigger] t[i].0) by {
            assert(m0.contains_key(s[i].0));
            if t[i].0 == k {
                assert(has_key(t, k));
            }
        }
    }
}

/// Builds the index of `data` from scratch.
pub(crate) fn rebuild_index<K: Hash + Eq + Copy, V>(data: &Vec<(K, V)>) -> (m: HashMap<K, Vec<usize>>)
    requires
        obeys_key_model::<K>(),
    ensures
        map_describes(m@, data@),
{
    let mut m: HashMap<K, Vec<usize>> = HashMap::new();
    let mut i: usize = 0;
    assert(data@.take(0) =~= Seq::<(K, V)>::empty());
    while i < data.len()
        invariant
            i <= data@.len(),
            obeys_key_model::<K>(),
            map_describes(m@, data@.take(i as int)),
        decreases data@.len() - i,
    {
        assert(data@.take(i + 1).drop_last() =~= data@.take(i as int));
        index_add::<K, V>(&mut m, Ghost(data@.take(i as int)), Ghost(data@.take(i + 1)), data[i].0, i);
        i += 1;
    }
    assert(data@.take(data@.len() as int) =~= data@);
    m
}

/// The keys of the index, each once, in the order the `HashMap` walks them.
pub(crate) fn key_list<K: Hash + Eq + Copy>(m: &HashMap<K, Vec<usize>>) -> (r: Vec<K>)
    requires
        obeys_key_model::<K>(),
    ensures
        r@.no_duplicates(),
        forall|k: K| r@.contains(k) <==> m@.contains_key(k),
{
    let mut r: Vec<K> = Vec::new();
    let ghost ks = spec_keys_iter(m).remaining();
    for k in it: m.keys()
        invariant
            r@ == it.seq().take(it.index() as int).map_values(|x: &K| *x),
            it.seq() == ks,
    {
        r.push(*k);
        assert(r@ =~= it.seq().take(it.index() + 1).map_values(|x: &K| *x));
    }
    proof {
        assert(r@ =~= ks.unref());
        assert forall|k: K| r@.contains(k) <==> m@.contains_key(k) by {
            assert(r@.to_set().contains(k) <==> r@.contains(k));
        }
    }
    r
}

/// The entries of the index `m` describing the pairs `s`: every key once,
/// with a reference to its positions.
pub(crate) fn index_entries<'a, K: Hash + Eq + Copy, V>(
    m: &'a HashMap<K, Vec<usize>>,
    Ghost(s): Ghost<Seq<(K, V)>>,
) -> (r: Vec<(K, &'a Vec<usize>)>)
    requires
        obeys_key_model::<K>(),
        map_describes(m@, s),
        s.len() <= usize::MAX,
    ensures
        index_describes(r@, s),
{
    let keys = key_list(m);
    let mut r: Vec<(K, &'a Vec<usize>)> = Vec::with_capacity(keys.len());
    let mut a: usize = 0;
    while a < keys.len()
        invariant
            a <= keys@.len(),
            r@.len() == a,
            obeys_key_model::<K>(),
            keys@.no_duplicates(),
            forall|k: K| keys@.contains(k) <==> m@.contains_key(k),
            forall|b: int| 0 <= b < a ==> (#[trigger] r@[b]).0 == keys@[b] && *r@[b].1 == m@[keys@[b]],
        decreases keys@.len() - a,
    {
        let k = keys[a];
        assert(keys@.contains(k));
        let idxs = m.get(&k).unwrap();
        r.push((k, idxs));
        a += 1;
    }
    proof {
        let g = r@;
        assert forall|x: int, y: int|
            #![trigger g[x], g[y]]
            0 <= x < g.len() && 0 <= y < g.len() && x != y implies g[x].0 != g[y].0 by {
            assert(keys@[x] != keys@[y]);
        }
        assert forall|x: int| 0 <= x < g.len() implies (#[trigger] g[x]).1@ == positions(s, g[x].0)
            && g[x].1@.len() > 0 by {
            assert(keys@.contains(keys@[x]));
            assert(m@.contains_key(g[x].0));
        }
        assert forall|i: int| 0 <= i < s.len() implies has_group(g, #[trigger] s[i].0) by {
            assert(m@.contains_key(s[i].0));
            assert(keys@.contains(s[i].0));
            let x = choose|x: int| 0 <= x < keys@.len() && keys@[x] == s[i].0;
            assert(g[x].0 == s[i].0);
        }
    }
    r
}

} // verus!
