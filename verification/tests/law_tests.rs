use std::collections::HashSet;

use lib::{
    DebugIterableOpaque, EntryValues, EntryValuesMut, GroupedValuesMut, Iter, Keys, TotalOrderMultiMap,
};

fn law_pairs<'a, K: Copy, V>(mut it: Iter<'a, K, V>) -> Vec<(K, V)>
where
    V: Copy,
{
    let mut out = Vec::new();
    while let Some((k, v)) = it.next() {
        out.push((k, *v));
    }
    out
}

fn law_values<'a, K: Copy, V: Copy>(mut it: EntryValues<'a, K, V>) -> Vec<V> {
    let mut out = Vec::new();
    while let Some(v) = it.next() {
        out.push(*v);
    }
    out
}

fn law_values_mut<'a, K, V: Copy>(mut it: EntryValuesMut<'a, K, V>) -> Vec<V> {
    let mut out = Vec::new();
    while let Some(v) = it.next() {
        out.push(*v);
    }
    out
}

fn law_keys<'a, K: Copy>(mut it: Keys<'a, K>) -> Vec<K> {
    let mut out = Vec::new();
    while let Some(k) = it.next() {
        out.push(k);
    }
    out
}

fn sample() -> TotalOrderMultiMap<u32, i64> {
    let mut map = TotalOrderMultiMap::new();
    map.insert(1, 10);
    map.insert(2, 20);
    map.insert(1, 11);
    map.insert(3, 30);
    map.insert(1, 12);
    map
}

#[test]
fn insert_returns_new_count() {
    let mut map = TotalOrderMultiMap::new();
    assert_eq!(1, map.insert("a", 1));
    assert_eq!(1, map.insert("b", 2));
    assert_eq!(2, map.insert("a", 3));
    assert_eq!(3, map.insert("a", 4));
    assert_eq!(4, map.len());
}

#[test]
fn get_after_insert_appends_value() {
    let mut map = sample();
    assert_eq!(vec![10, 11, 12], law_values(map.get(1).unwrap()));
    map.insert(1, 13);
    assert_eq!(vec![10, 11, 12, 13], law_values(map.get(1).unwrap()));
    assert_eq!(vec![20], law_values(map.get(2).unwrap()));
    assert!(map.get(4).is_none());
}

#[test]
fn insertion_order_is_total() {
    let map = sample();
    assert_eq!(
        vec![(1, 10), (2, 20), (1, 11), (3, 30), (1, 12)],
        law_pairs(map.iter())
    );
}

#[test]
fn pop_undoes_insert() {
    let mut map = sample();
    let before = law_pairs(map.iter());
    map.insert(7, 70);
    assert_eq!(Some((7, 70)), map.pop());
    assert_eq!(before, law_pairs(map.iter()));
    assert!(!map.contains_key(7));
    assert_eq!(3, map.key_count());
}

#[test]
fn pop_on_empty_map() {
    let mut map: TotalOrderMultiMap<u32, i64> = TotalOrderMultiMap::new();
    assert_eq!(None, map.pop());
    assert!(map.is_empty());
}

#[test]
fn pop_of_last_value_removes_key() {
    let mut map = sample();
    assert_eq!(Some((1, 12)), map.pop());
    assert_eq!(Some((3, 30)), map.pop());
    assert!(!map.contains_key(3));
    assert!(map.get(3).is_none());
    assert_eq!(2, map.key_count());
    assert_eq!(vec![10, 11], law_values(map.get(1).unwrap()));
}

#[test]
fn remove_all_removes_only_that_key() {
    let mut map = sample();
    assert!(map.remove_all(1));
    assert!(!map.contains_key(1));
    assert!(map.get(1).is_none());
    assert_eq!(vec![(2, 20), (3, 30)], law_pairs(map.iter()));
    assert_eq!(vec![20], law_values(map.get(2).unwrap()));
    assert_eq!(2, map.len());
    assert!(!map.remove_all(1));
}

#[test]
fn reverse_reverses_values_of_each_key() {
    let mut map = sample();
    map.reverse();
    assert_eq!(vec![12, 11, 10], law_values(map.get(1).unwrap()));
    assert_eq!(
        vec![(1, 12), (3, 30), (1, 11), (2, 20), (1, 10)],
        law_pairs(map.iter())
    );
    map.reverse();
    assert_eq!(law_pairs(sample().iter()), law_pairs(map.iter()));
}

#[test]
fn contains_key_iff_get_some() {
    let map = sample();
    for k in 0..5u32 {
        assert_eq!(map.contains_key(k), map.get(k).is_some());
    }
    assert!(map.get(1).unwrap().len() > 0);
}

#[test]
fn keys_each_key_once() {
    let map = sample();
    let keys = law_keys(map.keys());
    assert_eq!(3, keys.len());
    assert_eq!(3, map.key_count());
    let set: HashSet<u32> = keys.iter().copied().collect();
    assert_eq!(set, [1, 2, 3].into_iter().collect::<HashSet<u32>>());
    assert!(map.key_count() <= map.len());
    let k = map.keys();
    assert_eq!(3, k.len());
    assert_eq!((3, Some(3)), k.size_hint());
}

#[test]
fn group_sizes_sum_to_len() {
    let map = sample();
    let mut groups = map.group_iter();
    let mut total = 0;
    let mut seen = HashSet::new();
    while let Some(mut g) = groups.next() {
        assert!(seen.insert(g.key()));
        let (n, _) = g.size_hint();
        let mut vals = Vec::new();
        while let Some(v) = g.next() {
            vals.push(*v);
        }
        assert_eq!(n, vals.len());
        assert_eq!(law_values(map.get(g.key()).unwrap()), vals);
        total += vals.len();
    }
    assert_eq!(map.len(), total);
}

#[test]
fn retain_keeps_accepted_in_order() {
    let mut map = sample();
    let mut calls = Vec::new();
    map.retain(|k, v| {
        calls.push((k, *v));
        *v % 2 == 1 || k == 2
    });
    assert_eq!(vec![(1, 10), (2, 20), (1, 11), (3, 30), (1, 12)], calls);
    assert_eq!(vec![(2, 20), (1, 11)], law_pairs(map.iter()));
    assert!(!map.contains_key(3));
    assert_eq!(2, map.key_count());
}

#[test]
fn iter_mut_writes_through() {
    let mut map = sample();
    {
        let mut it = map.iter_mut();
        assert_eq!(5, it.len());
        assert_eq!((5, Some(5)), it.size_hint());
        while let Some((k, v)) = it.next() {
            *v += k as i64;
        }
    }
    assert_eq!(
        vec![(1, 11), (2, 22), (1, 12), (3, 33), (1, 13)],
        law_pairs(map.iter())
    );
}

#[test]
fn values_mut_writes_through() {
    let mut map = sample();
    {
        let mut it = map.values_mut();
        assert_eq!(5, it.len());
        while let Some(v) = it.next() {
            *v = -*v;
        }
    }
    assert_eq!(vec![-10, -11, -12], law_values(map.get(1).unwrap()));
}

#[test]
fn group_iter_mut_writes_through() {
    let mut map = sample();
    {
        let mut groups: GroupedValuesMut<'_, u32, i64> = map.group_iter_mut();
        while let Some(mut g) = groups.next() {
            let key = g.key();
            let mut i = 0;
            assert_eq!(g.len(), g.size_hint().0);
            while let Some(v) = g.next() {
                *v = (key as i64) * 100 + i;
                i += 1;
            }
        }
    }
    assert_eq!(
        vec![(1, 100), (2, 200), (1, 101), (3, 300), (1, 102)],
        law_pairs(map.iter())
    );
    assert_eq!(vec![100, 101, 102], law_values(map.get(1).unwrap()));
}

#[test]
fn extend_and_from_iter_keep_order() {
    let mut map = TotalOrderMultiMap::from_iter(vec![(1u32, 10i64), (2, 20)]);
    map.extend(vec![(1, 11), (3, 30)]);
    assert_eq!(vec![(1, 10), (2, 20), (1, 11), (3, 30)], law_pairs(map.iter()));
    assert_eq!(vec![10, 11], law_values(map.get(1).unwrap()));
    let empty: TotalOrderMultiMap<u32, i64> = TotalOrderMultiMap::from_iter(Vec::new());
    assert!(empty.is_empty());
}

#[test]
fn equality_considers_order() {
    let a = sample();
    let b = a.clone();
    assert!(a == b);
    let mut c = TotalOrderMultiMap::new();
    c.insert(2, 20);
    c.insert(1, 10);
    c.insert(1, 11);
    c.insert(3, 30);
    c.insert(1, 12);
    assert!(a != c);
    let mut d = a.clone();
    d.pop();
    assert!(a != d);
}

#[test]
fn default_is_empty() {
    let map: TotalOrderMultiMap<u32, i64> = Default::default();
    assert!(map.is_empty());
    assert_eq!(0, map.key_count());
    assert!(map.capacity() >= map.len());
}

#[test]
fn shrink_keeps_contents() {
    let mut map = TotalOrderMultiMap::with_capacity(64);
    map.insert(1u32, 10i64);
    map.insert(2, 20);
    map.remove_all(2);
    map.shrink_to_fit();
    assert_eq!(vec![(1, 10)], law_pairs(map.iter()));
    assert!(map.capacity() >= 1);
    assert!(map.capacity() < 64);
}

#[test]
fn into_iter_gives_pairs_in_order() {
    let map = sample();
    let got: Vec<(u32, i64)> = map.into_iter().collect();
    assert_eq!(vec![(1, 10), (2, 20), (1, 11), (3, 30), (1, 12)], got);
}

#[test]
fn add_returns_values_of_key() {
    let mut map = sample();
    let vals = law_values(map.add(1, 13));
    assert_eq!(vec![10, 11, 12, 13], vals);
    let vals = law_values(map.add(9, 90));
    assert_eq!(vec![90], vals);
}

#[test]
fn entry_add_on_new_key() {
    let mut map = sample();
    let e = map.entry(5);
    assert_eq!(5, e.key());
    assert_eq!(0, e.value_count());
    let vals = law_values_mut(e.add(50));
    assert_eq!(vec![50], vals);
    assert_eq!(Some((5, 50)), map.pop());
}

#[test]
fn iterators_count_down() {
    let map = sample();
    let mut it = map.iter();
    assert_eq!(5, it.len());
    let copy = it.clone();
    it.next();
    assert_eq!(4, it.len());
    assert_eq!((4, Some(4)), it.size_hint());
    assert_eq!(5, copy.len());
    let mut vals = map.values();
    vals.next();
    assert_eq!(4, vals.len());
    assert_eq!(5, vals.clone().len() + 1);
    let mut ev = map.get(1).unwrap();
    let ev2 = ev.clone();
    ev.next();
    assert_eq!(2, ev.len());
    assert_eq!(3, ev2.len());
}

#[test]
fn debug_iterable_opaque_holds_iterator() {
    let wrapped = DebugIterableOpaque::new(vec![1, 2, 3].into_iter());
    let _ = wrapped;
}

#[test]
fn unused_entry_keeps_map() {
    let mut map = sample();
    {
        let e = map.entry(1);
        assert_eq!(3, e.value_count());
    }
    assert_eq!(vec![(1, 10), (2, 20), (1, 11), (3, 30), (1, 12)], law_pairs(map.iter()));
}

#[test]
fn partly_used_iter_mut_keeps_the_rest() {
    let mut map = sample();
    {
        let mut it = map.iter_mut();
        if let Some((_, v)) = it.next() {
            *v = 99;
        }
    }
    assert_eq!(vec![(1, 99), (2, 20), (1, 11), (3, 30), (1, 12)], law_pairs(map.iter()));
}

#[test]
fn entry_add_gives_writable_values() {
    let mut map = sample();
    {
        let e = map.entry(1);
        let mut vals = e.add(13);
        assert_eq!(4, vals.len());
        assert_eq!((4, Some(4)), vals.size_hint());
        *vals.next().unwrap() = 100;
        vals.next();
        vals.next();
        *vals.next().unwrap() = 130;
        assert!(vals.next().is_none());
    }
    assert_eq!(
        vec![(1, 100), (2, 20), (1, 11), (3, 30), (1, 12), (1, 130)],
        law_pairs(map.iter())
    );
    assert_eq!(vec![100, 11, 12, 130], law_values(map.get(1).unwrap()));
}

#[test]
fn retain_by_value() {
    let mut map = TotalOrderMultiMap::new();
    map.insert("k1", "ok");
    map.insert("k2", "why not?");
    map.insert("k1", "run");
    map.insert("k2", "uh");
    map.retain(|k, v| k == "k1" && v.len() > 2);
    assert_eq!(1, map.len());
    assert_eq!(vec!["run"], law_values(map.get("k1").unwrap()));
    assert!(map.get("k2").is_none());
    assert!(!map.contains_key("k2"));
    assert_eq!(1, map.key_count());
}

#[test]
fn equality_is_pairwise_in_order() {
    let mut a = TotalOrderMultiMap::new();
    a.insert("k1", "a");
    a.insert("k2", "b");
    let mut b = TotalOrderMultiMap::new();
    b.insert("k2", "b");
    b.insert("k1", "a");
    assert!(a != b);
    let mut c = TotalOrderMultiMap::new();
    c.insert("k1", "a");
    c.insert("k2", "b");
    assert!(a == c);
}
