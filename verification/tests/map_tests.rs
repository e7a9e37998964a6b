use std::collections::HashSet;
use std::fmt::Debug;
use std::sync::Arc;

use lib::{EntryValues, Group, GroupedValues, Iter, TotalOrderMultiMap, Values};

fn arc_str(s: &str) -> Arc<str> {
    <Arc<str> as From<String>>::from(s.to_owned())
}

fn pairs_of<'a, K: Copy, V>(mut it: Iter<'a, K, V>) -> Vec<(K, &'a V)> {
    let mut out = Vec::new();
    while let Some(p) = it.next() {
        out.push(p);
    }
    out
}

fn values_in<'a, K: Copy, V>(mut it: EntryValues<'a, K, V>) -> Vec<&'a V> {
    let mut out = Vec::new();
    while let Some(v) = it.next() {
        out.push(v);
    }
    out
}

fn all_values<'a, K, V>(mut it: Values<'a, K, V>) -> Vec<&'a V> {
    let mut out = Vec::new();
    while let Some(v) = it.next() {
        out.push(v);
    }
    out
}

fn group_values<'a, K: Copy, V>(mut it: Group<'a, K, V>) -> Vec<&'a V> {
    let mut out = Vec::new();
    while let Some(v) = it.next() {
        out.push(v);
    }
    out
}

fn groups_of<'a, K: Copy, V>(mut it: GroupedValues<'a, K, V>) -> Vec<Group<'a, K, V>> {
    let mut out = Vec::new();
    while let Some(g) = it.next() {
        out.push(g);
    }
    out
}

#[test]
fn clone_works_fine() {
    let obj_single = Box::new("hy".to_owned());
    let obj_multi_a = Box::new("there".to_owned());
    let obj_multi_b = Box::new("so".to_owned());

    // make sure the values of the clone are at new addresses
    let mut used_addresses = HashSet::new();
    used_addresses.insert(format!("{:p}", &*obj_single));
    used_addresses.insert(format!("{:p}", &*obj_multi_a));
    used_addresses.insert(format!("{:p}", &*obj_multi_b));

    let mut map = TotalOrderMultiMap::with_capacity(10);
    map.insert("k1", obj_single);
    map.insert("k2", obj_multi_a);
    map.insert("k2", obj_multi_b);

    let map2 = map.clone();
    let __map = map;

    for val in values_in(map2.get("k1").unwrap()) {
        let ptr = format!("{:p}", &**val);
        assert!(!used_addresses.contains(&ptr));
    }
    for val in values_in(map2.get("k2").unwrap()) {
        let ptr = format!("{:p}", &**val);
        assert!(!used_addresses.contains(&ptr));
    }

    for (_k, v) in pairs_of(map2.iter()) {
        let ptr = format!("{:p}", &**v);
        assert!(!used_addresses.contains(&ptr));
        // here we also make sure there are no collisions
        used_addresses.insert(ptr);
    }

    assert_eq!(used_addresses.len(), 2 * map2.len());

    drop(__map);
    drop(map2);
}

#[test]
fn aux_fns() {
    let mut map = TotalOrderMultiMap::with_capacity(10);

    assert_eq!(true, map.is_empty());

    map.insert("key1", Box::new(13u32));

    assert_eq!(false, map.is_empty());
    map.insert("key2", Box::new(1));

    assert_eq!(10, map.capacity());
    assert_eq!(2, map.len());

    map.shrink_to_fit();

    assert_eq!(2, map.capacity());

    // this is not reserve_exact so it can reserve more
    // than space for one element
    map.reserve(1);

    assert!(map.capacity() >= 3);

    map.insert("key1", Box::new(44));
    map.insert("key1", Box::new(44));

    assert_eq!(4, map.len());
    assert!(map.capacity() >= 4);

    map.clear();
    assert_eq!(true, map.is_empty());
    assert_eq!(0, map.len());
}

#[test]
fn works_with_trait_objects() {
    let mut map = TotalOrderMultiMap::<&'static str, Box<dyn Debug>>::new();
    map.insert("hy", Box::new("h".to_owned()));
    map.insert("hy", Box::new(2));
    map.insert("ho", Box::new("o".to_owned()));

    let view = all_values(map.values());
    assert_eq!(
        "\"h\" 2 \"o\"",
        format!("{:?} {:?} {:?}", view[0], view[1], view[2])
    )
}

#[test]
fn get_set() {
    let mut map = TotalOrderMultiMap::new();
    let a = arc_str("a");
    let co_a = a.clone();
    let eq_a = arc_str("a");
    map.insert("k1", a);
    map.insert("k1", co_a);
    map.insert("k1", eq_a.clone());
    map.insert("k2", eq_a);
    map.insert("k3", arc_str("y"));
    map.insert("k4", arc_str("z"));
    map.insert("k4", arc_str("a"));
    map.insert("k1", arc_str("e"));

    let val_k1 = map.get("k1");
    assert_eq!(true, val_k1.is_some());
    let val_k1 = val_k1.unwrap();
    assert_eq!(4, val_k1.len());
    assert_eq!((4, Some(4)), val_k1.size_hint());
    let got: Vec<&str> = values_in(val_k1).into_iter().map(|v| &**v).collect();
    assert_eq!(["a", "a", "a", "e"], got.as_slice());

    let val_k2 = map.get("k2");
    assert_eq!(true, val_k2.is_some());
    let val_k2 = val_k2.unwrap();
    assert_eq!(1, val_k2.len());
    assert_eq!((1, Some(1)), val_k2.size_hint());
    let got: Vec<&str> = values_in(val_k2).into_iter().map(|v| &**v).collect();
    assert_eq!(["a"], got.as_slice());

    let got: Vec<&str> = all_values(map.values()).into_iter().map(|v| &**v).collect();
    assert_eq!(["a", "a", "a", "a", "y", "z", "a", "e"], got.as_slice());

    let mut expected = HashSet::new();
    expected.insert(("k1", vec!["a", "a", "a", "e"]));
    expected.insert(("k2", vec!["a"]));
    expected.insert(("k3", vec!["y"]));
    expected.insert(("k4", vec!["z", "a"]));
    assert_eq!(
        expected,
        groups_of(map.group_iter())
            .into_iter()
            .map(|giter| {
                let key = giter.key();
                let vals: Vec<&str> = group_values(giter).into_iter().map(|v| &**v).collect();
                (key, vals)
            })
            .collect::<HashSet<_>>()
    );

    let got: Vec<(&str, &str)> = pairs_of(map.iter()).into_iter().map(|(k, v)| (k, &**v)).collect();
    assert_eq!(
        [
            ("k1", "a"),
            ("k1", "a"),
            ("k1", "a"),
            ("k2", "a"),
            ("k3", "y"),
            ("k4", "z"),
            ("k4", "a"),
            ("k1", "e")
        ],
        got.as_slice()
    );
}

#[test]
fn pop() {
    let mut map = TotalOrderMultiMap::new();
    map.insert("k1", "hy");
    map.insert("k2", "ho");
    map.insert("k1", "last");

    let last = map.pop();
    assert_eq!(Some(("k1", "last")), last);
}

#[test]
fn reverse() {
    let mut map = TotalOrderMultiMap::new();
    map.insert("k1", "ok");
    map.insert("k2", "why not?");
    map.reverse();

    let got: Vec<(&str, &str)> = pairs_of(map.iter()).into_iter().map(|(k, v)| (k, *v)).collect();
    assert_eq!([("k2", "why not?"), ("k1", "ok")], got.as_slice());
}

#[test]
fn remove_all() {
    let mut map = TotalOrderMultiMap::new();
    map.insert("k1", "ok");
    map.insert("k2", "why not?");
    map.insert("k1", "run");
    map.insert("k2", "jump");
    let did_rm = map.remove_all("k1");
    assert_eq!(true, did_rm);
    assert_eq!(false, map.remove_all("not_a_key"));

    let got: Vec<(&str, &str)> = pairs_of(map.iter()).into_iter().map(|(k, v)| (k, *v)).collect();
    assert_eq!([("k2", "why not?"), ("k2", "jump")], got.as_slice());
}

#[test]
fn retain() {
    let mut map = TotalOrderMultiMap::new();
    map.insert("k1", "ok");
    map.insert("k2", "why not?");
    map.insert("k1", "run");
    map.insert("k2", "uh");

    map.retain(|key, val| {
        assert!(key.len() == 2);
        val.len() > 2
    });

    let got: Vec<(&str, &str)> = pairs_of(map.iter()).into_iter().map(|(k, v)| (k, *v)).collect();
    assert_eq!([("k2", "why not?"), ("k1", "run")], got.as_slice());
}

#[test]
fn retain_with_equal_pointers() {
    let mut map = TotalOrderMultiMap::new();
    let v1 = arc_str("v1");
    map.insert("k1", v1.clone());
    map.insert("k2", v1.clone());
    map.insert("k1", arc_str("v2"));
    map.insert("k1", v1);

    let mut rem_count = 0;
    map.retain(|_key, val| {
        if rem_count >= 2 {
            return true;
        }
        if &**val == "v1" {
            rem_count += 1;
            false
        } else {
            true
        }
    });

    let got: Vec<(&str, &str)> = pairs_of(map.iter()).into_iter().map(|(k, v)| (k, &**v)).collect();
    assert_eq!([("k1", "v2"), ("k1", "v1")], got.as_slice());
}
