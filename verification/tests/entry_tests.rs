use lib::{Iter, TotalOrderMultiMap, Values, EntryValues};

fn entry_pairs<'a, K: Copy, V>(mut it: Iter<'a, K, V>) -> Vec<(K, &'a V)> {
    let mut out = Vec::new();
    while let Some(p) = it.next() {
        out.push(p);
    }
    out
}

fn entry_values<'a, K, V>(mut it: Values<'a, K, V>) -> Vec<&'a V> {
    let mut out = Vec::new();
    while let Some(v) = it.next() {
        out.push(v);
    }
    out
}

fn entry_key_values<'a, K: Copy, V>(mut it: EntryValues<'a, K, V>) -> Vec<&'a V> {
    let mut out = Vec::new();
    while let Some(v) = it.next() {
        out.push(v);
    }
    out
}

#[test]
fn entry() {
    let mut map = TotalOrderMultiMap::new();
    map.add("k1", "v1".to_owned());
    map.add("k2", "b".to_owned());
    map.add("k1", "v2".to_owned());

    {
        let entry = map.entry("k1");
        assert_eq!("k1", entry.key());
        assert_eq!(2, entry.value_count());
        entry.add("vX".to_owned());
    }

    let got: Vec<&str> = entry_values(map.values()).into_iter().map(|v| v.as_str()).collect();
    assert_eq!(["v1", "b", "v2", "vX"], got.as_slice());

    let got: Vec<&str> = entry_key_values(map.get("k1").unwrap())
        .into_iter()
        .map(|v| v.as_str())
        .collect();
    assert_eq!(["v1", "v2", "vX"], got.as_slice());

    {
        let entry = map.entry("k99");
        assert_eq!("k99", entry.key());
        assert_eq!(0, entry.value_count());
    }

    {
        let entry = map.entry("k88");
        assert_eq!("k88", entry.key());
        assert_eq!(0, entry.value_count());
        entry.add("end.".to_owned());
    }

    let got: Vec<(&str, &str)> = entry_pairs(map.iter())
        .into_iter()
        .map(|(k, v)| (k, v.as_str()))
        .collect();
    assert_eq!(
        [("k1", "v1"), ("k2", "b"), ("k1", "v2"), ("k1", "vX"), ("k88", "end.")],
        got.as_slice()
    );
}
