use lib::{TotalOrderMultiMap, Values};

#[test]
fn convert_mut_values_to_non_mut() {
    let mut map = TotalOrderMultiMap::new();
    map.add("k1", "v1".to_owned());
    map.add("k0", "v2".to_owned());

    let mut iter: Values<_, _> = map.values_mut().into();
    let mut got = Vec::new();
    while let Some(v) = iter.next() {
        got.push(v.as_str());
    }
    assert_eq!(vec!["v1", "v2"], got)
}
