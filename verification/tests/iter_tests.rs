use lib::{Iter, TotalOrderMultiMap};

#[test]
fn convert_iter_mut_to_non_mut() {
    let mut map = TotalOrderMultiMap::new();
    map.add("k1", "v1".to_owned());
    let mut iter: Iter<_, _> = map.iter_mut().into();
    let mut got = Vec::new();
    while let Some((k, v)) = iter.next() {
        got.push((k, v.as_str()));
    }
    assert_eq!(vec![("k1", "v1")], got)
}
