use std::fmt::{self, Display};

use lib::{EntryValues, Iter, TotalOrderMultiMap};

type Key = &'static str;
type Value = Box<dyn Display>;

struct MyThingy {
    val: String,
}

impl Display for MyThingy {
    fn fmt(&self, fter: &mut fmt::Formatter) -> fmt::Result {
        fter.write_str(&self.val)
    }
}

fn mk_box_str(inp: &str) -> Box<dyn Display> {
    Box::new(inp.to_owned())
}

fn mk_my_thingy(inp: &str) -> Box<dyn Display> {
    Box::new(MyThingy { val: inp.to_owned() })
}

fn readme_pairs<'a>(mut it: Iter<'a, Key, Value>) -> Vec<String> {
    let mut out = Vec::new();
    while let Some((key, val)) = it.next() {
        out.push(format!("{}:{}", key, val));
    }
    out
}

fn readme_values<'a>(mut it: EntryValues<'a, Key, Value>) -> Vec<String> {
    let mut out = Vec::new();
    while let Some(val) = it.next() {
        out.push(format!("{}", val));
    }
    out
}

#[test]
fn readme_example() {
    let mut map = TotalOrderMultiMap::<Key, Value>::new();

    map.add("key1", mk_box_str("val1"));
    map.add("key1", mk_my_thingy("val2"));
    map.add("key2", mk_box_str("val3"));
    map.add("key1", mk_my_thingy("val4"));
    map.add("key0", mk_box_str("val5"));

    // the total insertion order is kept
    assert_eq!(
        readme_pairs(map.iter()),
        &[
            "key1:val1".to_owned(),
            "key1:val2".to_owned(),
            "key2:val3".to_owned(),
            "key1:val4".to_owned(),
            "key0:val5".to_owned()
        ]
    );

    // it is still a multi map
    {
        let values = map.get("key1").expect("key1 is in the map");
        assert_eq!(readme_values(values), &["val1", "val2", "val4"]);
    }

    // the last inserted pair can be removed
    let (key, val) = map.pop().unwrap();
    assert_eq!(format!("{}:{}", key, val), "key0:val5");

    // all values of one key can be removed
    map.remove_all("key1");
    assert!(map.get("key1").is_none());
}
