use worterbuch::key::{parse_segments, KeySegment};
use worterbuch::store::Store;

fn path(key: &str) -> Vec<String> {
    parse_segments(key).unwrap()
}

fn pattern(pattern: &str) -> Vec<KeySegment> {
    KeySegment::parse(pattern)
}

fn pairs(found: Vec<(Vec<String>, String)>) -> Vec<(String, String)> {
    found.into_iter().map(|(p, v)| (p.join("/"), v)).collect()
}

fn filled() -> Store {
    let mut store = Store::new();
    for (key, value) in [
        ("a/b", "1"),
        ("a/c", "2"),
        ("a/b/c", "3"),
        ("b", "4"),
        ("a/b/d/e", "5"),
        ("aa", "6"),
    ] {
        assert_eq!(None, store.set(&path(key), value.to_owned()));
    }
    store
}

#[test]
fn a_stored_value_is_found_until_it_is_deleted() {
    let mut store = Store::new();
    assert_eq!(None, store.get(&path("k")));
    assert_eq!(None, store.set(&path("k"), "1".to_owned()));
    assert_eq!(Some(&"1".to_owned()), store.get(&path("k")));
    assert_eq!(Some("1".to_owned()), store.set(&path("k"), "2".to_owned()));
    assert_eq!(Some("2".to_owned()), store.delete(&path("k")));
    assert_eq!(None, store.get(&path("k")));
    assert_eq!(None, store.delete(&path("k")));
    assert_eq!(0, store.len());
}

#[test]
fn a_key_creates_one_node_for_each_segment_and_no_value_on_the_way() {
    let mut store = Store::new();
    store.set(&path("a/b/c"), "1".to_owned());
    assert_eq!(None, store.get(&path("a")));
    assert_eq!(None, store.get(&path("a/b")));
    assert_eq!(None, store.get(&path("a/b/c/d")));
    assert_eq!(Some(&"1".to_owned()), store.get(&path("a/b/c")));
    assert_eq!(1, store.len());
}

#[test]
fn pget_with_a_wildcard_takes_every_child() {
    let mut store = Store::new();
    store.set(&path("a/b"), "1".to_owned());
    store.set(&path("a/c"), "2".to_owned());
    assert_eq!(
        vec![
            ("a/b".to_owned(), "1".to_owned()),
            ("a/c".to_owned(), "2".to_owned())
        ],
        pairs(store.pget(&pattern("a/?")))
    );
}

#[test]
fn pget_walks_depth_first_in_ascending_order() {
    let store = filled();
    let all: Vec<String> = pairs(store.pget(&pattern("#")))
        .into_iter()
        .map(|(k, _)| k)
        .collect();
    assert_eq!(vec!["a/b", "a/b/c", "a/b/d/e", "a/c", "aa", "b"], all);
    assert_eq!(6, store.len());
}

#[test]
fn pget_matches_segment_by_segment() {
    let store = filled();
    let keys = |p: &str| -> Vec<String> {
        pairs(store.pget(&pattern(p)))
            .into_iter()
            .map(|(k, _)| k)
            .collect()
    };
    assert_eq!(vec!["a/b"], keys("a/b"));
    assert_eq!(vec!["a/b/c", "a/b/d/e"], keys("a/b/#"));
    assert_eq!(vec!["a/b/c"], keys("?/b/?"));
    assert_eq!(vec!["aa", "b"], keys("?"));
    assert_eq!(vec!["a/b", "a/b/c", "a/b/d/e", "a/c"], keys("a/#"));
    assert_eq!(Vec::<String>::new(), keys("a/#/c"));
    assert_eq!(Vec::<String>::new(), keys("a"));
    assert_eq!(Vec::<String>::new(), keys("x/#"));
}

#[test]
fn pdelete_removes_what_pget_finds() {
    let mut store = filled();
    let removed = pairs(store.pdelete(&pattern("a/b/#")));
    assert_eq!(
        vec![
            ("a/b/c".to_owned(), "3".to_owned()),
            ("a/b/d/e".to_owned(), "5".to_owned())
        ],
        removed
    );
    assert_eq!(None, store.get(&path("a/b/c")));
    assert_eq!(Some(&"1".to_owned()), store.get(&path("a/b")));
    assert_eq!(4, store.len());
    assert_eq!(Some(Vec::<String>::new()), store.ls(&path("a/b")));
}

#[test]
fn ls_gives_the_child_names_in_byte_order() {
    let mut store = Store::new();
    assert_eq!(Some(Vec::<String>::new()), store.ls(&vec![]));
    for key in ["p/b", "p/a/x", "p/B", "p/aa", "p/ä", "q"] {
        store.set(&path(key), "v".to_owned());
    }
    assert_eq!(
        Some(vec![
            "B".to_owned(),
            "a".to_owned(),
            "aa".to_owned(),
            "b".to_owned(),
            "ä".to_owned()
        ]),
        store.ls(&path("p"))
    );
    assert_eq!(Some(vec!["p".to_owned(), "q".to_owned()]), store.ls(&vec![]));
    assert_eq!(Some(Vec::<String>::new()), store.ls(&path("q")));
    assert_eq!(None, store.ls(&path("r")));
    assert_eq!(None, store.ls(&path("p/a/x/y")));
}

#[test]
fn a_parent_without_values_below_is_forgotten() {
    let mut store = Store::new();
    store.set(&path("a/b/c"), "1".to_owned());
    store.set(&path("a/d"), "2".to_owned());
    assert_eq!(3, store.known_prefix(&path("a/b/c")));
    assert_eq!(2, store.known_prefix(&path("a/b/x/y")));
    assert_eq!(0, store.known_prefix(&path("x/y")));
    store.delete(&path("a/b/c"));
    assert_eq!(None, store.ls(&path("a/b")));
    assert_eq!(Some(vec!["d".to_owned()]), store.ls(&path("a")));
    assert_eq!(1, store.known_prefix(&path("a/b/c")));
    store.delete(&path("a/d"));
    assert_eq!(None, store.ls(&path("a")));
    assert_eq!(Some(Vec::<String>::new()), store.ls(&vec![]));
}
