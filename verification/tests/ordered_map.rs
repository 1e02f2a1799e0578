use phf::builder::{OrderedMap as OrderedMapBuilder, OrderedSet as OrderedSetBuilder};
use phf::ordered_map::OrderedMap;
use phf::ordered_set::OrderedSet;

fn str_map<V: Copy>(entries: &[(&'static str, V)]) -> OrderedMap<&'static str, V> {
    let mut b = OrderedMapBuilder::new();
    for &(k, v) in entries {
        b.entry(k, v);
    }
    b.build().unwrap()
}

fn str_set(entries: &[&'static str]) -> OrderedSet<&'static str> {
    let mut b = OrderedSetBuilder::new();
    for &k in entries {
        b.entry(k);
    }
    b.build().unwrap()
}

#[test]
fn test_test_two() {
    // ordered map
    let map = str_map(&[("foo", 10isize), ("bar", 11)]);
    assert!(Some(&10) == map.get("foo"));
    assert!(Some(&11) == map.get("bar"));
    assert_eq!(None, map.get("asdf"));
    assert_eq!(2, map.len());

    // ordered set
    let set = str_set(&["hello", "there", "world"]);
    assert!(set.contains("hello"));
    assert!(set.contains("there"));
    assert!(set.contains("world"));
    assert!(!set.contains("foo"));
    assert_eq!(3, set.len());
}

#[test]
fn test_test_get_index() {
    let map = str_map(&[("foo", 5isize), ("bar", 5), ("baz", 5)]);
    assert_eq!(Some(0), map.get_index("foo"));
    assert_eq!(Some(2), map.get_index("baz"));
    assert_eq!(None, map.get_index("xyz"));

    assert_eq!(Some(0), map.get_index(&*"foo".to_string()));
    assert_eq!(Some(2), map.get_index(&*"baz".to_string()));
    assert_eq!(None, map.get_index(&*"xyz".to_string()));

    let set = str_set(&["foo", "bar", "baz"]);
    assert_eq!(Some(0), set.get_index("foo"));
    assert_eq!(Some(2), set.get_index("baz"));
    assert_eq!(None, set.get_index("xyz"));

    assert_eq!(Some(0), set.get_index(&*"foo".to_string()));
    assert_eq!(Some(2), set.get_index(&*"baz".to_string()));
    assert_eq!(None, set.get_index(&*"xyz".to_string()));
}

#[test]
fn test_test_index() {
    let map = str_map(&[("foo", 5isize), ("bar", 6)]);
    assert_eq!(Some((&"foo", &5)), map.index(0));
    assert_eq!(Some((&"bar", &6)), map.index(1));
    assert_eq!(None, map.index(2));

    let set = str_set(&["foo", "bar"]);
    assert_eq!(Some(&"foo"), set.index(0));
    assert_eq!(Some(&"bar"), set.index(1));
    assert_eq!(None, set.index(2));
}

#[test]
fn test_test_entries() {
    let map = str_map(&[("foo", 10i32), ("bar", 11), ("baz", 12)]);
    let mut vec = Vec::new();
    let mut it = map.entries();
    while let Some((&k, &v)) = it.next() {
        vec.push((k, v));
    }
    assert_eq!(vec, vec!(("foo", 10), ("bar", 11), ("baz", 12)));
}

#[test]
fn test_test_keys() {
    let map = str_map(&[("foo", 10isize), ("bar", 11), ("baz", 12)]);
    let mut vec = Vec::new();
    let mut it = map.keys();
    while let Some(&k) = it.next() {
        vec.push(k);
    }
    assert_eq!(vec, vec!("foo", "bar", "baz"));
}

#[test]
fn test_test_values() {
    let map = str_map(&[("foo", 10i32), ("bar", 11), ("baz", 12)]);
    let mut vec = Vec::new();
    let mut it = map.values();
    while let Some(&v) = it.next() {
        vec.push(v);
    }
    assert_eq!(vec, vec!(10, 11, 12));
}

#[test]
fn test_test_index_ok() {
    let map = str_map(&[("a", 0isize)]);
    assert_eq!(0, *map.get("a").unwrap());
}

#[test]
fn test_test_non_static_str_key() {
    let map = str_map(&[("a", 0isize)]);
    assert_eq!(Some(&0), map.get(&*"a".to_string()));
}

#[test]
fn test_test_into_iterator() {
    let map = str_map(&[("foo", 10isize)]);
    let mut it = map.entries();
    while let Some((k, v)) = it.next() {
        assert_eq!(&"foo", k);
        assert_eq!(&10, v)
    }

    let set = str_set(&["foo"]);
    let mut it = set.iter();
    while let Some(e) = it.next() {
        assert_eq!(&"foo", e);
    }
}

#[test]
fn test_test_iter() {
    let set = str_set(&["hello", "there", "world"]);
    let mut vec = Vec::new();
    let mut it = set.iter();
    while let Some(&e) = it.next() {
        vec.push(e);
    }
    assert_eq!(vec, vec!("hello", "there", "world"));
}

#[test]
fn test_test_non_static_str_contains() {
    let set = str_set(&["hello", "world"]);
    assert!(set.contains(&*"hello".to_string()));
}

#[test]
fn test_test_tuples() {
    let mut b = OrderedMapBuilder::new();
    b.entry((0u32, "a"), 1u32).entry((1, "b"), 2).entry((2, "c"), 3);
    let map = b.build().unwrap();
    assert_eq!(Some(&1), map.get(&(0, "a")));
    assert_eq!(Some(&2), map.get(&(1, "b")));
    assert_eq!(Some(&3), map.get(&(2, "c")));
    assert_eq!(None, map.get(&(3, "d")));

    let mut b = OrderedSetBuilder::new();
    b.entry((0u32, "a")).entry((1, "b")).entry((2, "c"));
    let set = b.build().unwrap();
    assert!(set.contains(&(0, "a")));
    assert!(set.contains(&(1, "b")));
    assert!(set.contains(&(2, "c")));
    assert!(!set.contains(&(3, "d")));
}

#[test]
fn ordered_set_relations() {
    let a = str_set(&["a", "b"]);
    let b = str_set(&["a", "b", "c"]);
    let c = str_set(&["x", "y"]);
    assert!(a.is_subset(&b));
    assert!(!b.is_subset(&a));
    assert!(b.is_superset(&a));
    assert!(a.is_disjoint(&c));
    assert!(!a.is_disjoint(&b));
    assert_eq!(Some(&"b"), a.get_key("b"));
    assert_eq!(None, a.get_key("z"));
}

#[test]
fn ordered_map_get_entry_and_key() {
    let map = str_map(&[("x", 1u8), ("y", 2)]);
    assert_eq!(Some((&"y", &2)), map.get_entry("y"));
    assert_eq!(Some(&"x"), map.get_key(&*"x".to_string()));
    assert_eq!(None, map.get_entry("z"));
    assert!(map.contains_key("x"));
    assert!(!map.is_empty());
}
