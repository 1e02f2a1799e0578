use phf::builder::{MapBuilder as PhfMapBuilder, OrderedMap as OrderedMapBuilder, OrderedSet as OrderedSetBuilder, SetBuilder as PhfSetBuilder};
use phf::codegen::{MapBuilder, OrderedMap, OrderedSet, SetBuilder};

// The sources that the code generator prints, and maps with the same
// entries built at run time, which the lookups below read.

#[test]
fn lib_map() {
    let mut gen = MapBuilder::new();
    gen.entry(1u32, "\"a\"").entry(2u32, "\"b\"").entry(3u32, "\"c\"");
    let source = gen.build().unwrap().to_string();
    assert!(source.starts_with("::phf::Map {\n    key: "));
    assert!(source.contains("(1, \"a\"),"));
    assert!(source.contains("(2, \"b\"),"));
    assert!(source.contains("(3, \"c\"),"));
    assert!(source.ends_with("\n    ],\n}"));

    let mut b = PhfMapBuilder::new();
    b.entry(1u32, "a").entry(2u32, "b").entry(3u32, "c");
    let map = b.build().unwrap();
    assert_eq!("a", *map.get(&1).unwrap());
    assert_eq!("b", *map.get(&2).unwrap());
    assert_eq!("c", *map.get(&3).unwrap());
    assert!(!map.contains_key(&100));
}

#[test]
fn lib_set() {
    let mut gen = SetBuilder::new();
    gen.entry(1u32).entry(2u32).entry(3u32);
    let source = gen.build().unwrap().to_string();
    assert!(source.starts_with("::phf::Set { map: ::phf::Map {"));
    assert!(source.contains("(1, ()),"));
    assert!(source.ends_with("} }"));

    let mut b = PhfSetBuilder::new();
    b.entry(1u32).entry(2u32).entry(3u32);
    let set = b.build().unwrap();
    assert!(set.contains(&1));
    assert!(set.contains(&2));
    assert!(set.contains(&3));
    assert!(!set.contains(&4));
}

#[test]
fn lib_ordered_map() {
    let mut gen = OrderedMap::new();
    gen.entry(1u32, "\"a\"").entry(2u32, "\"b\"").entry(3u32, "\"c\"");
    let source = gen.build().unwrap().to_string();
    assert!(source.starts_with("::phf::OrderedMap {\n    key: "));
    assert!(source.contains(
        "entries: &[\n        (1, \"a\"),\n        (2, \"b\"),\n        (3, \"c\"),\n    ],\n}"
    ));

    let mut b = OrderedMapBuilder::new();
    b.entry(1u32, "a").entry(2u32, "b").entry(3u32, "c");
    let map = b.build().unwrap();
    assert_eq!("a", *map.get(&1).unwrap());
    assert_eq!("b", *map.get(&2).unwrap());
    assert_eq!("c", *map.get(&3).unwrap());
    assert!(!map.contains_key(&100));
    let mut values = Vec::new();
    let mut it = map.values();
    while let Some(v) = it.next() {
        values.push(*v);
    }
    assert_eq!(&["a", "b", "c"][..], &values[..]);
}

#[test]
fn lib_ordered_set() {
    let mut gen = OrderedSet::new();
    gen.entry(1u32).entry(2u32).entry(3u32);
    let source = gen.build().unwrap().to_string();
    assert!(source.starts_with("::phf::OrderedSet { map: ::phf::OrderedMap {"));
    assert!(source.contains("        (1, ()),\n        (2, ()),\n        (3, ()),"));

    let mut b = OrderedSetBuilder::new();
    b.entry(1u32).entry(2u32).entry(3u32);
    let set = b.build().unwrap();
    assert!(set.contains(&1));
    assert!(set.contains(&2));
    assert!(set.contains(&3));
    assert!(!set.contains(&4));
    let mut items = Vec::new();
    let mut it = set.iter();
    while let Some(v) = it.next() {
        items.push(*v);
    }
    assert_eq!(&[1, 2, 3][..], &items[..]);
}

#[test]
fn str_keys() {
    let mut gen = MapBuilder::new();
    gen.entry("a", "1").entry("b", "2").entry("c", "3");
    let source = gen.build().unwrap().to_string();
    assert!(source.contains("(\"a\", 1),"));

    let mut b = PhfMapBuilder::new();
    b.entry("a", 1u32).entry("b", 2).entry("c", 3);
    let map = b.build().unwrap();
    assert_eq!(1, *map.get("a").unwrap());
    assert_eq!(2, *map.get("b").unwrap());
    assert_eq!(3, *map.get("c").unwrap());
}

#[test]
fn array_keys() {
    let mut gen = MapBuilder::<[u8; 3]>::new();
    gen.entry(*b"foo", "0").entry(*b"bar", "1").entry(*b"baz", "2");
    let source = gen.build().unwrap().to_string();
    assert!(source.contains("([102, 111, 111], 0),"));

    let mut b = PhfMapBuilder::new();
    b.entry(*b"foo", 0u32).entry(*b"bar", 1).entry(*b"baz", 2);
    let map = b.build().unwrap();
    assert_eq!(0, *map.get(b"foo").unwrap());
    assert_eq!(1, *map.get(b"bar").unwrap());
    assert_eq!(2, *map.get(b"baz").unwrap());
}

#[test]
fn byte_str_keys() {
    let mut gen = MapBuilder::<&[u8]>::new();
    gen.entry(b"foo", "0").entry(b"bar", "1").entry(b"baz", "2").entry(b"quux", "3");
    let source = gen.build().unwrap().to_string();
    assert!(source.contains("(&[113, 117, 117, 120], 3),"));

    let mut b = PhfMapBuilder::<&[u8], u32>::new();
    b.entry(b"foo", 0).entry(b"bar", 1).entry(b"baz", 2).entry(b"quux", 3);
    let map = b.build().unwrap();
    // slicing is required unless the key type is fixed-size
    assert_eq!(0, *map.get(&b"foo"[..]).unwrap());
    assert_eq!(1, *map.get(&b"bar"[..]).unwrap());
    assert_eq!(2, *map.get(&b"baz"[..]).unwrap());
    assert_eq!(3, *map.get(&b"quux"[..]).unwrap());
}

#[test]
fn empty_map() {
    let gen = MapBuilder::<u32>::new();
    let source = gen.build().unwrap().to_string();
    assert!(source.contains("disps: &[\n    ],\n    entries: &[\n    ],\n}"));

    let map = PhfMapBuilder::<u32, u32>::new().build().unwrap();
    assert_eq!(None, map.get(&1));
}

#[test]
fn empty_ordered_map() {
    let gen = OrderedMap::<u32>::new();
    let source = gen.build().unwrap().to_string();
    assert!(source.contains("idxs: &[\n    ],\n    entries: &[\n    ],\n}"));

    let map = OrderedMapBuilder::<u32, u32>::new().build().unwrap();
    assert_eq!(None, map.get(&1));
}

#[test]
fn from_iter_map() {
    let mut gen = MapBuilder::new();
    for (k, v) in vec![("one", "1"), ("two", "2"), ("three", "3")] {
        gen.entry(k, v);
    }
    let source = gen.build().unwrap().to_string();
    assert!(source.contains("(\"two\", 2),"));

    let mut b = PhfMapBuilder::new();
    for (k, v) in vec![("one", 1u32), ("two", 2), ("three", 3)] {
        b.entry(k, v);
    }
    let map = b.build().unwrap();
    assert_eq!(1, *map.get("one").unwrap());
    assert_eq!(2, *map.get("two").unwrap());
    assert_eq!(3, *map.get("three").unwrap());
    assert!(!map.contains_key("four"));
}

#[test]
fn tuple_map() {
    let mut gen = MapBuilder::new();
    gen.entry((1u32, "a"), "\"first\"").entry((2u32, "b"), "\"second\"").entry((3u32, "c"), "\"third\"");
    let source = gen.build().unwrap().to_string();
    assert!(source.contains("((2, \"b\"), \"second\"),"));

    let mut b = PhfMapBuilder::new();
    b.entry((1u32, "a"), "first").entry((2u32, "b"), "second").entry((3u32, "c"), "third");
    let map = b.build().unwrap();
    assert_eq!("first", *map.get(&(1u32, "a")).unwrap());
    assert_eq!("second", *map.get(&(2u32, "b")).unwrap());
    assert_eq!("third", *map.get(&(3u32, "c")).unwrap());
    assert!(!map.contains_key(&(4u32, "d")));
    assert!(!map.contains_key(&(1u32, "b")));
}

#[test]
fn tuple_set() {
    let mut gen = SetBuilder::new();
    gen.entry((1u32, "x")).entry((2u32, "y")).entry((3u32, "z"));
    let source = gen.build().unwrap().to_string();
    assert!(source.contains("((3, \"z\"), ()),"));

    let mut b = PhfSetBuilder::new();
    b.entry((1u32, "x")).entry((2u32, "y")).entry((3u32, "z"));
    let set = b.build().unwrap();
    assert!(set.contains(&(1u32, "x")));
    assert!(set.contains(&(2u32, "y")));
    assert!(set.contains(&(3u32, "z")));
    assert!(!set.contains(&(4u32, "w")));
    assert!(!set.contains(&(1u32, "y")));
}

#[test]
fn nested_tuple_map() {
    let mut gen = MapBuilder::new();
    gen.entry(((1u32, 2u32), "nested"), "10")
        .entry(((3u32, 4u32), "tuple"), "20")
        .entry(((5u32, 6u32), "keys"), "30");
    let source = gen.build().unwrap().to_string();
    assert!(source.contains("(((1, 2), \"nested\"), 10),"));

    let mut b = PhfMapBuilder::new();
    b.entry(((1u32, 2u32), "nested"), 10u32)
        .entry(((3u32, 4u32), "tuple"), 20)
        .entry(((5u32, 6u32), "keys"), 30);
    let map = b.build().unwrap();
    assert_eq!(10, *map.get(&((1u32, 2u32), "nested")).unwrap());
    assert_eq!(20, *map.get(&((3u32, 4u32), "tuple")).unwrap());
    assert_eq!(30, *map.get(&((5u32, 6u32), "keys")).unwrap());
    assert!(!map.contains_key(&((7u32, 8u32), "missing")));
    assert!(!map.contains_key(&((1u32, 2u32), "wrong")));
}

#[test]
fn mixed_tuple_map() {
    let mut gen = MapBuilder::new();
    gen.entry((true, 1u8, "test"), "\"value1\"")
        .entry((false, 2u8, "demo"), "\"value2\"")
        .entry((true, 3u8, "example"), "\"value3\"");
    let source = gen.build().unwrap().to_string();
    assert!(source.contains("((false, 2, \"demo\"), \"value2\"),"));

    let mut b = PhfMapBuilder::new();
    b.entry((true, 1u8, "test"), "value1")
        .entry((false, 2u8, "demo"), "value2")
        .entry((true, 3u8, "example"), "value3");
    let map = b.build().unwrap();
    assert_eq!("value1", *map.get(&(true, 1u8, "test")).unwrap());
    assert_eq!("value2", *map.get(&(false, 2u8, "demo")).unwrap());
    assert_eq!("value3", *map.get(&(true, 3u8, "example")).unwrap());
    assert!(!map.contains_key(&(false, 1u8, "test")));
    assert!(!map.contains_key(&(true, 4u8, "missing")));
}

#[test]
fn codegen_phf_path_and_numbers() {
    let mut gen = OrderedMap::new();
    gen.phf_path("crate::phf").entry(-5i128, "1").entry(i128::MIN, "2");
    let source = gen.build().unwrap().to_string();
    assert!(source.starts_with("crate::phf::OrderedMap {"));
    assert!(source.contains("(-5, 1),"));
    assert!(source.contains("(-170141183460469231731687303715884105728, 2),"));
}
