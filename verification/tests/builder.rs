use phf::builder::{MapBuilder, OrderedMap, OrderedSet, SetBuilder};

#[test]
fn test_ordered_map() {
    let mut builder = OrderedMap::new();
    builder.entry(1, "a").entry(2, "b").entry(3, "c");
    let map = builder.build().unwrap();
    assert_eq!("a", *map.get(&1).unwrap());
    assert_eq!("b", *map.get(&2).unwrap());
    assert_eq!("c", *map.get(&3).unwrap());
    assert!(!map.contains_key(&100));
    let mut values = Vec::new();
    let mut it = map.values();
    while let Some(v) = it.next() {
        values.push(*v);
    }
    assert_eq!(&["a", "b", "c"][..], &values[..]);
}

#[test]
fn test_ordered_set() {
    let mut builder = OrderedSet::new();
    builder.entry(1).entry(2).entry(3);
    let set = builder.build().unwrap();
    assert!(set.contains(&1));
    assert!(set.contains(&2));
    assert!(set.contains(&3));
    assert!(!set.contains(&4));
    let mut items = Vec::new();
    let mut it = set.iter();
    while let Some(v) = it.next() {
        items.push(*v);
    }
    assert_eq!(&[1, 2, 3][..], &items[..]);
}

#[test]
fn builder_map_lookups() {
    let mut builder = MapBuilder::new();
    builder.entry(1, "a").entry(2, "b").entry(3, "c");
    let map = builder.build().unwrap();
    assert_eq!("a", *map.get(&1).unwrap());
    assert_eq!("b", *map.get(&2).unwrap());
    assert_eq!("c", *map.get(&3).unwrap());
    assert!(!map.contains_key(&100));
    assert_eq!(3, map.len());
}

#[test]
fn builder_set_lookups() {
    let mut builder = SetBuilder::new();
    builder.entry(1).entry(2).entry(3);
    let set = builder.build().unwrap();
    assert!(set.contains(&1));
    assert!(set.contains(&2));
    assert!(set.contains(&3));
    assert!(!set.contains(&4));
}

#[test]
fn builder_map_entries_sit_in_their_slots() {
    let mut builder = MapBuilder::new();
    for i in 0u32..200 {
        builder.entry(i, i * 7);
    }
    let map = builder.build().unwrap();
    assert_eq!(200, map.len());
    for i in 0u32..200 {
        assert_eq!(Some(&(i * 7)), map.get(&i));
        assert_eq!(Some(&i), map.get_key(&i));
    }
    assert_eq!(None, map.get(&200));
    // every key was placed once
    let mut seen = vec![false; 200];
    let mut it = map.keys();
    while let Some(k) = it.next() {
        assert!(!seen[*k as usize]);
        seen[*k as usize] = true;
    }
    assert!(seen.iter().all(|&s| s));
}

#[test]
fn builder_ordered_map_keeps_insertion_order() {
    let mut builder = OrderedMap::new();
    let words = ["zeta", "alpha", "mid", "beta", "omega"];
    for (i, w) in words.iter().enumerate() {
        builder.entry(*w, i);
    }
    let map = builder.build().unwrap();
    for (i, w) in words.iter().enumerate() {
        assert_eq!(Some(i), map.get_index(*w));
        assert_eq!(Some((w, &i)), map.index(i));
    }
    assert_eq!(None, map.index(words.len()));
    let mut keys = Vec::new();
    let mut it = map.keys();
    while let Some(k) = it.next() {
        keys.push(*k);
    }
    assert_eq!(&words[..], &keys[..]);
}

#[test]
fn builder_empty_maps() {
    let map = MapBuilder::<u32, u32>::new().build().unwrap();
    assert!(map.is_empty());
    assert_eq!(None, map.get(&1));
    let omap = OrderedMap::<u32, u32>::new().build().unwrap();
    assert!(omap.is_empty());
    assert_eq!(None, omap.get(&1));
    assert_eq!(None, omap.get_index(&1));
}
