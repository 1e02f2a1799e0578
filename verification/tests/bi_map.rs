use phf::bi_map::BiMap;
use phf::generator::generate_hash;

fn build(pairs: &[(&'static str, u32)]) -> BiMap<&'static str, u32> {
    let lefts: Vec<&'static str> = pairs.iter().map(|p| p.0).collect();
    let rights: Vec<u32> = pairs.iter().map(|p| p.1).collect();
    let l = generate_hash(&lefts).unwrap();
    let r = generate_hash(&rights).unwrap();
    BiMap {
        key0: l.key,
        key1: r.key,
        disps0: l.disps,
        disps1: r.disps,
        idxs0: l.map,
        idxs1: r.map,
        entries: pairs.to_vec(),
    }
}

#[test]
fn bimap_finds_entries_by_either_side() {
    let m = build(&[("one", 1), ("two", 2), ("three", 3)]);
    assert_eq!(m.len(), 3);
    assert!(!m.is_empty());
    assert_eq!(m.get_entry_by_left("two"), Some((&"two", &2)));
    assert_eq!(m.get_entry_by_right(&3u32), Some((&"three", &3)));
    assert!(m.contains_left("one"));
    assert!(m.contains_right(&1u32));
    assert!(!m.contains_left("four"));
    assert!(!m.contains_right(&4u32));
    assert_eq!(m.get_entry_by_left("four"), None);
    // a lookup by one side, then by the other, gives the same entry back
    for (l, r) in [("one", 1u32), ("two", 2), ("three", 3)] {
        let (fl, fr) = m.get_entry_by_left(l).unwrap();
        assert_eq!(m.get_entry_by_right(fr), Some((fl, fr)));
        assert_eq!(*fr, r);
    }
}

#[test]
fn bimap_iterates_in_order() {
    let m = build(&[("a", 10), ("b", 20)]);
    let mut e = m.entries();
    assert_eq!(e.next(), Some((&"a", &10)));
    assert_eq!(e.next(), Some((&"b", &20)));
    assert_eq!(e.next(), None);
    let mut l = m.left_entries();
    assert_eq!(l.next(), Some(&"a"));
    let mut r = m.right_entries();
    assert_eq!(r.next(), Some(&10));
}

#[test]
fn empty_bimap_finds_nothing() {
    let m: BiMap<&'static str, u32> = BiMap::new();
    assert_eq!(m.len(), 0);
    assert!(m.is_empty());
    assert_eq!(m.get_entry_by_left("x"), None);
    assert_eq!(m.get_entry_by_right(&0u32), None);
}
