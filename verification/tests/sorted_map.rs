use phf::sorted_map::PhfMap;

fn sample() -> PhfMap<u32> {
    PhfMap { entries: vec![("apple", 1), ("banana", 2), ("cherry", 3), ("date", 4), ("é", 5)] }
}

#[test]
fn sorted_map_finds_each_key() {
    let m = sample();
    assert_eq!(m.len(), 5);
    assert_eq!(m.find("apple"), Some(&1));
    assert_eq!(m.find("banana"), Some(&2));
    assert_eq!(m.find("cherry"), Some(&3));
    assert_eq!(m.find("date"), Some(&4));
    assert_eq!(m.find("é"), Some(&5));
}

#[test]
fn sorted_map_misses_absent_keys() {
    let m = sample();
    assert_eq!(m.find(""), None);
    assert_eq!(m.find("app"), None);
    assert_eq!(m.find("apples"), None);
    assert_eq!(m.find("zebra"), None);
    let empty: PhfMap<u32> = PhfMap { entries: vec![] };
    assert_eq!(empty.len(), 0);
    assert_eq!(empty.find("a"), None);
}

#[test]
fn sorted_map_iterates_in_key_order() {
    let m = sample();
    let mut e = m.entries();
    assert_eq!(e.next(), Some(("apple", &1)));
    assert_eq!(e.next(), Some(("banana", &2)));
    let mut k = m.keys();
    let mut keys = Vec::new();
    while let Some(x) = k.next() {
        keys.push(x);
    }
    assert_eq!(keys, vec!["apple", "banana", "cherry", "date", "é"]);
    let mut v = m.values();
    let mut values = Vec::new();
    while let Some(x) = v.next() {
        values.push(*x);
    }
    assert_eq!(values, vec![1, 2, 3, 4, 5]);
}
