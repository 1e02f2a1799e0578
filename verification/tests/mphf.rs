use phf::sip24::mphf::{
    check_for_duplicates, create_map, expand_mphf_map, generate_hash, generate_hash_with_keys,
    Entry, ExpandError, HashState,
};
use phf::sip24::keyed::{displace, hash};

fn entry(k: &str, v: &str) -> Entry {
    Entry { key_str: k.to_string(), key: format!("{:?}", k), value: v.to_string() }
}

fn check_table(entries: &[Entry], state: &HashState) {
    let n = entries.len();
    assert_eq!(state.map.len(), n);
    assert_eq!(state.disps.len(), (n + 4) / 5);
    for (i, e) in entries.iter().enumerate() {
        let (g, f1, f2) = hash(e.key_str.as_str(), state.k1, state.k2);
        let (d1, d2) = state.disps[g % state.disps.len()];
        let slot = displace(f1, f2, d1, d2) % n;
        assert_eq!(state.map[slot], Some(i));
    }
}

#[test]
fn mphf_table_for_fixed_keys() {
    let entries: Vec<Entry> = ["a", "b", "c", "hello", "world", "x", "y", "zzz"]
        .iter()
        .map(|k| entry(k, "1"))
        .collect();
    if let Some(state) = generate_hash_with_keys(&entries, 1, 2) {
        assert_eq!((state.k1, state.k2), (1, 2));
        check_table(&entries, &state);
    }
    // Random keys may leave a bucket without displacements: draw again, as
    // the expansion does, until a table comes out.
    let mut state = None;
    for _ in 0..10_000 {
        state = generate_hash(&entries);
        if state.is_some() {
            break;
        }
    }
    check_table(&entries, &state.unwrap());
}

#[test]
fn mphf_empty_table() {
    let state = generate_hash_with_keys(&[], 5, 6).unwrap();
    assert!(state.disps.is_empty() && state.map.is_empty());
    assert_eq!((state.k1, state.k2), (5, 6));
}

#[test]
fn mphf_duplicates_are_neighbours() {
    assert!(!check_for_duplicates(&[entry("a", "1"), entry("b", "2")]));
    assert!(check_for_duplicates(&[entry("a", "1"), entry("a", "2")]));
    assert!(!check_for_duplicates(&[entry("a", "1"), entry("b", "2"), entry("a", "3")]));
    assert!(!check_for_duplicates(&[]));
}

#[test]
fn mphf_create_map_text() {
    let entries = vec![entry("a", "1"), entry("b", "2")];
    let state = HashState { k1: 7, k2: 8, disps: vec![(0, 1)], map: vec![Some(1), Some(0)] };
    assert_eq!(
        create_map(&entries, &state),
        "PhfMap { len: 2, k1: 7, k2: 8, disps: &'static [(0, 1)], entries: &'static [Some((\"b\", 2)), Some((\"a\", 1))], }"
    );
    let holey = HashState { k1: 0, k2: 0, disps: vec![], map: vec![None] };
    assert_eq!(
        create_map(&entries[..1], &holey),
        "PhfMap { len: 1, k1: 0, k2: 0, disps: &'static [], entries: &'static [None], }"
    );
}

#[test]
fn mphf_expand_sorts_and_refuses_duplicates() {
    let text = expand_mphf_map(vec![entry("b", "2"), entry("a", "1"), entry("c", "3")]).ok().unwrap();
    assert!(text.starts_with("PhfMap { len: 3, "));
    assert!(text.contains("Some((\"a\", 1))") && text.contains("Some((\"b\", 2))"));
    match expand_mphf_map(vec![entry("b", "2"), entry("a", "1"), entry("b", "3")]) {
        Err(ExpandError::DuplicateKey) => {}
        _ => panic!("duplicate keys must be refused"),
    }
}
