use phf::macros::IntSuffix;
use phf::sip24::chd::int_literal_key;
use phf::generator::HashState;
use phf::sip24::chd::{
    create_map, create_ordered_map, create_ordered_set, create_set, generate_hash, has_duplicates,
    key_eq, try_generate_hash, Entry, Key,
};
use phf::sip24::shared::{displace, PhfHash};

fn entry(k: Key, text: &str, v: &str) -> Entry {
    Entry { key_contents: k, key: text.to_string(), value: v.to_string() }
}

fn sample() -> Vec<Entry> {
    vec![
        entry(Key::Str("foo".to_string()), "\"foo\"", "1"),
        entry(Key::Str("bar".to_string()), "\"bar\"", "2"),
        entry(Key::U8(7), "7u8", "3"),
        entry(Key::I64(-5), "-5i64", "4"),
        entry(Key::Binary(vec![1, 2, 3]), "b\"\\x01\\x02\\x03\"", "5"),
        entry(Key::Char('x'), "'x'", "6"),
        entry(Key::Bool(true), "true", "7"),
    ]
}

fn check(entries: &[Entry], state: &HashState) {
    let n = entries.len();
    assert_eq!(state.map.len(), n);
    assert_eq!(state.disps.len(), (n + 4) / 5);
    let mut seen = vec![false; n];
    for (i, e) in entries.iter().enumerate() {
        let (g, f1, f2) = e.key_contents.phf_hash(state.key);
        let (d1, d2) = state.disps[(g % state.disps.len() as u32) as usize];
        let slot = (displace(f1, f2, d1, d2) % n as u32) as usize;
        assert_eq!(state.map[slot], i);
        assert!(!seen[slot]);
        seen[slot] = true;
    }
}

#[test]
fn chd_tables_place_every_key() {
    let entries = sample();
    let state = generate_hash(&entries).unwrap();
    check(&entries, &state);
    // the generator has a fixed seed: the same table every time
    let again = generate_hash(&entries).unwrap();
    assert_eq!(state.key, again.key);
    assert_eq!(state.disps, again.disps);
    assert_eq!(state.map, again.map);
    if let Some(s) = try_generate_hash(&entries, 12345) {
        assert_eq!(s.key, 12345);
        check(&entries, &s);
    }
    let empty = try_generate_hash(&[], 9).unwrap();
    assert!(empty.disps.is_empty() && empty.map.is_empty());
}

#[test]
fn chd_duplicates() {
    let mut entries = sample();
    assert!(!has_duplicates(&entries));
    entries.push(entry(Key::Str("foo".to_string()), "\"foo\"", "9"));
    assert!(has_duplicates(&entries));
    assert!(key_eq(&Key::U16(3), &Key::U16(3)));
    assert!(!key_eq(&Key::U16(3), &Key::U32(3)));
    assert!(!key_eq(&Key::Str("a".to_string()), &Key::Str("b".to_string())));
}

#[test]
fn chd_sources() {
    let entries = vec![
        entry(Key::Str("a".to_string()), "\"a\"", "1"),
        entry(Key::Str("b".to_string()), "\"b\"", "2"),
    ];
    let state = HashState { key: 42, disps: vec![(0, 1)], map: vec![1, 0] };
    assert_eq!(
        create_map(&entries, &state),
        "::phf::Map { key: 42u64, disps: &[(0u32, 1u32)], entries: &[(\"b\", 2), (\"a\", 1)], }"
    );
    assert_eq!(
        create_set(&entries, &state),
        "::phf::Set { map: ::phf::Map { key: 42u64, disps: &[(0u32, 1u32)], entries: &[(\"b\", 2), (\"a\", 1)], } }"
    );
    assert_eq!(
        create_ordered_map(&entries, &state),
        "::phf::OrderedMap { key: 42u64, disps: &[(0u32, 1u32)], idxs: &[1usize, 0usize], entries: &[(\"a\", 1), (\"b\", 2)], }"
    );
    assert!(create_ordered_set(&entries, &state).starts_with("::phf::OrderedSet { map: ::phf::OrderedMap { key: 42"));
}

#[test]
fn integer_literal_keys() {
    assert!(matches!(int_literal_key(5, IntSuffix::I8, true), Some(Key::I8(-5))));
    assert!(matches!(int_literal_key(128, IntSuffix::I8, true), Some(Key::I8(-128))));
    assert!(matches!(int_literal_key(300, IntSuffix::U8, false), Some(Key::U8(44))));
    assert!(matches!(int_literal_key(7, IntSuffix::U32, false), Some(Key::U32(7))));
    assert!(int_literal_key(7, IntSuffix::U32, true).is_none());
    assert!(int_literal_key(7, IntSuffix::Unsuffixed, false).is_none());
    assert!(matches!(int_literal_key(u64::MAX, IntSuffix::I64, false), Some(Key::I64(-1))));
}
