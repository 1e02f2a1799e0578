use phf::builder::{OrderedMap as OrderedMapBuilder, OrderedSet as OrderedSetBuilder};
use phf::macros::{
    emit_code, IntSuffix, KeyExpr, KeyPattern, MacroEntry, MacroError, MacroKind, ParsedKey,
    ParsedMap,
};

fn key(s: &str) -> KeyPattern {
    KeyPattern::Key(KeyExpr::Str(s.to_string()), format!("{:?}", s))
}

fn or(l: KeyPattern, r: KeyPattern) -> KeyPattern {
    KeyPattern::Or(Box::new(l), Box::new(r))
}

fn entry(k: KeyPattern, v: &str) -> MacroEntry {
    MacroEntry { key: k, value: v.to_string(), has_cfg: false, tokens: String::new() }
}

/// Builds an ordered map from the parsed entries of a macro's input, as the
/// emitted source would.
fn ordered_map_of(entries: Vec<(KeyPattern, String)>) -> phf::ordered_map::OrderedMap<String, isize> {
    let parsed = match ParsedMap::from_parsed(entries) {
        Ok(p) => p,
        Err(_) => panic!("refused"),
    };
    let mut b = OrderedMapBuilder::new();
    for e in &parsed.entries {
        match &e.parsed_key {
            ParsedKey::Str(s) => {
                b.entry(s.clone(), e.value_expr.parse::<isize>().unwrap());
            }
            _ => panic!("not a string key"),
        }
    }
    b.build().unwrap()
}

#[test]
fn test_test_or_pattern() {
    let map = ordered_map_of(vec![
        (or(key("foo"), key("baz")), "10".to_string()),
        (or(key("bar"), key("qux")), "20".to_string()),
    ]);
    assert_eq!(Some(&10), map.get("foo"));
    assert_eq!(Some(&10), map.get("baz"));
    assert_eq!(Some(&20), map.get("bar"));
    assert_eq!(Some(&20), map.get("qux"));
    assert_eq!(None, map.get("unknown"));
    assert_eq!(4, map.len());

    // Test with three or more keys
    let map2 = ordered_map_of(vec![
        (or(or(key("foo"), key("baz")), key("qux")), "10".to_string()),
        (or(or(key("bar"), key("quux")), key("xyz")), "20".to_string()),
    ]);
    assert_eq!(Some(&10), map2.get("foo"));
    assert_eq!(Some(&10), map2.get("baz"));
    assert_eq!(Some(&10), map2.get("qux"));
    assert_eq!(Some(&20), map2.get("bar"));
    assert_eq!(Some(&20), map2.get("quux"));
    assert_eq!(Some(&20), map2.get("xyz"));
    assert_eq!(None, map2.get("unknown"));
    assert_eq!(6, map2.len());

    // sets take the same patterns
    let parsed = match ParsedMap::from_parsed(vec![
        (or(key("foo"), key("baz")), "()".to_string()),
        (or(key("bar"), key("qux")), "()".to_string()),
    ]) {
        Ok(p) => p,
        Err(_) => panic!("refused"),
    };
    let mut b = OrderedSetBuilder::new();
    for e in &parsed.entries {
        if let ParsedKey::Str(s) = &e.parsed_key {
            b.entry(s.clone());
        }
    }
    let set = b.build().unwrap();
    assert!(set.contains("foo"));
    assert!(set.contains("baz"));
    assert!(set.contains("bar"));
    assert!(set.contains("qux"));
    assert!(!set.contains("unknown"));
    assert_eq!(4, set.len());
}

#[test]
fn test_test_cfgs() {
    let entries = vec![
        MacroEntry { key: key("foo"), value: "1".into(), has_cfg: false, tokens: "\"foo\" => 1,".into() },
        MacroEntry {
            key: key("bar"),
            value: "2".into(),
            has_cfg: true,
            tokens: "#[cfg(feature = \"disabled_feature\")] \"bar\" => 2,".into(),
        },
        MacroEntry {
            key: key("baz"),
            value: "3".into(),
            has_cfg: true,
            tokens: "#[cfg(feature = \"enabled_feature\")] \"baz\" => 3,".into(),
        },
    ];
    let source = match emit_code(MacroKind::PhfOrderedMap, entries) {
        Ok(s) => s,
        Err(_) => panic!("refused"),
    };
    assert_eq!(
        source,
        "phf::__resolve_cfg! { phf_ordered_map [] { \"foo\" => 1,} \
         { #[cfg(feature = \"disabled_feature\")] \"bar\" => 2,} { } \
         { #[cfg(feature = \"enabled_feature\")] \"baz\" => 3,} { } }"
    );

    // `__resolve_cfg` keeps the entries whose cfg is on and expands again.
    let map = ordered_map_of(vec![(key("foo"), "1".into()), (key("baz"), "3".into())]);
    assert_eq!(Some(&1), map.get("foo"));
    assert_eq!(None, map.get("bar"));
    assert_eq!(Some(&3), map.get("baz"));
}

#[test]
fn macro_key_expressions() {
    let int = |v: u128, s: IntSuffix| KeyExpr::Int(v, s);
    assert!(matches!(ParsedKey::from_expr(&int(128, IntSuffix::I8)), Some(ParsedKey::I8(-128))));
    assert!(matches!(
        ParsedKey::from_expr(&KeyExpr::Neg(Box::new(int(128, IntSuffix::I8)))),
        Some(ParsedKey::I8(-128))
    ));
    assert!(matches!(
        ParsedKey::from_expr(&KeyExpr::Neg(Box::new(int(5, IntSuffix::I32)))),
        Some(ParsedKey::I32(-5))
    ));
    assert!(ParsedKey::from_expr(&KeyExpr::Neg(Box::new(int(5, IntSuffix::U32)))).is_none());
    assert!(matches!(ParsedKey::from_expr(&int(7, IntSuffix::Unsuffixed)), Some(ParsedKey::I32(7))));
    assert!(ParsedKey::from_expr(&int(1 << 40, IntSuffix::Unsuffixed)).is_none());
    assert!(ParsedKey::from_expr(&int(1, IntSuffix::Unknown)).is_none());
    match ParsedKey::from_expr(&KeyExpr::Array(vec![int(0, IntSuffix::U8), int(1, IntSuffix::Unsuffixed)])) {
        Some(ParsedKey::Binary(b)) => assert_eq!(b, vec![0u8, 1]),
        _ => panic!("array key"),
    }
    assert!(ParsedKey::from_expr(&KeyExpr::Array(vec![int(0, IntSuffix::U16)])).is_none());
    match ParsedKey::from_expr(&KeyExpr::Deref(Box::new(KeyExpr::Group(Box::new(KeyExpr::ByteStr(b"ab".to_vec())))))) {
        Some(ParsedKey::Binary(b)) => assert_eq!(b, b"ab".to_vec()),
        _ => panic!("deref key"),
    }
    match ParsedKey::from_expr(&KeyExpr::Tuple(vec![int(1, IntSuffix::U32), KeyExpr::Str("a".into())])) {
        Some(ParsedKey::Tuple(es)) => assert_eq!(es.len(), 2),
        _ => panic!("tuple key"),
    }
    assert!(ParsedKey::from_expr(&KeyExpr::Tuple(vec![KeyExpr::Other])).is_none());
}

#[test]
fn macro_errors() {
    match emit_code(MacroKind::PhfMap, vec![entry(key("a"), "1"), entry(key("a"), "2")]) {
        Err(MacroError::DuplicateKey(t)) => assert_eq!(t, "\"a\""),
        _ => panic!("duplicate expected"),
    }
    let bad = KeyPattern::Key(KeyExpr::Other, "f()".to_string());
    match emit_code(MacroKind::PhfSet, vec![entry(key("a"), "()"), entry(or(key("b"), bad), "()")]) {
        Err(MacroError::UnsupportedKey(t)) => assert_eq!(t, "f()"),
        _ => panic!("unsupported expected"),
    }
}

#[test]
fn macro_source() {
    let source = match emit_code(MacroKind::PhfOrderedSet, vec![entry(key("x"), "()"), entry(key("y"), "()")]) {
        Ok(s) => s,
        Err(_) => panic!("refused"),
    };
    assert!(source.starts_with("phf::OrderedSet { map: phf::OrderedMap { key: "));
    assert!(source.ends_with("entries: &[(\"x\", ()), (\"y\", ())], } }"));
    let source = match emit_code(MacroKind::PhfMap, vec![entry(key("x"), "1")]) {
        Ok(s) => s,
        Err(_) => panic!("refused"),
    };
    assert!(source.starts_with("phf::Map { key: "));
    assert!(source.ends_with("disps: &[(0u32, 0u32)], entries: &[(\"x\", 1)], }"));
}

#[test]
fn macro_empty_input_expands() {
    match emit_code(MacroKind::PhfMap, vec![]) {
        Ok(s) => {
            let key = fastrand::Rng::with_seed(1234567890).u64(..);
            assert_eq!(s, format!("phf::Map {{ key: {}u64, disps: &[], entries: &[], }}", key));
        }
        Err(_) => panic!("refused"),
    }
}
