use phf::builder::OrderedMap;

/// Picks the arm whose string key equals `key`, or `default`, by looking the
/// key up in an ordered map built from the arms.
fn match_str(key: &str, arms: &[(&str, i32)], default: i32) -> i32 {
    let mut builder = OrderedMap::new();
    for (k, v) in arms {
        builder.entry(k.to_string(), *v);
    }
    let map = builder.build().unwrap();
    match map.get(key) {
        Some(v) => *v,
        None => default,
    }
}

#[test]
fn test_zero() {
    assert_eq!(match_str("foo", &[], 0), 0);
    assert_eq!(match_str("bar", &[], 0), 0);

    assert_eq!(match_str("foo", &[], 0), 0);
    assert_eq!(match_str("foo", &[], { 0 }), 0);
    assert_eq!(match_str("foo", &[], { 0 }), 0);
}

#[test]
fn test_one() {
    assert_eq!(match_str("foo", &[("foo", 0)], 1), 0);
    assert_eq!(match_str("bar", &[("foo", 0)], 1), 1);
}

#[test]
fn match_two_arms() {
    assert_eq!(match_str("foo", &[("foo", 0), ("bar", 1)], 2), 0);
    assert_eq!(match_str("bar", &[("foo", 0), ("bar", 1)], 2), 1);
    assert_eq!(match_str("baz", &[("foo", 0), ("bar", 1)], 2), 2);
}

#[test]
fn test_three() {
    let arms = [("foo", 0), ("bar", 1), ("baz", 2)];
    assert_eq!(match_str("foo", &arms, 3), 0);
    assert_eq!(match_str("bar", &arms, 3), 1);
    assert_eq!(match_str("baz", &arms, 3), 2);
    assert_eq!(match_str("boo", &arms, 3), 3);
}
