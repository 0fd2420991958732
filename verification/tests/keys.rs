use kjdb::keymap::KeyMap;
use kjdb::keys::{compare_keys, has_prefix, KeyOrder};

#[test]
fn compare_keys_orders_as_str() {
    assert_eq!(compare_keys("app", "apple"), KeyOrder::Less);
    assert_eq!(compare_keys("apply", "apple"), KeyOrder::Greater);
    assert_eq!(compare_keys("banana", "banana"), KeyOrder::Equal);
    assert_eq!(compare_keys("", "a"), KeyOrder::Less);
    assert_eq!(compare_keys("Z", "a"), KeyOrder::Less);
    assert_eq!(compare_keys("é", "z"), KeyOrder::Greater);
    for (a, b) in [("x", "xy"), ("ä", "å"), ("a\u{10000}", "a\u{ffff}"), ("", "")] {
        let expected = match a.cmp(b) {
            std::cmp::Ordering::Less => KeyOrder::Less,
            std::cmp::Ordering::Equal => KeyOrder::Equal,
            std::cmp::Ordering::Greater => KeyOrder::Greater,
        };
        assert_eq!(compare_keys(a, b), expected);
    }
}

#[test]
fn has_prefix_matches_starts_with() {
    assert!(has_prefix("apple", "app"));
    assert!(has_prefix("apple", ""));
    assert!(has_prefix("apple", "apple"));
    assert!(!has_prefix("app", "apple"));
    assert!(!has_prefix("banana", "a"));
    assert!(has_prefix("über", "ü"));
}

#[test]
fn keymap_insert_get_remove() {
    let mut m = KeyMap::new();
    assert_eq!(m.insert("b".to_string(), 2), None);
    assert_eq!(m.insert("a".to_string(), 1), None);
    assert_eq!(m.insert("c".to_string(), 3), None);
    assert_eq!(m.insert("b".to_string(), 20), Some(2));
    assert_eq!(m.len(), 3);
    assert_eq!(m.get("b"), Some(&20));
    assert_eq!(m.get("d"), None);
    assert_eq!(m.remove("a"), Some(1));
    assert_eq!(m.remove("a"), None);
    assert_eq!(m.get("a"), None);
    assert_eq!(
        m.into_entries(),
        vec![("b".to_string(), 20), ("c".to_string(), 3)]
    );
}

#[test]
fn keymap_keeps_keys_in_order() {
    let mut m = KeyMap::new();
    for k in ["pear", "apple", "fig", "banana", "apple"] {
        m.insert(k.to_string(), ());
    }
    let keys: Vec<String> = m.into_entries().into_iter().map(|(k, _)| k).collect();
    assert_eq!(keys, ["apple", "banana", "fig", "pear"]);
}

#[test]
fn keymap_take_first_is_lowest() {
    let mut m = KeyMap::new();
    m.insert("m".to_string(), 1);
    m.insert("k".to_string(), 2);
    assert_eq!(m.take_first(), ("k".to_string(), 2));
}
