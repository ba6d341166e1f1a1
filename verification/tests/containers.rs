use pubspec::text::compare_keys;
use pubspec::text::same_text;
use pubspec::text::KeyOrder;
use pubspec::SortedMap;

#[test]
fn compare_keys_orders_by_characters() {
    assert_eq!(compare_keys("a", "b"), KeyOrder::Before);
    assert_eq!(compare_keys("b", "a"), KeyOrder::After);
    assert_eq!(compare_keys("abc", "abc"), KeyOrder::Same);
    assert_eq!(compare_keys("", ""), KeyOrder::Same);
    assert_eq!(compare_keys("", "a"), KeyOrder::Before);
    assert_eq!(compare_keys("a", ""), KeyOrder::After);
    assert_eq!(compare_keys("ab", "abc"), KeyOrder::Before);
    assert_eq!(compare_keys("abd", "abc"), KeyOrder::After);
    assert_eq!(compare_keys("Z", "a"), KeyOrder::Before);
    assert_eq!(compare_keys("a10", "a9"), KeyOrder::Before);
}

#[test]
fn compare_keys_agrees_with_the_order_of_strings() {
    let samples =
        ["", "a", "ab", "b", "B", "é", "z", "ü", "日本", "\u{10000}", "\u{ffff}", "meta"];
    for a in samples {
        for b in samples {
            let expected = if a < b {
                KeyOrder::Before
            } else if a == b {
                KeyOrder::Same
            } else {
                KeyOrder::After
            };
            assert_eq!(compare_keys(a, b), expected, "{:?} against {:?}", a, b);
        }
    }
}

#[test]
fn same_text_is_exact() {
    assert!(same_text("flutter", "flutter"));
    assert!(same_text("", ""));
    assert!(!same_text("flutter", "Flutter"));
    assert!(!same_text("flutter", "flutter "));
    assert!(!same_text("flutte", "flutter"));
    assert!(!same_text("é", "e"));
}

#[test]
fn new_map_is_empty() {
    let map: SortedMap<String> = SortedMap::new();
    assert_eq!(map.len(), 0);
    assert_eq!(map.get("a"), None);
    assert_eq!(map.entry(0), None);
}

#[test]
fn map_keeps_entries_in_key_order() {
    let mut map: SortedMap<String> = SortedMap::new();
    for key in ["meta", "async", "yaml", "collection", "Zebra", "path"] {
        assert_eq!(map.insert(key.to_string(), key.to_uppercase()), None);
    }
    assert_eq!(map.len(), 6);
    let mut keys: Vec<String> = Vec::new();
    let mut i = 0;
    while let Some((key, value)) = map.entry(i) {
        assert_eq!(*value, key.to_uppercase());
        keys.push(key.clone());
        i += 1;
    }
    assert_eq!(keys, vec!["Zebra", "async", "collection", "meta", "path", "yaml"]);
    assert_eq!(map.entry(6), None);
}

#[test]
fn map_insert_replaces_and_returns_the_old_value() {
    let mut map: SortedMap<String> = SortedMap::new();
    assert_eq!(map.insert("b".to_string(), "1".to_string()), None);
    assert_eq!(map.insert("a".to_string(), "2".to_string()), None);
    assert_eq!(map.insert("c".to_string(), "3".to_string()), None);
    assert_eq!(map.insert("b".to_string(), "4".to_string()), Some("1".to_string()));
    assert_eq!(map.insert("a".to_string(), "5".to_string()), Some("2".to_string()));
    assert_eq!(map.insert("c".to_string(), "6".to_string()), Some("3".to_string()));
    assert_eq!(map.len(), 3);
    assert_eq!(map.entry(0), Some((&"a".to_string(), &"5".to_string())));
    assert_eq!(map.entry(1), Some((&"b".to_string(), &"4".to_string())));
    assert_eq!(map.entry(2), Some((&"c".to_string(), &"6".to_string())));
}

#[test]
fn map_get_finds_every_key_and_no_other() {
    let mut map: SortedMap<String> = SortedMap::new();
    let keys = ["d", "b", "f", "a", "c", "e", "g"];
    for key in keys {
        map.insert(key.to_string(), format!("value of {}", key));
    }
    for key in keys {
        assert_eq!(map.get(key), Some(&format!("value of {}", key)));
    }
    for key in ["", "0", "aa", "cc", "h", "D"] {
        assert_eq!(map.get(key), None);
    }
}

#[test]
fn maps_compare_by_their_bindings() {
    let mut left: SortedMap<String> = SortedMap::new();
    left.insert("a".to_string(), "1".to_string());
    left.insert("b".to_string(), "2".to_string());
    let mut right: SortedMap<String> = SortedMap::new();
    right.insert("b".to_string(), "0".to_string());
    right.insert("a".to_string(), "1".to_string());
    assert_ne!(left, right);
    right.insert("b".to_string(), "2".to_string());
    assert_eq!(left, right);
}
