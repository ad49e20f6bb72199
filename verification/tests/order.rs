//! The order keys sort in, and the laws the map's operations keep together,
//! on concrete values.

use lib::{key_less, str_equal, OrderedMap};

fn keys_of<V>(map: &OrderedMap<V>) -> Vec<String> {
    let mut keys = map.keys();
    let mut out = Vec::new();
    while let Some(key) = keys.next() {
        out.push(key.to_string());
    }
    out
}

#[test]
fn keys_compare_by_their_bytes() {
    assert!(key_less("a", "b"));
    assert!(!key_less("b", "a"));
    assert!(!key_less("a", "a"));
    // A prefix comes first.
    assert!(key_less("", "a"));
    assert!(key_less("ab", "abc"));
    assert!(!key_less("abc", "ab"));
    // Upper case sorts before lower case, as its bytes do.
    assert!(key_less("B", "a"));
    // A character past ASCII sorts after every ASCII one.
    assert!(key_less("z", "é"));
    assert!(key_less("é", "ê"));
}

#[test]
fn key_order_agrees_with_string_order() {
    let keys = ["", "a", "A", "ab", "b", "é", "z", "Z", "key_1", "key_10", "key_2", "☃", "\u{10000}"];
    for a in keys {
        for b in keys {
            assert_eq!(key_less(a, b), a < b, "{a:?} against {b:?}");
        }
    }
}

#[test]
fn str_equal_is_text_equality() {
    assert!(str_equal("", ""));
    assert!(str_equal("é", "é"));
    assert!(!str_equal("a", "ab"));
    assert!(!str_equal("ab", "ac"));
}

#[test]
fn sort_keys_keeps_every_entry_and_orders_them() {
    let mut map = OrderedMap::from_entries(vec![
        ("pear".to_string(), 3),
        ("Apple".to_string(), 1),
        ("apple".to_string(), 2),
        ("é".to_string(), 4),
        ("app".to_string(), 5),
    ]);
    map.sort_keys();
    assert_eq!(keys_of(&map), ["Apple", "app", "apple", "pear", "é"]);
    assert_eq!(map.get("pear"), Some(&3));
    assert_eq!(map.get("Apple"), Some(&1));
    assert_eq!(map.get("apple"), Some(&2));
    assert_eq!(map.get("é"), Some(&4));
    assert_eq!(map.get("app"), Some(&5));
    assert_eq!(map.len(), 5);
}

#[test]
fn read_after_write() {
    let mut map = OrderedMap::from_entries(vec![("a".to_string(), 1), ("b".to_string(), 2)]);
    map.insert("b".to_string(), 20);
    assert_eq!(map.get("b"), Some(&20));
    assert_eq!(map.get("a"), Some(&1));
    map.insert("c".to_string(), 3);
    assert_eq!(map.get("c"), Some(&3));
    assert_eq!(keys_of(&map), ["a", "b", "c"]);
}

#[test]
fn inserting_then_removing_an_absent_key_changes_nothing() {
    let before = OrderedMap::from_entries(vec![("x".to_string(), 1), ("y".to_string(), 2)]);
    let mut map = before.clone();
    map.insert("z".to_string(), 3);
    assert_eq!(map.remove("z"), Some(3));
    assert_eq!(keys_of(&map), keys_of(&before));
    assert_eq!(map, before);
}

#[test]
fn removing_keeps_the_others_in_order() {
    let mut map = OrderedMap::from_entries(vec![
        ("a".to_string(), 1),
        ("b".to_string(), 2),
        ("c".to_string(), 3),
    ]);
    assert_eq!(map.remove("b"), Some(2));
    assert_eq!(map.get("b"), None);
    assert_eq!(keys_of(&map), ["a", "c"]);
    assert_eq!(map.get_index(1), Some(("c", &3)));
}

#[test]
fn entries_in_another_order_are_equal() {
    let a = OrderedMap::from_entries(vec![("a".to_string(), 1), ("b".to_string(), 2)]);
    let b = OrderedMap::from_entries(vec![("b".to_string(), 2), ("a".to_string(), 1)]);
    assert_eq!(a, b);
    let c = OrderedMap::from_entries(vec![("b".to_string(), 2), ("a".to_string(), 9)]);
    assert_ne!(a, c);
}

#[test]
fn a_cloned_walker_carries_on_from_where_the_first_one_stands() {
    let map = OrderedMap::from_entries(vec![
        ("a".to_string(), 1),
        ("b".to_string(), 2),
        ("c".to_string(), 3),
    ]);
    let mut keys = map.keys();
    assert_eq!(keys.next(), Some("a"));
    let mut copy = keys.clone();
    assert_eq!(copy.next(), Some("b"));
    assert_eq!(keys.next(), Some("b"));
    assert_eq!(copy.len(), 1);

    let mut values = map.values();
    assert_eq!(values.next_back(), Some(&3));
    let mut again = values.clone();
    assert_eq!(again.next(), Some(&1));
    assert_eq!(again.len(), 1);

    let iter = map.iter();
    assert_eq!(iter.clone().len(), 3);
}

#[test]
fn a_map_grown_by_inserts_has_the_table_its_size_asks_for() {
    let mut map: OrderedMap<usize> = OrderedMap::new();
    for n in 1..=100usize {
        map.insert(format!("k{n}"), n);
        if n <= lib::LINEAR_MAX {
            assert_eq!(map.bucket_count(), 0);
        } else {
            assert_eq!(map.bucket_count(), lib::buckets_for(n));
        }
    }
}
