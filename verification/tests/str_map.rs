//! The map from strings.

use rkv::StrMap;

#[test]
fn str_map_insert_and_get() {
    let mut m: StrMap<u64> = StrMap::new();
    m.insert("b".to_string(), 2);
    m.insert("a".to_string(), 1);
    m.insert("b".to_string(), 3);
    assert_eq!(m.len(), 2);
    assert_eq!(m.get("b"), Some(&3));
    assert_eq!(m.at(0).0, "a");
}

#[test]
fn str_map_keeps_byte_order() {
    let mut m: StrMap<usize> = StrMap::new();
    let keys = ["pear", "", "Apple", "apple", "\u{e9}", "zoo", "app"];
    for (i, key) in keys.iter().enumerate() {
        m.insert(key.to_string(), i);
    }
    let mut sorted = keys.to_vec();
    sorted.sort();
    let listed: Vec<&str> = (0..m.len()).map(|i| m.at(i).0.as_str()).collect();
    assert_eq!(listed, sorted);
    assert!(m.contains_key("app"));
    assert!(!m.contains_key("ap"));
    assert_eq!(m.get("zo"), None);
    let copy = m.clone();
    m.insert("zoo".to_string(), 9);
    assert_eq!(m.get("zoo"), Some(&9));
    assert_eq!(m.len(), copy.len());
    assert_eq!(copy.get("zoo"), Some(&5));
}
