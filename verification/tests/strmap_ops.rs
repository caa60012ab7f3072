use ludwig::StrMap;

#[test]
fn a_fresh_map_is_empty() {
    let m = StrMap::new();
    assert!(m.entries().is_empty());
    assert_eq!(m.get(&String::from("a")), None);
    assert!(!m.contains(&String::from("a")));
}

#[test]
fn insert_binds_and_get_finds() {
    let mut m = StrMap::new();
    m.insert("a".to_string(), "1".to_string());
    m.insert("b".to_string(), "2".to_string());
    assert_eq!(m.get(&String::from("a")), Some(&"1".to_string()));
    assert_eq!(m.get(&String::from("b")), Some(&"2".to_string()));
    assert!(m.contains(&String::from("a")));
    assert_eq!(m.entries().len(), 2);
}

#[test]
fn insert_replaces_an_equal_key() {
    let mut m = StrMap::new();
    m.insert("a".to_string(), "1".to_string());
    m.insert("a".to_string(), "2".to_string());
    assert_eq!(m.get(&String::from("a")), Some(&"2".to_string()));
    assert_eq!(m.entries().len(), 1);
}

#[test]
fn merge_from_takes_the_other_side_on_collision() {
    let mut base = StrMap::new();
    base.insert("kept".to_string(), "old".to_string());
    base.insert("shared".to_string(), "old".to_string());
    let mut extra = StrMap::new();
    extra.insert("shared".to_string(), "new".to_string());
    extra.insert("added".to_string(), "new".to_string());
    base.merge_from(&extra);
    assert_eq!(base.get(&String::from("kept")), Some(&"old".to_string()));
    assert_eq!(base.get(&String::from("shared")), Some(&"new".to_string()));
    assert_eq!(base.get(&String::from("added")), Some(&"new".to_string()));
    assert_eq!(base.entries().len(), 3);
}

#[test]
fn from_pairs_wraps_unique_entries() {
    let m = StrMap::from_pairs(vec![
        ("x".to_string(), "1".to_string()),
        ("y".to_string(), "2".to_string()),
    ]);
    assert_eq!(m.get(&String::from("x")), Some(&"1".to_string()));
    assert_eq!(m.get(&String::from("y")), Some(&"2".to_string()));
}
