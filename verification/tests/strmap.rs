use toast::strmap::StringMap;

#[test]
fn insert_and_get() {
    let mut m = StringMap::new();
    assert!(m.is_empty());
    m.insert("b".to_owned(), 2);
    m.insert("a".to_owned(), 1);
    m.insert("b".to_owned(), 3);
    assert_eq!(m.len(), 2);
    assert_eq!(m.get("a"), Some(&1));
    assert_eq!(m.get("b"), Some(&3));
    assert_eq!(m.get("c"), None);
    assert!(m.contains_key("a"));
    assert_eq!(m.key_at(0), "a");
    assert_eq!(m.value_at(1), &3);
    assert_eq!(m.find("b"), Some(1));
}

#[test]
fn equal_contents_equal_maps() {
    let mut m1 = StringMap::new();
    m1.insert("x".to_owned(), 1);
    m1.insert("y".to_owned(), 2);
    let mut m2 = StringMap::new();
    m2.insert("y".to_owned(), 2);
    m2.insert("x".to_owned(), 1);
    assert_eq!(m1, m2);
}
