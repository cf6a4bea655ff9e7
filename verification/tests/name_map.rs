use ci_timing::name_map::NameMap;

fn keys(m: &NameMap<u64>) -> Vec<String> {
    (0..m.len()).map(|i| m.entry(i).unwrap().0.clone()).collect()
}

#[test]
fn a_new_map_is_empty() {
    let m: NameMap<u64> = NameMap::new();
    assert_eq!(m.len(), 0);
    assert_eq!(m.get("a"), None);
    assert_eq!(m.entry(0), None);
    assert_eq!(m.position("a"), Err(0));
}

#[test]
fn keys_are_kept_in_dictionary_order() {
    let mut m: NameMap<u64> = NameMap::new();
    for (i, k) in ["dist", "b", "", "a", "é", "B", "aa"].iter().enumerate() {
        m.insert(k.to_string(), i as u64);
    }
    assert_eq!(keys(&m), vec!["", "B", "a", "aa", "b", "dist", "é"]);
    assert_eq!(m.get("dist"), Some(&0));
    assert_eq!(m.get("aa"), Some(&6));
    assert_eq!(m.get("c"), None);
    assert_eq!(m.position("a"), Ok(2));
    assert_eq!(m.position("ab"), Err(4));
    assert_eq!(m.position("zz"), Err(6));
    assert_eq!(m.entry(1), Some((&"B".to_string(), &5)));
    assert_eq!(m.entry(7), None);
}

#[test]
fn a_key_put_again_replaces_its_value() {
    let mut m: NameMap<u64> = NameMap::new();
    m.insert("a".to_string(), 1);
    m.insert("b".to_string(), 2);
    m.insert("a".to_string(), 3);
    assert_eq!(m.len(), 2);
    assert_eq!(m.get("a"), Some(&3));
    assert_eq!(m.get("b"), Some(&2));
}

#[test]
fn take_removes_the_key() {
    let mut m: NameMap<u64> = NameMap::new();
    m.insert("a".to_string(), 1);
    m.insert("b".to_string(), 2);
    m.insert("c".to_string(), 3);
    assert_eq!(m.take("b"), Some(2));
    assert_eq!(m.take("b"), None);
    assert_eq!(m.take("z"), None);
    assert_eq!(keys(&m), vec!["a", "c"]);
    assert_eq!(m.get("c"), Some(&3));
}

#[test]
fn maps_with_the_same_entries_are_equal_whatever_the_order_of_putting() {
    let mut x: NameMap<u64> = NameMap::new();
    let mut y: NameMap<u64> = NameMap::new();
    for k in ["c", "a", "b"] {
        x.insert(k.to_string(), 1);
    }
    for k in ["b", "c", "a"] {
        y.insert(k.to_string(), 1);
    }
    assert_eq!(x, y);
}
