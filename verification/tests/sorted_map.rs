use scup::sorted_map::{SortedMap, SortedSet};

fn keys(m: &SortedSet<String>) -> Vec<String> {
    let mut r = Vec::new();
    for i in 0..m.len() {
        r.push(m.entry(i).0.clone());
    }
    r
}

#[test]
fn entries_stand_in_order() {
    let mut m: SortedSet<String> = SortedMap::new();
    assert!(m.is_empty());
    for k in ["b", "a/c", "a", "é", "B", "a"] {
        m.insert(k.to_string(), ());
    }
    assert_eq!(keys(&m), vec!["B", "a", "a/c", "b", "é"]);
    assert_eq!(m.len(), 5);
    assert!(!m.is_empty());
}

#[test]
fn bindings_are_replaced_kept_and_removed() {
    let mut m: SortedMap<String, Vec<u8>> = SortedMap::new();
    m.insert("x".to_string(), vec![1]);
    m.insert("x".to_string(), vec![2]);
    assert_eq!(m.get(&"x".to_string()), Some(&vec![2]));
    assert!(!m.insert_absent("x".to_string(), vec![3]));
    assert_eq!(m.get(&"x".to_string()), Some(&vec![2]));
    assert!(m.insert_absent("y".to_string(), vec![4]));
    assert!(m.contains_key(&"y".to_string()));
    m.remove(&"x".to_string());
    m.remove(&"not there".to_string());
    assert_eq!(m.get(&"x".to_string()), None);
    assert_eq!(m.len(), 1);
    assert_eq!(m.clone(), m);
}
