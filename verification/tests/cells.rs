use regurgitate::cells::Cells;

fn pairs(items: &[(&str, &str)]) -> Vec<(String, String)> {
    items.iter().map(|(k, v)| (k.to_string(), v.to_string())).collect()
}

#[test]
fn later_entry_replaces_earlier_one() {
    let cells = Cells::from_entries(pairs(&[("a", "1"), ("b", "2"), ("a", "3")]));
    assert_eq!(cells.len(), 2);
    assert_eq!(cells.get("a"), Some(&"3".to_string()));
    assert_eq!(cells.get("b"), Some(&"2".to_string()));
    assert_eq!(cells.get("c"), None);
    assert_eq!(cells.to_entries(), pairs(&[("a", "3"), ("b", "2")]));
}

#[test]
fn insert_keeps_the_place_of_a_key() {
    let mut cells = Cells::new();
    assert_eq!(cells.len(), 0);
    cells.insert("x".to_string(), "1".to_string());
    cells.insert("y".to_string(), "2".to_string());
    cells.insert("x".to_string(), "9".to_string());
    assert_eq!(cells.to_entries(), pairs(&[("x", "9"), ("y", "2")]));
    let (k, v) = cells.entry(1);
    assert_eq!((k.as_str(), v.as_str()), ("y", "2"));
}

#[test]
fn duplicate_is_an_equal_copy() {
    let cells = Cells::from_entries(pairs(&[("k", "v")]));
    let copy = cells.duplicate();
    assert_eq!(copy.to_entries(), cells.to_entries());
}
