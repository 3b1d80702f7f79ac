use regurgitate::fetcher::{Blob, FetchError, PageError, Record, Records};

fn record(id: &str, name: &str) -> Record {
    Record {
        id: id.to_string(),
        number: "1".to_string(),
        timestamp: "2018-01-01T00:00:00Z".to_string(),
        blob: vec![Blob::from_entries(vec![("name".to_string(), name.to_string())])],
    }
}

fn records(items: &[(&str, &str)]) -> Records {
    Records::from_entries(items.iter().map(|(k, n)| (k.to_string(), record(k, n))).collect())
}

fn name_of(records: &Records, key: &str) -> Option<String> {
    records.get(key).map(|r| r.blob().to_entries()[0].1.clone())
}

#[test]
fn records_by_key_keep_the_last_entry() {
    let rs = records(&[("a", "one"), ("b", "two"), ("a", "three")]);
    assert_eq!(rs.len(), 2);
    assert_eq!(name_of(&rs, "a"), Some("three".to_string()));
    assert_eq!(name_of(&rs, "b"), Some("two".to_string()));
    assert!(rs.get("c").is_none());
    assert_eq!(rs.get("b").unwrap().id, "b");
    assert!(Records::new().get("a").is_none());
    assert_eq!(Records::new().len(), 0);
}

#[test]
fn extend_replaces_records_with_same_key() {
    let mut rs = records(&[("a", "one"), ("b", "two")]);
    rs.extend(records(&[("b", "new"), ("c", "three")]));
    assert_eq!(rs.len(), 3);
    assert_eq!(name_of(&rs, "a"), Some("one".to_string()));
    assert_eq!(name_of(&rs, "b"), Some("new".to_string()));
    assert_eq!(name_of(&rs, "c"), Some("three".to_string()));
}

#[test]
fn write_succeeds() {
    assert!(records(&[("a", "one")]).write().is_ok());
}

#[test]
fn page_with_next_link_gives_next_address() {
    let mut rs = Records::new();
    let next = rs
        .take_page(Some(records(&[("a", "one")])), Some(b"<x>; rel=\"next\"".to_vec()), "https://r.org/records.json")
        .unwrap();
    assert_eq!(next, Some("https://r.org/records.json?page-index=2".to_string()));
    assert_eq!(rs.len(), 1);
}

#[test]
fn page_without_next_link_ends() {
    let mut rs = Records::new();
    let last = rs.take_page(Some(records(&[("a", "one")])), Some(b"<x>; rel=\"prev\"".to_vec()), "u").unwrap();
    assert_eq!(last, None);
    let none = rs.take_page(Some(records(&[("b", "two")])), None, "u").unwrap();
    assert_eq!(none, None);
    assert_eq!(rs.len(), 2);
}

#[test]
fn failed_page_is_an_error_and_changes_nothing() {
    let mut rs = records(&[("a", "one")]);
    match rs.take_page(None, Some(b"<x>; rel=\"next\"".to_vec()), "u") {
        Err(PageError::Fetch(e)) => {
            assert_eq!(e.message(), "Unexpected error while fetching a records page".to_string())
        }
        other => panic!("unexpected {:?}", other),
    }
    assert_eq!(rs.len(), 1);
}

#[test]
fn link_header_that_is_not_text_is_an_error() {
    let mut rs = Records::new();
    assert!(matches!(
        rs.take_page(Some(records(&[("a", "one")])), Some(vec![b'n', 0x80]), "u"),
        Err(PageError::NotText)
    ));
    assert_eq!(rs.len(), 1);
}

#[test]
fn fetcher_fetch_error_message() {
    assert_eq!(FetchError.message(), "Unexpected error while fetching a records page".to_string());
}
