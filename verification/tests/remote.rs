use regurgitate::context::{Attribute, Context, Organisation, Schema};
use regurgitate::link_header::Link;
use regurgitate::remote::FetchError;
use regurgitate::{Record, Remote};

fn org(id: &str) -> Organisation {
    Organisation { id: id.to_string(), name: id.to_uppercase() }
}

fn attribute(id: &str, alias: Option<&str>) -> Attribute {
    Attribute {
        id: id.to_string(),
        alias: alias.map(|a| a.to_string()),
        description: None,
        datatype: "string".to_string(),
        format: None,
        required: false,
        separator: None,
    }
}

fn context() -> Context {
    Context {
        origin: "https://example.org".to_string(),
        id: "ds".to_string(),
        name: "Dataset".to_string(),
        description: "".to_string(),
        organisation: org("acme"),
        owner: org("owner"),
        copyright_holder: org("holder"),
        schema: Schema {
            primary_key: vec!["_id".to_string()],
            attributes: vec![attribute("_id", None), attribute("a", None), attribute("nm", Some("name"))],
        },
        publication_date: "2018".to_string(),
        license: "OGL".to_string(),
    }
}

fn pairs(items: &[(&str, &str)]) -> Vec<(String, String)> {
    items.iter().map(|(k, v)| (k.to_string(), v.to_string())).collect()
}

#[test]
fn new_remote_has_no_records() {
    let remote = Remote::new(context());
    assert_eq!(remote.records().len(), 0);
    assert_eq!(remote.context().id(), "ds");
}

#[test]
fn taken_records_are_cast_and_appended() {
    let mut remote = Remote::new(context());
    remote.take_records(vec![
        Record::from_entries(pairs(&[("_id", "2"), ("a", "1"), ("junk", "x")])),
        Record::from_entries(pairs(&[("_id", "1"), ("nm", "n")])),
    ]);
    remote.take_records(vec![Record::from_entries(pairs(&[("_id", "3")]))]);
    let records = remote.records().as_slice();
    assert_eq!(records.len(), 3);
    assert_eq!(records[0].id(), Some("2".to_string()));
    assert!(records[0].checksum().is_some());
    assert_eq!(records[1].id(), Some("1".to_string()));
    assert_eq!(records[2].id(), Some("3".to_string()));
    let mut first = records[0].to_entries();
    first.sort();
    assert_eq!(first.len(), 3);
    assert_eq!(first[0].0, "_checksum");
    assert_eq!(first[1], ("_id".to_string(), "2".to_string()));
    assert_eq!(first[2], ("a".to_string(), "1".to_string()));
}

#[test]
fn rows_are_header_then_values() {
    let mut remote = Remote::new(context());
    remote.take_records(vec![
        Record::from_entries(pairs(&[("_id", "1"), ("a", "x"), ("nm", "n")])),
        Record::from_entries(pairs(&[("_id", "2")])),
    ]);
    let rows = remote.rows();
    assert_eq!(
        rows,
        vec![
            vec!["_id".to_string(), "a".to_string(), "name".to_string()],
            vec!["1".to_string(), "x".to_string(), "n".to_string()],
            vec!["2".to_string(), "".to_string(), "".to_string()],
        ]
    );
    assert_eq!(Remote::new(context()).rows().len(), 1);
}

#[test]
fn next_link_is_the_first_next() {
    let links = vec![
        Link::Other("/last".to_string(), "last".to_string()),
        Link::Next("/records?page=2".to_string()),
        Link::Next("/records?page=3".to_string()),
    ];
    assert_eq!(Remote::next_link(&links), Some("/records?page=2".to_string()));
    assert_eq!(Remote::next_link(&vec![Link::Previous("/p".to_string())]), None);
    assert_eq!(Remote::next_link(&vec![]), None);
}

#[test]
fn next_link_from_a_header() {
    let links = Link::from_header(b"</records?page=1>; rel=\"prev\", </records?page=3>; rel=\"next\"").unwrap();
    assert_eq!(Remote::next_link(&links), Some("/records?page=3".to_string()));
}

#[test]
fn remote_fetch_error_message() {
    assert_eq!(FetchError.message(), "Unexpected error while fetching a records page".to_string());
}

#[test]
fn checksum_of_no_records_is_none() {
    let mut remote = Remote::new(context());
    assert_eq!(remote.checksum(), None);
    remote.take_records(vec![Record::from_entries(pairs(&[("_id", "1"), ("a", "x")]))]);
    let checksum = remote.checksum().unwrap();
    assert_eq!(Some(checksum), Some(remote.records().checksum()));
    assert!(remote.records().checksum().starts_with("1620"));
    assert_eq!(remote.records().checksum().len(), 68);
}
