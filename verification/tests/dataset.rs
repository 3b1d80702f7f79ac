use regurgitate::context::{Attribute, Schema};
use regurgitate::{Record, Records};

fn pairs(items: &[(&str, &str)]) -> Vec<(String, String)> {
    items.iter().map(|(k, v)| (k.to_string(), v.to_string())).collect()
}

fn attribute(id: &str, alias: Option<&str>, separator: Option<char>) -> Attribute {
    Attribute {
        id: id.to_string(),
        alias: alias.map(|a| a.to_string()),
        description: None,
        datatype: "string".to_string(),
        format: None,
        required: false,
        separator,
    }
}

fn schema(attributes: Vec<Attribute>) -> Schema {
    Schema { primary_key: vec!["a".to_string()], attributes }
}

// SHA3-256 Blot hashes, written as multihashes.
const A1: &str = "1620a34f6a5022aab78a2ed1661e3cc59222c23e6c1c0dcbbbcf9ee3394ec8552efb";
const A1_BXY: &str = "16208a9cdab57c46cf82328add71093094f1e9881c0b6962d913b51729c1595a810d";
const EMPTY_DICT: &str = "16204ce8765e720c576f6f5a34ca380b3de5f0912e6e3cc5355542c363891e54594b";
const LIST_A1: &str = "16204c1f6cf1d4ab2cc9a02ba592713d7da27641bc337762ed87df1a62a1cd979e1b";
const LIST_A1_A1BXY: &str = "1620fb5eb707d172a4be41b0448ca757d75f3f58a695ce18cec268c24d761b48d05a";
const EMPTY_LIST: &str = "16203e5e3e723953551a2ba2e7c5584bcc4ce407414af1ab2569051e7c9bfa33164d";

#[test]
fn id_and_checksum_read_their_cells() {
    let r = Record::from_entries(pairs(&[("_id", "7"), ("_checksum", "c")]));
    assert_eq!(r.id(), Some("7".to_string()));
    assert_eq!(r.checksum(), Some("c".to_string()));
    let bare = Record::from_entries(pairs(&[("x", "1")]));
    assert_eq!(bare.id(), None);
    assert_eq!(bare.checksum(), None);
}

#[test]
fn as_row_follows_published_ids() {
    let r = Record::from_entries(pairs(&[("a", "1"), ("name", "n")]));
    let attrs = vec![attribute("name_raw", Some("name"), None), attribute("missing", None, None), attribute("a", None, None)];
    assert_eq!(r.as_row(&attrs), vec!["n".to_string(), "".to_string(), "1".to_string()]);
    assert!(r.as_row(&[]).is_empty());
}

#[test]
fn cast_keeps_schema_cells_and_adds_checksum() {
    let mut r = Record::from_entries(pairs(&[("a", "1"), ("junk", "z")]));
    r.cast(&schema(vec![attribute("a", None, None)]));
    assert_eq!(r.checksum(), Some(A1.to_string()));
    let mut cells = r.to_entries();
    cells.sort();
    assert_eq!(cells, pairs(&[("_checksum", A1), ("a", "1")]));
}

#[test]
fn cast_renames_aliased_cells_but_hashes_original_key() {
    let mut r = Record::from_entries(pairs(&[("a", "1")]));
    r.cast(&schema(vec![attribute("a", Some("alpha"), None)]));
    let mut cells = r.to_entries();
    cells.sort();
    assert_eq!(cells, pairs(&[("_checksum", A1), ("alpha", "1")]));
}

#[test]
fn cast_checksum_ignores_cell_order() {
    let s = schema(vec![attribute("a", None, None), attribute("b", None, Some(';'))]);
    let mut one = Record::from_entries(pairs(&[("a", "1"), ("b", "x;y")]));
    let mut two = Record::from_entries(pairs(&[("b", "x;y"), ("a", "1")]));
    one.cast(&s);
    two.cast(&s);
    assert_eq!(one.checksum(), Some(A1_BXY.to_string()));
    assert_eq!(two.checksum(), Some(A1_BXY.to_string()));
}

#[test]
fn cast_reads_multivalue_cells_as_sets() {
    let s = schema(vec![attribute("a", None, None), attribute("b", None, Some(';'))]);
    let mut r = Record::from_entries(pairs(&[("a", "1"), ("b", "y;x;y")]));
    r.cast(&s);
    assert_eq!(r.checksum(), Some(A1_BXY.to_string()));
}

#[test]
fn cast_checksum_ignores_empty_cells() {
    let s = schema(vec![attribute("a", None, None), attribute("c", None, None)]);
    let mut r = Record::from_entries(pairs(&[("a", "1"), ("c", "")]));
    r.cast(&s);
    assert_eq!(r.checksum(), Some(A1.to_string()));
    assert_eq!(r.as_row(&[attribute("c", None, None)]), vec!["".to_string()]);
}

#[test]
fn cast_of_nothing_is_the_empty_dictionary() {
    let mut r = Record::from_entries(pairs(&[("junk", "z")]));
    r.cast(&schema(vec![attribute("a", None, None)]));
    assert_eq!(r.to_entries(), pairs(&[("_checksum", EMPTY_DICT)]));
}

#[test]
fn cast_hash_depends_on_values() {
    let s = schema(vec![attribute("a", None, None)]);
    let mut one = Record::from_entries(pairs(&[("a", "1")]));
    let mut two = Record::from_entries(pairs(&[("a", "2")]));
    one.cast(&s);
    two.cast(&s);
    assert_ne!(one.checksum(), two.checksum());
}

fn record(id: Option<&str>, checksum: Option<&str>) -> Record {
    let mut cells = Vec::new();
    if let Some(i) = id {
        cells.push(("_id".to_string(), i.to_string()));
    }
    if let Some(c) = checksum {
        cells.push(("_checksum".to_string(), c.to_string()));
    }
    Record::from_entries(cells)
}

#[test]
fn records_grow_by_push_and_extend() {
    let mut rs = Records::new();
    assert_eq!(rs.len(), 0);
    rs.push(record(Some("1"), None));
    let mut more = Records::new();
    more.push(record(Some("2"), None));
    more.push(record(Some("3"), None));
    rs.extend(more);
    assert_eq!(rs.len(), 3);
    let ids: Vec<Option<String>> = rs.as_slice().iter().map(|r| r.id()).collect();
    assert_eq!(ids, vec![Some("1".to_string()), Some("2".to_string()), Some("3".to_string())]);
}

#[test]
fn sort_orders_by_id_with_missing_ids_first() {
    let mut rs = Records::new();
    for id in [Some("b"), None, Some("10"), Some("9"), Some("a")] {
        rs.push(record(id, None));
    }
    let sorted = rs.sort();
    let ids: Vec<Option<String>> = sorted.as_slice().iter().map(|r| r.id()).collect();
    assert_eq!(
        ids,
        vec![None, Some("10".to_string()), Some("9".to_string()), Some("a".to_string()), Some("b".to_string())]
    );
}

#[test]
fn dataset_checksum_is_the_list_hash_of_record_checksums() {
    let mut rs = Records::new();
    rs.push(record(Some("1"), Some(A1)));
    assert_eq!(rs.checksum(), LIST_A1.to_string());
    assert_eq!(Records::new().checksum(), EMPTY_LIST.to_string());
}

#[test]
fn dataset_checksum_ignores_record_order_and_unchecked_records() {
    let mut forward = Records::new();
    forward.push(record(Some("1"), Some(A1)));
    forward.push(record(Some("2"), Some(A1_BXY)));
    let mut backward = Records::new();
    backward.push(record(Some("3"), None));
    backward.push(record(Some("2"), Some(A1_BXY)));
    backward.push(record(Some("1"), Some(A1)));
    assert_eq!(forward.checksum(), LIST_A1_A1BXY.to_string());
    assert_eq!(backward.checksum(), LIST_A1_A1BXY.to_string());
}

#[test]
fn duplicate_copies_records() {
    let mut rs = Records::new();
    rs.push(record(Some("1"), Some(A1)));
    let copy = rs.duplicate();
    assert_eq!(copy.len(), 1);
    assert_eq!(copy.as_slice()[0].checksum(), Some(A1.to_string()));
    let r = record(Some("x"), None).duplicate();
    assert_eq!(r.id(), Some("x".to_string()));
}

#[test]
fn cast_ignores_a_cell_outside_the_schema() {
    let s = schema(vec![attribute("a", Some("alpha"), None), attribute("b", None, Some(';'))]);
    let mut plain = Record::from_entries(pairs(&[("a", "1"), ("b", "x;y")]));
    let mut extra = Record::from_entries(pairs(&[("b", "x;y"), ("zzz", "q"), ("a", "1")]));
    plain.cast(&s);
    extra.cast(&s);
    let mut p = plain.to_entries();
    let mut e = extra.to_entries();
    p.sort();
    e.sort();
    assert_eq!(p, e);
}

#[test]
fn cast_and_as_row_agree_on_aliases() {
    let attrs = vec![attribute("nm", Some("name"), None), attribute("a", None, None), attribute("c", None, None)];
    let mut r = Record::from_entries(pairs(&[("nm", "n"), ("a", "1"), ("x", "9")]));
    r.cast(&schema(attrs.clone()));
    assert_eq!(r.as_row(&attrs), vec!["n".to_string(), "1".to_string(), "".to_string()]);
}

#[test]
fn records_without_checksum_do_not_count() {
    let mut with = Records::new();
    with.push(record(Some("0"), None));
    with.push(record(Some("1"), Some(A1)));
    with.push(record(None, None));
    let mut without = Records::new();
    without.push(record(Some("1"), Some(A1)));
    assert_eq!(with.checksum(), without.checksum());
    assert_eq!(with.checksum(), LIST_A1.to_string());
}
