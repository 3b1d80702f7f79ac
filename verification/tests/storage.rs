use regurgitate::storage::{FetchError, Record, Records};
use regurgitate::table::{Column, Schema};

fn pairs(items: &[(&str, &str)]) -> Vec<(String, String)> {
    items.iter().map(|(k, v)| (k.to_string(), v.to_string())).collect()
}

fn column(name: &str, separator: Option<char>) -> Column {
    Column {
        name: Some(name.to_string()),
        titles: Some(name.to_string()),
        description: None,
        datatype: Some("string".to_string()),
        separator,
        format: None,
        required: false,
    }
}

fn schema(columns: Vec<Column>) -> Schema {
    Schema { about_url: "u".to_string(), columns, primary_key: "id".to_string() }
}

const A1: &str = "1620a34f6a5022aab78a2ed1661e3cc59222c23e6c1c0dcbbbcf9ee3394ec8552efb";
const A1_BXY: &str = "16208a9cdab57c46cf82328add71093094f1e9881c0b6962d913b51729c1595a810d";

#[test]
fn checksum_is_blot_dictionary_of_cells() {
    let s = schema(vec![column("a", None), column("b", Some(';'))]);
    let r = Record::from_entries(pairs(&[("a", "1")]));
    assert_eq!(r.checksum(&s), A1.to_string());
    let r = Record::from_entries(pairs(&[("b", "y;x"), ("a", "1"), ("c", "")]));
    assert_eq!(r.checksum(&schema(vec![column("a", None), column("b", Some(';')), column("c", None)])), A1_BXY.to_string());
}

#[test]
fn retain_keeps_schema_columns_and_adds_id_and_checksum() {
    let s = schema(vec![column("id", None), column("a", None)]);
    let mut r = Record::from_entries(pairs(&[("key", "k1"), ("a", "1"), ("junk", "z")]));
    r.retain(&s);
    let mut cells = r.to_entries();
    cells.sort();
    let expected_checksum = Record::from_entries(pairs(&[("id", "k1"), ("a", "1")])).checksum(&s);
    assert_eq!(cells, pairs(&[("a", "1"), ("checksum", &expected_checksum), ("id", "k1")]));
}

#[test]
fn retain_without_id_column_drops_id() {
    let s = schema(vec![column("a", None)]);
    let mut r = Record::from_entries(pairs(&[("key", "k1"), ("a", "1")]));
    r.retain(&s);
    let mut cells = r.to_entries();
    cells.sort();
    assert_eq!(cells, pairs(&[("a", "1"), ("checksum", A1)]));
}

#[test]
fn records_extend_appends() {
    let mut rs = Records::new();
    assert_eq!(rs.len(), 0);
    rs.extend(Records::new());
    assert_eq!(rs.len(), 0);
    let two = Records::from_records(vec![
        Record::from_entries(pairs(&[("key", "1")])),
        Record::from_entries(pairs(&[("key", "2")])),
    ]);
    rs.extend(two);
    assert_eq!(rs.len(), 2);
    rs.extend(Records::from_records(vec![Record::from_entries(vec![])]));
    assert_eq!(rs.len(), 3);
}

#[test]
fn storage_fetch_error_message() {
    assert_eq!(FetchError.message(), "Unexpected error while fetching a records page".to_string());
}

#[test]
fn checksum_ignores_cell_order() {
    let s = schema(vec![column("a", None), column("b", Some(';'))]);
    let one = Record::from_entries(pairs(&[("a", "1"), ("b", "x;y")]));
    let two = Record::from_entries(pairs(&[("b", "x;x;y"), ("a", "1")]));
    assert_eq!(one.checksum(&s), A1_BXY.to_string());
    assert_eq!(two.checksum(&s), A1_BXY.to_string());
}

#[test]
fn checksum_ignores_many_empty_cells_and_reads_sets() {
    let s = schema(vec![column("a", None), column("b", Some(';')), column("c", None), column("d", None)]);
    let one = Record::from_entries(pairs(&[("a", "1"), ("b", "x;y")]));
    let two = Record::from_entries(pairs(&[("c", ""), ("b", "y;x;x"), ("d", ""), ("a", "1")]));
    assert_eq!(one.checksum(&s), two.checksum(&s));
    assert_eq!(two.checksum(&s), A1_BXY.to_string());
}
