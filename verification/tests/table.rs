use regurgitate::context::{Attribute, Context, Organisation, Schema as ContextSchema};
use regurgitate::table::{Author, Column, Table};
use regurgitate::Source;

fn org(id: &str, name: &str) -> Organisation {
    Organisation { id: id.to_string(), name: name.to_string() }
}

fn attribute(id: &str, alias: Option<&str>, separator: Option<char>) -> Attribute {
    Attribute {
        id: id.to_string(),
        alias: alias.map(|a| a.to_string()),
        description: Some("d".to_string()),
        datatype: "string".to_string(),
        format: Some("f".to_string()),
        required: true,
        separator,
    }
}

fn context(primary_key: Vec<String>) -> Context {
    Context {
        origin: "https://example.org".to_string(),
        id: "schools".to_string(),
        name: "Schools".to_string(),
        description: "All schools".to_string(),
        organisation: org("acme", "Acme Ltd"),
        owner: org("owner", "Owner Inc"),
        copyright_holder: org("holder", "Holder plc"),
        schema: ContextSchema {
            primary_key,
            attributes: vec![attribute("ref", None, None), attribute("nm", Some("name"), Some(';'))],
        },
        publication_date: "2018-01-01".to_string(),
        license: "OGL".to_string(),
    }
}

#[test]
fn table_of_context_with_checksum() {
    let t = Table::from_context(&context(vec!["ref".to_string()]), Some("1620ab".to_string()));
    assert_eq!(t.context, "http://www.w3.org/ns/csvw");
    assert_eq!(t.id, "schools");
    assert_eq!(t.name, "Schools");
    assert_eq!(t.description, "All schools");
    assert_eq!(t.author.name, "Owner Inc");
    assert_eq!(t.date_published, "2018-01-01");
    assert_eq!(t.url, "/acme/schools/1620ab.csv");
    assert_eq!(t.source(), "https://example.org");
    assert_eq!(t.copyright_holder.name, "Holder plc");
    assert_eq!(t.license, "OGL");
}

#[test]
fn table_without_checksum_is_partial() {
    let t = Table::from_context(&context(vec!["ref".to_string()]), None);
    assert_eq!(t.url, "/acme/schools/partial.csv");
}

#[test]
fn table_schema_has_a_column_per_attribute() {
    let t = Table::from_context(&context(vec!["ref".to_string(), "x".to_string()]), None);
    let s = t.schema();
    assert_eq!(s.about_url, "https://example.org/records/{ref}");
    assert_eq!(s.primary_key, "ref");
    assert_eq!(s.columns.len(), 2);
    assert!(s.contains_column("ref"));
    assert!(s.contains_column("name"));
    assert!(!s.contains_column("nm"));
    let name = s.column("name").unwrap();
    assert_eq!(name.titles, Some("name".to_string()));
    assert_eq!(name.separator(), &Some(';'));
    assert_eq!(name.datatype, Some("string".to_string()));
    assert_eq!(name.description, Some("d".to_string()));
    assert_eq!(name.format, Some("f".to_string()));
    assert!(name.required);
    assert!(s.column("nm").is_none());
}

#[test]
fn column_of_attribute_is_named_by_published_id() {
    let c = Column::from_attribute(&attribute("nm", Some("name"), None));
    assert_eq!(c.name, Some("name".to_string()));
    assert_eq!(c.separator(), &None);
    assert_eq!(Author::from_organisation(&org("o", "Org")).name, "Org");
}

struct Fixed {
    context: Context,
    checksum: Option<String>,
}

impl Source for Fixed {
    fn spec_context(&self) -> Context {
        self.context.clone()
    }
    fn spec_checksum(&self) -> Option<String> {
        self.checksum.clone()
    }
    fn read(&mut self) -> Result<(), String> {
        Ok(())
    }
    fn context(&self) -> &Context {
        &self.context
    }
    fn checksum(&self) -> Option<String> {
        self.checksum.clone()
    }
}

#[test]
fn table_of_source_uses_its_checksum() {
    let source = Fixed { context: context(vec!["ref".to_string()]), checksum: Some("abc".to_string()) };
    let t = Table::from_source(&source).unwrap();
    assert_eq!(t.url, "/acme/schools/abc.csv");
    let partial = Fixed { context: context(vec!["ref".to_string()]), checksum: None };
    assert_eq!(Table::from_source(&partial).unwrap().url, "/acme/schools/partial.csv");
}

#[test]
fn table_of_source_without_primary_key_is_none() {
    let source = Fixed { context: context(vec![]), checksum: None };
    assert!(Table::from_source(&source).is_none());
}
