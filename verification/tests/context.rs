use regurgitate::context::{Attribute, Context, Organisation, Schema};

fn attribute(id: &str, alias: Option<&str>) -> Attribute {
    Attribute {
        id: id.to_string(),
        alias: alias.map(|a| a.to_string()),
        description: Some(format!("the {}", id)),
        datatype: "string".to_string(),
        format: None,
        required: id == "ref",
        separator: None,
    }
}

fn org(id: &str, name: &str) -> Organisation {
    Organisation { id: id.to_string(), name: name.to_string() }
}

fn context() -> Context {
    Context {
        origin: "https://example.org".to_string(),
        id: "schools".to_string(),
        name: "Schools".to_string(),
        description: "All schools".to_string(),
        organisation: org("acme", "Acme Ltd"),
        owner: org("owner", "Owner Inc"),
        copyright_holder: org("holder", "Holder plc"),
        schema: Schema {
            primary_key: vec!["ref".to_string(), "name".to_string()],
            attributes: vec![attribute("ref", None), attribute("nm", Some("name")), attribute("ref", Some("other"))],
        },
        publication_date: "2018-01-01".to_string(),
        license: "OGL".to_string(),
    }
}

#[test]
fn context_getters_give_fields() {
    let c = context();
    assert_eq!(c.id(), "schools");
    assert_eq!(c.name(), "Schools");
    assert_eq!(c.description(), "All schools");
    assert_eq!(c.organisation().id(), "acme");
    assert_eq!(c.org_id(), "acme");
    assert_eq!(c.owner().name(), "Owner Inc");
    assert_eq!(c.copyright_holder().name(), "Holder plc");
    assert_eq!(c.origin(), "https://example.org");
    assert_eq!(c.schema().attributes().len(), 3);
    assert_eq!(c.schema_attributes().len(), 3);
    assert_eq!(c.publication_date(), "2018-01-01");
    assert_eq!(c.license(), "OGL");
}

#[test]
fn primary_key_is_its_first_column() {
    assert_eq!(context().schema().primary_key(), "ref");
}

#[test]
fn attribute_is_found_by_its_own_id_first_match() {
    let c = context();
    let schema = c.schema();
    let found = schema.attribute("ref").unwrap();
    assert_eq!(found.alias(), &None);
    assert!(found.required());
    assert_eq!(schema.attribute("nm").unwrap().datatype(), "string");
    // an alias is not an id
    assert!(schema.attribute("name").is_none());
    assert!(schema.attribute("missing").is_none());
}

#[test]
fn attribute_id_is_alias_where_there_is_one() {
    let a = attribute("nm", Some("name"));
    assert_eq!(a.id(), "name");
    assert_eq!(a.alias(), &Some("name".to_string()));
    assert_eq!(a.description(), &Some("the nm".to_string()));
    assert_eq!(a.format(), &None);
    assert_eq!(a.separator(), &None);
    assert!(!a.required());
    assert_eq!(attribute("ref", None).id(), "ref");
}
