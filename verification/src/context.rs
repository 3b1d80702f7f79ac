//! The local context describing what to expect from a data source.
//!
//! The context schema is the base to derive the CSVW metadata file.
use vstd::prelude::*;

use crate::text::same_text;

verus! {

/// The local context describing what to expect from a data source.
#[derive(Debug, Clone)]
pub struct Context {
    pub origin: String,
    pub id: String,
    pub name: String,
    pub description: String,
    pub organisation: Organisation,
    pub owner: Organisation,
    pub copyright_holder: Organisation,
    pub schema: Schema,
    pub publication_date: String,
    pub license: String,
}

impl Context {
    pub fn id(&self) -> (r: &str)
        ensures
            r@ == self.id@,
    {
        self.id.as_str()
    }

    pub fn name(&self) -> (r: &str)
        ensures
            r@ == self.name@,
    {
        self.name.as_str()
    }

    pub fn description(&self) -> (r: &str)
        ensures
            r@ == self.description@,
    {
        self.description.as_str()
    }

    pub fn organisation(&self) -> (r: &Organisation)
        ensures
            *r == self.organisation,
    {
        &self.organisation
    }

    /// The id of the organisation that publishes the dataset.
    pub fn org_id(&self) -> (r: &str)
        ensures
            r@ == self.organisation.id@,
    {
        self.organisation.id.as_str()
    }

    pub fn owner(&self) -> (r: &Organisation)
        ensures
            *r == self.owner,
    {
        &self.owner
    }

    pub fn copyright_holder(&self) -> (r: &Organisation)
        ensures
            *r == self.copyright_holder,
    {
        &self.copyright_holder
    }

    pub fn origin(&self) -> (r: &str)
        ensures
            r@ == self.origin@,
    {
        self.origin.as_str()
    }

    pub fn schema(&self) -> (r: &Schema)
        ensures
            *r == self.schema,
    {
        &self.schema
    }

    pub fn schema_attributes(&self) -> (r: &[Attribute])
        ensures
            r@ == self.schema.attributes@,
    {
        self.schema.attributes()
    }

    pub fn publication_date(&self) -> (r: &str)
        ensures
            r@ == self.publication_date@,
    {
        self.publication_date.as_str()
    }

    pub fn license(&self) -> (r: &str)
        ensures
            r@ == self.license@,
    {
        self.license.as_str()
    }
}

#[derive(Debug, Clone)]
pub struct Organisation {
    pub id: String,
    pub name: String,
}

impl Organisation {
    pub fn id(&self) -> (r: &str)
        ensures
            r@ == self.id@,
    {
        self.id.as_str()
    }

    pub fn name(&self) -> (r: &str)
        ensures
            r@ == self.name@,
    {
        self.name.as_str()
    }
}

#[derive(Debug, Clone)]
pub struct Schema {
    pub primary_key: Vec<String>,
    pub attributes: Vec<Attribute>,
}

/// The index of the first attribute whose own id (not its alias) is `key`.
pub open spec fn first_attribute(attributes: Seq<Attribute>, key: Seq<char>) -> Option<int>
    decreases attributes.len(),
{
    if attributes.len() == 0 {
        None
    } else if attributes[0].id@ == key {
        Some(0)
    } else {
        match first_attribute(attributes.drop_first(), key) {
            Some(i) => Some(i + 1),
            None => None,
        }
    }
}

pub proof fn lemma_first_attribute(attributes: Seq<Attribute>, key: Seq<char>)
    ensures
        match first_attribute(attributes, key) {
            Some(i) => 0 <= i < attributes.len() && attributes[i].id@ == key && forall|j: int|
                0 <= j < i ==> attributes[j].id@ != key,
            None => forall|j: int| 0 <= j < attributes.len() ==> attributes[j].id@ != key,
        },
    decreases attributes.len(),
{
    if attributes.len() > 0 {
        lemma_first_attribute(attributes.drop_first(), key);
        if attributes[0].id@ != key {
            assert forall|j: int| 0 < j < attributes.len() implies attributes[j]
                == attributes.drop_first()[j - 1] by {}
        }
    }
}

impl Schema {
    /// The first attribute whose id is `key`.
    pub fn attribute<'a>(&'a self, key: &str) -> (r: Option<&'a Attribute>)
        ensures
            match first_attribute(self.attributes@, key@) {
                Some(i) => r == Some(&self.attributes@[i]),
                None => r is None,
            },
    {
        proof {
            lemma_first_attribute(self.attributes@, key@);
        }
        let mut i: usize = 0;
        while i < self.attributes.len()
            invariant
                i <= self.attributes.len(),
                forall|j: int| 0 <= j < i ==> self.attributes@[j].id@ != key@,
                match first_attribute(self.attributes@, key@) {
                    Some(k) => 0 <= k < self.attributes.len() && self.attributes@[k].id@ == key@
                        && forall|j: int| 0 <= j < k ==> self.attributes@[j].id@ != key@,
                    None => forall|j: int|
                        0 <= j < self.attributes.len() ==> self.attributes@[j].id@ != key@,
                },
            decreases self.attributes.len() - i,
        {
            if same_text(self.attributes[i].id.as_str(), key) {
                return Some(&self.attributes[i]);
            }
            i = i + 1;
        }
        None
    }

    pub fn attributes(&self) -> (r: &[Attribute])
        ensures
            r@ == self.attributes@,
    {
        self.attributes.as_slice()
    }

    /// The first column of the primary key.
    pub fn primary_key(&self) -> (r: &str)
        requires
            self.primary_key.len() > 0,
        ensures
            r@ == self.primary_key@[0]@,
    {
        self.primary_key[0].as_str()
    }
}

#[derive(Debug, Clone)]
pub struct Attribute {
    pub id: String,
    pub alias: Option<String>,
    pub description: Option<String>,
    pub datatype: String,
    pub format: Option<String>,
    pub required: bool,
    pub separator: Option<char>,
}

impl Attribute {
    /// The name under which the attribute is published: its alias where it
    /// has one, else its id.
    pub open spec fn published_id(&self) -> Seq<char> {
        match self.alias {
            Some(alias) => alias@,
            None => self.id@,
        }
    }

    pub fn id(&self) -> (r: &str)
        ensures
            r@ == self.published_id(),
    {
        match &self.alias {
            Some(alias) => alias.as_str(),
            None => self.id.as_str(),
        }
    }

    pub fn alias(&self) -> (r: &Option<String>)
        ensures
            *r == self.alias,
    {
        &self.alias
    }

    pub fn description(&self) -> (r: &Option<String>)
        ensures
            *r == self.description,
    {
        &self.description
    }

    pub fn datatype(&self) -> (r: &str)
        ensures
            r@ == self.datatype@,
    {
        self.datatype.as_str()
    }

    pub fn format(&self) -> (r: &Option<String>)
        ensures
            *r == self.format,
    {
        &self.format
    }

    pub fn required(&self) -> (r: bool)
        ensures
            r == self.required,
    {
        self.required
    }

    pub fn separator(&self) -> (r: &Option<char>)
        ensures
            *r == self.separator,
    {
        &self.separator
    }
}

} // verus!
