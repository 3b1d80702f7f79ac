//! Naive implementation of CSVW tabular data model
//!
use vstd::prelude::*;

use crate::context::{Attribute, Context, Organisation};
use crate::dataset::Source;
use crate::text::{opt_text, same_text};

verus! {

/// The CSVW metadata of a dataset's table.
#[derive(Debug)]
pub struct Table {
    pub context: String,
    pub id: String,
    pub name: String,
    pub description: String,
    pub author: Author,
    pub date_published: String,
    pub url: String,
    pub source: String,
    pub copyright_holder: CopyrightHolder,
    pub license: String,
    pub schema: Schema,
}

/// The place of a snapshot: `/{organisation}/{dataset}/{checksum}.csv`, with
/// `partial` for a missing checksum.
pub open spec fn snapshot_url(org_id: Seq<char>, id: Seq<char>, checksum: Option<Seq<char>>) -> Seq<
    char,
> {
    "/"@ + org_id + "/"@ + id + "/"@ + match checksum {
        Some(c) => c,
        None => "partial"@,
    } + ".csv"@
}

/// The about URL of a dataset's rows: `{origin}/records/{{primary key}}`.
pub open spec fn about_url(origin: Seq<char>, primary_key: Seq<char>) -> Seq<char> {
    origin + "/records/{"@ + primary_key + "}"@
}

/// Whether `column` is the column that `attribute` becomes.
pub open spec fn column_of(attribute: Attribute, column: Column) -> bool {
    &&& opt_text(column.name) == Some(attribute.published_id())
    &&& opt_text(column.titles) == Some(attribute.published_id())
    &&& opt_text(column.description) == opt_text(attribute.description)
    &&& opt_text(column.datatype) == Some(attribute.datatype@)
    &&& column.separator == attribute.separator
    &&& opt_text(column.format) == opt_text(attribute.format)
    &&& column.required == attribute.required
}

/// Whether `schema` is the table schema of `context`.
pub open spec fn schema_of(context: Context, schema: Schema) -> bool {
    &&& schema.about_url@ == about_url(context.origin@, context.schema.primary_key@[0]@)
    &&& schema.columns.len() == context.schema.attributes.len()
    &&& forall|i: int|
        0 <= i < schema.columns.len() ==> column_of(
            context.schema.attributes@[i],
            #[trigger] schema.columns@[i],
        )
    &&& schema.primary_key@ == context.schema.primary_key@[0]@
}

/// Whether `table` is the table of `context` whose data has checksum `checksum`.
pub open spec fn table_of(context: Context, checksum: Option<Seq<char>>, table: Table) -> bool {
    &&& table.context@ == "http://www.w3.org/ns/csvw"@
    &&& table.id@ == context.id@
    &&& table.name@ == context.name@
    &&& table.description@ == context.description@
    &&& table.author.name@ == context.owner.name@
    &&& table.date_published@ == context.publication_date@
    &&& table.url@ == snapshot_url(context.organisation.id@, context.id@, checksum)
    &&& table.source@ == context.origin@
    &&& table.copyright_holder.name@ == context.copyright_holder.name@
    &&& table.license@ == context.license@
    &&& schema_of(context, table.schema)
}

fn copy_text(s: &String) -> (r: String)
    ensures
        r@ == s@,
{
    s.clone()
}

fn copy_opt_text(s: &Option<String>) -> (r: Option<String>)
    ensures
        opt_text(r) == opt_text(*s),
{
    match s {
        Some(t) => Some(t.clone()),
        None => None,
    }
}

impl Table {
    pub fn source(&self) -> (r: &str)
        ensures
            r@ == self.source@,
    {
        self.source.as_str()
    }

    pub fn schema(&self) -> (r: &Schema)
        ensures
            *r == self.schema,
    {
        &self.schema
    }

    /// The table of a dataset with this context whose data has this checksum.
    pub fn from_context(context: &Context, checksum: Option<String>) -> (r: Table)
        requires
            context.schema.primary_key.len() > 0,
        ensures
            table_of(*context, opt_text(checksum), r),
    {
        let mut url = String::from_str("/");
        url.append(context.org_id());
        url.append("/");
        url.append(context.id());
        url.append("/");
        match &checksum {
            Some(c) => url.append(c.as_str()),
            None => url.append("partial"),
        }
        url.append(".csv");
        Table {
            context: String::from_str("http://www.w3.org/ns/csvw"),
            id: copy_text(&context.id),
            name: copy_text(&context.name),
            description: copy_text(&context.description),
            author: Author::from_organisation(context.owner()),
            date_published: copy_text(&context.publication_date),
            url,
            source: copy_text(&context.origin),
            copyright_holder: CopyrightHolder { name: copy_text(&context.copyright_holder.name) },
            license: copy_text(&context.license),
            schema: Schema::from_context(context),
        }
    }

    /// The table of a source: of its context and its data's checksum; none
    /// where the source's context names no primary key.
    pub fn from_source<T: Source>(source: &T) -> (r: Option<Table>)
        ensures
            r is None <==> source.spec_context().schema.primary_key.len() == 0,
            r matches Some(t) ==> table_of(
                source.spec_context(),
                opt_text(source.spec_checksum()),
                t,
            ),
    {
        let context = source.context();
        if context.schema.primary_key.len() == 0 {
            return None;
        }
        let checksum = source.checksum();
        let ghost cs = opt_text(checksum);
        let ghost c = *context;
        let table = Table::from_context(context, checksum);
        assert(c.schema.primary_key.len() > 0 && table_of(c, cs, table));
        Some(table)
    }
}

/// A column of a table schema.
#[derive(Debug, Clone)]
pub struct Column {
    pub name: Option<String>,
    pub titles: Option<String>,
    pub description: Option<String>,
    pub datatype: Option<String>,
    pub separator: Option<char>,
    pub format: Option<String>,
    pub required: bool,
}

impl Column {
    pub fn separator(&self) -> (r: &Option<char>)
        ensures
            *r == self.separator,
    {
        &self.separator
    }

    /// The column that an attribute becomes: named and titled by the
    /// attribute's published id.
    pub fn from_attribute(attr: &Attribute) -> (r: Column)
        ensures
            column_of(*attr, r),
    {
        Column {
            name: Some(String::from_str(attr.id())),
            titles: Some(String::from_str(attr.id())),
            description: copy_opt_text(attr.description()),
            datatype: Some(String::from_str(attr.datatype())),
            separator: attr.separator,
            format: copy_opt_text(attr.format()),
            required: attr.required(),
        }
    }
}

/// The index of the first column named `column_id`.
pub open spec fn first_column(columns: Seq<Column>, column_id: Seq<char>) -> Option<int>
    decreases columns.len(),
{
    if columns.len() == 0 {
        None
    } else if opt_text(columns[0].name) == Some(column_id) {
        Some(0)
    } else {
        match first_column(columns.drop_first(), column_id) {
            Some(i) => Some(i + 1),
            None => None,
        }
    }
}

pub proof fn lemma_first_column(columns: Seq<Column>, column_id: Seq<char>)
    ensures
        match first_column(columns, column_id) {
            Some(i) => 0 <= i < columns.len() && opt_text(columns[i].name) == Some(column_id)
                && forall|j: int|
                0 <= j < i ==> opt_text(columns[j].name) != Some(column_id),
            None => forall|j: int|
                0 <= j < columns.len() ==> opt_text(columns[j].name) != Some(column_id),
        },
    decreases columns.len(),
{
    if columns.len() > 0 {
        lemma_first_column(columns.drop_first(), column_id);
        if opt_text(columns[0].name) != Some(column_id) {
            assert forall|j: int| 0 < j < columns.len() implies columns[j]
                == columns.drop_first()[j - 1] by {}
        }
    }
}

/// A table schema.
#[derive(Debug, Clone)]
pub struct Schema {
    pub about_url: String,
    pub columns: Vec<Column>,
    pub primary_key: String,
}

impl Schema {
    fn named(column: &Column, column_id: &str) -> (r: bool)
        ensures
            r == (opt_text(column.name) == Some(column_id@)),
    {
        match &column.name {
            Some(name) => same_text(name.as_str(), column_id),
            None => false,
        }
    }

    /// Whether a column is named `column_id`.
    pub fn contains_column(&self, column_id: &str) -> (r: bool)
        ensures
            r == exists|i: int|
                0 <= i < self.columns.len() && opt_text(#[trigger] self.columns@[i].name) == Some(
                    column_id@,
                ),
    {
        proof {
            lemma_first_column(self.columns@, column_id@);
        }
        match self.column(column_id) {
            Some(_) => true,
            None => false,
        }
    }

    /// The first column named `column_id`.
    pub fn column<'a>(&'a self, column_id: &str) -> (r: Option<&'a Column>)
        ensures
            match first_column(self.columns@, column_id@) {
                Some(i) => r == Some(&self.columns@[i]),
                None => r is None,
            },
    {
        proof {
            lemma_first_column(self.columns@, column_id@);
        }
        let mut i: usize = 0;
        while i < self.columns.len()
            invariant
                i <= self.columns.len(),
                forall|j: int|
                    0 <= j < i ==> opt_text(self.columns@[j].name) != Some(column_id@),
                match first_column(self.columns@, column_id@) {
                    Some(k) => 0 <= k < self.columns.len() && opt_text(self.columns@[k].name)
                        == Some(column_id@) && forall|j: int|
                        0 <= j < k ==> opt_text(self.columns@[j].name) != Some(column_id@),
                    None => forall|j: int|
                        0 <= j < self.columns.len() ==> opt_text(self.columns@[j].name) != Some(
                            column_id@,
                        ),
                },
            decreases self.columns.len() - i,
        {
            if Schema::named(&self.columns[i], column_id) {
                return Some(&self.columns[i]);
            }
            i = i + 1;
        }
        None
    }

    /// The table schema of a context: one column per attribute, rows about
    /// `{origin}/records/{{primary key}}`.
    pub fn from_context(context: &Context) -> (r: Schema)
        requires
            context.schema.primary_key.len() > 0,
        ensures
            schema_of(*context, r),
    {
        let schema = context.schema();
        let mut about = String::from_str(context.origin());
        about.append("/records/{");
        about.append(schema.primary_key());
        about.append("}");
        let attributes = schema.attributes();
        let mut columns: Vec<Column> = Vec::new();
        let mut i: usize = 0;
        while i < attributes.len()
            invariant
                attributes@ == context.schema.attributes@,
                i <= attributes@.len(),
                columns.len() == i,
                forall|j: int| 0 <= j < i ==> column_of(attributes@[j], #[trigger] columns@[j]),
            decreases attributes@.len() - i,
        {
            columns.push(Column::from_attribute(&attributes[i]));
            i = i + 1;
        }
        Schema { about_url: about, columns, primary_key: String::from_str(schema.primary_key()) }
    }
}

/// The author of a table.
#[derive(Debug)]
pub struct Author {
    pub name: String,
}

impl Author {
    /// The author that an organisation is: by its name.
    pub fn from_organisation(org: &Organisation) -> (r: Author)
        ensures
            r.name@ == org.name@,
    {
        Author { name: String::from_str(org.name()) }
    }
}

/// The copyright holder of a table.
#[derive(Debug)]
pub struct CopyrightHolder {
    pub name: String,
}

} // verus!
