//! A remote storage: the records of a dataset read from its origin, page by
//! page, and the rows written from them.
use vstd::prelude::*;

use crate::context::Context;
use crate::dataset::{cast_cells, is_dataset_checksum, value_or_empty, Record, Records};
use crate::link_header::{link_url, Link, LinkView};

verus! {

/// A remote storage: the context of a dataset and the records read so far.
pub struct Remote {
    context: Context,
    records: Records,
}

/// The index of the first link to a next page.
pub open spec fn first_next(links: Seq<LinkView>) -> Option<int>
    decreases links.len(),
{
    if links.len() == 0 {
        None
    } else if links[0] is Next {
        Some(0)
    } else {
        match first_next(links.drop_first()) {
            Some(i) => Some(i + 1),
            None => None,
        }
    }
}

proof fn lemma_first_next(links: Seq<LinkView>)
    ensures
        match first_next(links) {
            Some(i) => 0 <= i < links.len() && links[i] is Next && forall|j: int|
                0 <= j < i ==> !(links[j] is Next),
            None => forall|j: int| 0 <= j < links.len() ==> !(links[j] is Next),
        },
    decreases links.len(),
{
    if links.len() > 0 {
        lemma_first_next(links.drop_first());
        if !(links[0] is Next) {
            assert forall|j: int| 0 < j < links.len() implies links[j] == links.drop_first()[j
                - 1] by {}
        }
    }
}

impl Remote {
    /// Well-formed: the records read are.
    pub closed spec fn wf(&self) -> bool {
        self.records.wf()
    }

    /// The context of the dataset.
    pub closed spec fn spec_context(&self) -> Context {
        self.context
    }

    /// The records read so far.
    pub closed spec fn spec_records(&self) -> Seq<Map<Seq<char>, Seq<char>>> {
        self.records@
    }

    /// A remote storage for the dataset of `context`, with no records read.
    pub fn new(context: Context) -> (r: Remote)
        ensures
            r.wf(),
            r.spec_context() == context,
            r.spec_records() == Seq::<Map<Seq<char>, Seq<char>>>::empty(),
    {
        Remote { context, records: Records::new() }
    }

    pub fn context(&self) -> (r: &Context)
        ensures
            *r == self.spec_context(),
    {
        &self.context
    }

    pub fn records(&self) -> (r: &Records)
        ensures
            r@ == self.spec_records(),
            self.wf() ==> r.wf(),
    {
        &self.records
    }

    /// The checksum of the records read: none where there are none, else the
    /// dataset checksum of the records.
    pub fn checksum(&self) -> (r: Option<String>)
        requires
            self.wf(),
        ensures
            self.spec_records().len() == 0 <==> r is None,
            r matches Some(c) ==> is_dataset_checksum(self.spec_records(), c@),
    {
        if self.records.len() == 0 {
            None
        } else {
            Some(self.records.checksum())
        }
    }

    /// Takes the records of a page, in order: casts each with the context's
    /// schema and appends it.
    pub fn take_records(&mut self, page: Vec<Record>)
        requires
            old(self).wf(),
            forall|i: int| 0 <= i < page@.len() ==> #[trigger] page@[i].wf(),
        ensures
            final(self).wf(),
            final(self).spec_context() == old(self).spec_context(),
            final(self).spec_records() == old(self).spec_records() + Seq::new(
                page@.len(),
                |i: int| cast_cells(page@[i].entries(), old(self).spec_context().schema.attributes@),
            ),
    {
        let ghost start = self.records@;
        let ghost attributes = self.context.schema.attributes@;
        let ghost all = page@;
        let mut rest = page;
        let ghost mut i: int = 0;
        assert(all.skip(0) =~= all);
        assert(start + Seq::new(0, |k: int| cast_cells(all[k].entries(), attributes)) =~= start);
        while rest.len() > 0
            invariant
                0 <= i <= all.len(),
                rest@ == all.skip(i),
                forall|k: int| 0 <= k < all.len() ==> #[trigger] all[k].wf(),
                self.wf(),
                self.context == old(self).context,
                attributes == self.context.schema.attributes@,
                self.records@ == start + Seq::new(
                    i as nat,
                    |k: int| cast_cells(all[k].entries(), attributes),
                ),
            decreases rest.len(),
        {
            let ghost rv = rest@;
            assert(rv[0] == all[i]);
            let mut record = rest.remove(0);
            assert(rest@ =~= all.skip(i + 1));
            record.cast(&self.context.schema);
            self.records.push(record);
            proof {
                assert(self.records@ =~= start + Seq::new(
                    (i + 1) as nat,
                    |k: int| cast_cells(all[k].entries(), attributes),
                ));
                i = i + 1;
            }
        }
    }

    /// The url of the first link to a next page.
    pub fn next_link(links: &Vec<Link>) -> (r: Option<String>)
        ensures
            match first_next(crate::link_header::link_views(links@)) {
                Some(i) => r matches Some(url) && url@ == link_url(links@[i]@),
                None => r is None,
            },
    {
        let ghost lv = crate::link_header::link_views(links@);
        proof {
            lemma_first_next(lv);
        }
        let mut i: usize = 0;
        while i < links.len()
            invariant
                lv == crate::link_header::link_views(links@),
                i <= links.len(),
                forall|j: int| 0 <= j < i ==> !(lv[j] is Next),
                match first_next(lv) {
                    Some(k) => 0 <= k < lv.len() && lv[k] is Next && forall|j: int|
                        0 <= j < k ==> !(lv[j] is Next),
                    None => forall|j: int| 0 <= j < lv.len() ==> !(lv[j] is Next),
                },
            decreases links.len() - i,
        {
            if links[i].is_next() {
                assert(lv[i as int] == links@[i as int]@);
                assert(first_next(lv) == Some(i as int));
                return Some(String::from_str(links[i].to_str()));
            }
            i = i + 1;
        }
        None
    }

    /// The rows to write: the published ids of the schema's attributes, then
    /// each record's values of those attributes, in order.
    pub fn rows(&self) -> (r: Vec<Vec<String>>)
        requires
            self.wf(),
        ensures
            r.len() == self.spec_records().len() + 1,
            r@[0].len() == self.spec_context().schema.attributes.len(),
            forall|j: int|
                0 <= j < r@[0].len() ==> #[trigger] r@[0]@[j]@
                    == self.spec_context().schema.attributes@[j].published_id(),
            forall|i: int, j: int|
                1 <= i < r.len() && 0 <= j < r@[i].len() ==> #[trigger] r@[i]@[j]@ == value_or_empty(
                    self.spec_records()[i - 1],
                    self.spec_context().schema.attributes@[j].published_id(),
                ),
            forall|i: int|
                1 <= i < r.len() ==> #[trigger] r@[i].len()
                    == self.spec_context().schema.attributes.len(),
    {
        let attributes = self.context.schema_attributes();
        let mut header: Vec<String> = Vec::new();
        let mut j: usize = 0;
        while j < attributes.len()
            invariant
                attributes@ == self.context.schema.attributes@,
                j <= attributes@.len(),
                header.len() == j,
                forall|k: int|
                    0 <= k < j ==> #[trigger] header@[k]@ == attributes@[k].published_id(),
            decreases attributes@.len() - j,
        {
            header.push(String::from_str(attributes[j].id()));
            j = j + 1;
        }
        let mut rows: Vec<Vec<String>> = Vec::new();
        rows.push(header);
        let records = self.records.as_slice();
        let mut i: usize = 0;
        while i < records.len()
            invariant
                self.wf(),
                attributes@ == self.context.schema.attributes@,
                crate::dataset::record_views(records@) == self.records@,
                forall|k: int| 0 <= k < records@.len() ==> #[trigger] records@[k].wf(),
                i <= records@.len(),
                rows.len() == i + 1,
                rows@[0].len() == attributes@.len(),
                forall|k: int|
                    0 <= k < rows@[0].len() ==> #[trigger] rows@[0]@[k]@
                        == attributes@[k].published_id(),
                forall|p: int, k: int|
                    1 <= p < rows.len() && 0 <= k < rows@[p].len() ==> #[trigger] rows@[p]@[k]@
                        == value_or_empty(self.records@[p - 1], attributes@[k].published_id()),
                forall|p: int| 1 <= p < rows.len() ==> #[trigger] rows@[p].len() == attributes@.len(),
            decreases records@.len() - i,
        {
            assert(records@[i as int]@ == self.records@[i as int]);
            let row = records[i].as_row(attributes);
            rows.push(row);
            i = i + 1;
        }
        rows
    }
}

/// Fetching a records page failed.
#[derive(Debug)]
pub struct FetchError;

impl FetchError {
    /// What went wrong.
    pub fn message(&self) -> (r: String)
        ensures
            r@ == "Unexpected error while fetching a records page"@,
    {
        String::from_str("Unexpected error while fetching a records page")
    }
}

} // verus!
