//! The records of a dataset, their order and their checksums.
use vstd::prelude::*;
use vstd::relations::sorted_by;

use crate::cells::{
    collect_hashes, entries_map, entry_views, keyed_hash, lemma_collect_hashes_replace,
    lemma_collect_hashes_same_hashes, lemma_collect_hashes_same_map, lemma_entries_map_lookup,
    unique_keys, Cells,
};
use crate::context::{first_attribute, lemma_first_attribute, Attribute, Context, Schema};
use crate::digest::{
    blot_text, blot_text_set, byte_views, dict_digest, digest_dict, list_blot, multihash_text,
    render_list_digest, render_multihash, set_blot, unicode_blot,
};
use crate::order::{
    optional_text_le, optional_text_le_exec, lemma_optional_text_le, lemma_optional_text_le_order,
    lemma_sorted_bytes_same_multiset, lemma_sorted_bytes_unique, sort_byte_strings, sorted_bytes,
};
use crate::text::{opt_text, split, split_on, views};

verus! {

/// A data source should implement this trait.
pub trait Source {
    /// The context of the source, as contracts speak of it.
    spec fn spec_context(&self) -> Context;

    /// Reads the data; the error is a message.
    fn read(&mut self) -> Result<(), String>;

    /// The context defining the dataset to be read.
    fn context(&self) -> (r: &Context)
        ensures
            *r == self.spec_context(),
    ;

    /// The data checksum, as contracts speak of it.
    spec fn spec_checksum(&self) -> Option<String>;

    /// The data checksum. None if there is no data.
    fn checksum(&self) -> (r: Option<String>)
        ensures
            opt_text(r) == opt_text(self.spec_checksum()),
    ;
}

/// A data storage should implement this trait.
pub trait Storage: Source {
    /// Writes the data under the directory `path`; the error is a message.
    fn write(&mut self, path: String) -> Result<(), String>;
}

/// The value of `key` in `cells`, if it has one.
pub open spec fn lookup(cells: Map<Seq<char>, Seq<char>>, key: Seq<char>) -> Option<Seq<char>> {
    if cells.contains_key(key) {
        Some(cells[key])
    } else {
        None
    }
}

/// The id of a record: its `_id` cell.
pub open spec fn record_id(cells: Map<Seq<char>, Seq<char>>) -> Option<Seq<char>> {
    lookup(cells, "_id"@)
}

/// The checksum of a record: its `_checksum` cell.
pub open spec fn record_checksum(cells: Map<Seq<char>, Seq<char>>) -> Option<Seq<char>> {
    lookup(cells, "_checksum"@)
}

/// The name a cell takes when it is cast: the alias of the first attribute
/// whose id is the cell's key, or the key itself where that attribute has no
/// alias; none where no attribute has that id.
pub open spec fn cast_target(attributes: Seq<Attribute>, key: Seq<char>) -> Option<Seq<char>> {
    match first_attribute(attributes, key) {
        Some(i) => Some(
            match attributes[i].alias {
                Some(alias) => alias@,
                None => key,
            },
        ),
        None => None,
    }
}

/// The cells that casting keeps, renamed, in order.
pub open spec fn cast_entries(
    entries: Seq<(Seq<char>, Seq<char>)>,
    attributes: Seq<Attribute>,
) -> Seq<(Seq<char>, Seq<char>)>
    decreases entries.len(),
{
    if entries.len() == 0 {
        Seq::empty()
    } else {
        let before = cast_entries(entries.drop_last(), attributes);
        match cast_target(attributes, entries.last().0) {
            Some(target) => before.push((target, entries.last().1)),
            None => before,
        }
    }
}

/// The hash of one cell: the hash of its key followed by the hash of its
/// value, where a value with a separator counts as the set of its parts.
pub open spec fn leaf_hash(attribute: Attribute, key: Seq<char>, value: Seq<char>) -> Seq<u8> {
    unicode_blot(key) + match attribute.separator {
        Some(sep) => set_blot(split_on(value, sep).to_set()),
        None => unicode_blot(value),
    }
}

/// The hash of a cell that has an attribute and a value that is not empty.
pub open spec fn cast_hash(attributes: Seq<Attribute>) -> spec_fn(Seq<char>, Seq<char>) -> Option<
    Seq<u8>,
> {
    |key: Seq<char>, value: Seq<char>|
        match first_attribute(attributes, key) {
            Some(i) => if value.len() > 0 {
                Some(leaf_hash(attributes[i], key, value))
            } else {
                None
            },
            None => None,
        }
}

/// The hashes of the cells that have an attribute and a value that is not
/// empty, in order.
pub open spec fn cast_leaves(entries: Seq<(Seq<char>, Seq<char>)>, attributes: Seq<Attribute>) -> Seq<
    Seq<u8>,
> {
    collect_hashes(entries, cast_hash(attributes))
}

/// The checksum of cells with these hashes: the Blot dictionary digest of
/// the hashes in ascending order, written as a multihash.
pub open spec fn dict_checksum(leaves: Seq<Seq<u8>>) -> Seq<char> {
    multihash_text(dict_digest(sorted_bytes(leaves)))
}

/// The cells of a record after casting it with the attributes.
pub open spec fn cast_cells(
    entries: Seq<(Seq<char>, Seq<char>)>,
    attributes: Seq<Attribute>,
) -> Map<Seq<char>, Seq<char>> {
    entries_map(cast_entries(entries, attributes)).insert(
        "_checksum"@,
        dict_checksum(cast_leaves(entries, attributes)),
    )
}

/// The value of `key`, or the empty text.
pub open spec fn value_or_empty(cells: Map<Seq<char>, Seq<char>>, key: Seq<char>) -> Seq<char> {
    if cells.contains_key(key) {
        cells[key]
    } else {
        Seq::empty()
    }
}

/// A record: a map from column names to values.
pub struct Record(Cells);

impl View for Record {
    type V = Map<Seq<char>, Seq<char>>;

    closed spec fn view(&self) -> Map<Seq<char>, Seq<char>> {
        self.0@
    }
}

impl Record {
    /// The cells, in the order in which they are kept.
    pub closed spec fn entries(&self) -> Seq<(Seq<char>, Seq<char>)> {
        self.0.entries()
    }

    /// Well-formed: no column occurs twice.
    pub closed spec fn wf(&self) -> bool {
        self.0.wf()
    }

    /// The record whose cells `entries` set in order (a later cell of a
    /// column replaces an earlier one).
    pub fn from_entries(entries: Vec<(String, String)>) -> (r: Record)
        ensures
            r.wf(),
            r@ == entries_map(entry_views(entries@)),
    {
        Record(Cells::from_entries(entries))
    }

    /// The cells, in the order in which they are kept.
    pub fn to_entries(&self) -> (r: Vec<(String, String)>)
        ensures
            entry_views(r@) == self.entries(),
    {
        self.0.to_entries()
    }

    /// A copy of the record.
    pub fn duplicate(&self) -> (r: Record)
        ensures
            r.entries() == self.entries(),
            r@ == self@,
            r.wf() == self.wf(),
    {
        Record(self.0.duplicate())
    }

    /// The `_id` cell.
    pub fn id(&self) -> (r: Option<String>)
        requires
            self.wf(),
        ensures
            opt_text(r) == record_id(self@),
    {
        match self.0.get("_id") {
            Some(v) => Some(v.clone()),
            None => None,
        }
    }

    /// The `_checksum` cell.
    pub fn checksum(&self) -> (r: Option<String>)
        requires
            self.wf(),
        ensures
            opt_text(r) == record_checksum(self@),
    {
        match self.0.get("_checksum") {
            Some(v) => Some(v.clone()),
            None => None,
        }
    }

    /// The values of the given attributes (by their published ids), in order;
    /// the empty text where the record has no such cell.
    pub fn as_row(&self, attributes: &[Attribute]) -> (r: Vec<String>)
        requires
            self.wf(),
        ensures
            r.len() == attributes@.len(),
            forall|i: int|
                0 <= i < r.len() ==> #[trigger] r@[i]@ == value_or_empty(
                    self@,
                    attributes@[i].published_id(),
                ),
    {
        let mut result: Vec<String> = Vec::new();
        let mut i: usize = 0;
        while i < attributes.len()
            invariant
                self.wf(),
                i <= attributes@.len(),
                result.len() == i,
                forall|j: int|
                    0 <= j < i ==> #[trigger] result@[j]@ == value_or_empty(
                        self@,
                        attributes@[j].published_id(),
                    ),
            decreases attributes@.len() - i,
        {
            let key = attributes[i].id();
            match self.0.get(key) {
                Some(value) => result.push(value.clone()),
                None => result.push(String::new()),
            }
            i = i + 1;
        }
        result
    }

    /// Casts the record according to the given context schema: keeps the
    /// cells whose column is an attribute, under the attribute's published
    /// name, and adds the `_checksum` cell, the Blot dictionary hash of the
    /// kept cells that are not empty.
    pub fn cast(&mut self, schema: &Schema)
        requires
            old(self).wf(),
        ensures
            final(self).wf(),
            final(self)@ == cast_cells(old(self).entries(), schema.attributes@),
    {
        let ghost all = self.entries();
        let ghost attributes = schema.attributes@;
        let n = self.0.len();
        let mut result = Cells::new();
        let mut hashes: Vec<Vec<u8>> = Vec::new();
        let mut i: usize = 0;
        assert(all.take(0) =~= Seq::<(Seq<char>, Seq<char>)>::empty());
        assert(byte_views(hashes@) =~= Seq::<Seq<u8>>::empty());
        while i < n
            invariant
                self.wf(),
                all == self.entries(),
                attributes == schema.attributes@,
                n == all.len(),
                i <= n,
                result.wf(),
                result@ == entries_map(cast_entries(all.take(i as int), attributes)),
                byte_views(hashes@) == cast_leaves(all.take(i as int), attributes),
            decreases n - i,
        {
            let (key, value) = self.0.entry(i);
            let ghost prefix = all.take(i + 1);
            assert(prefix.drop_last() =~= all.take(i as int));
            assert(prefix.last() == (key@, value@));
            proof {
                lemma_first_attribute(attributes, key@);
            }
            match schema.attribute(key.as_str()) {
                Some(attribute) => {
                    let target = match &attribute.alias {
                        Some(alias) => alias.clone(),
                        None => key.clone(),
                    };
                    let ghost before = cast_entries(all.take(i as int), attributes);
                    result.insert(target, value.clone());
                    assert(before.push((target@, value@)).drop_last() =~= before);
                    if !value.as_str().is_empty() {
                        let mut leaf = blot_text(key.as_str());
                        let mut tail = match attribute.separator {
                            Some(sep) => {
                                let parts = split(value.as_str(), sep);
                                blot_text_set(&parts)
                            },
                            None => blot_text(value.as_str()),
                        };
                        let ghost before_hashes = byte_views(hashes@);
                        leaf.append(&mut tail);
                        let ghost lv = leaf@;
                        hashes.push(leaf);
                        assert(byte_views(hashes@) =~= before_hashes.push(lv));
                    }
                },
                None => {},
            }
            i = i + 1;
        }
        assert(all.take(n as int) =~= all);
        let sorted = sort_byte_strings(hashes);
        let digest = digest_dict(sorted);
        let text = render_multihash(digest);
        result.insert(String::from_str("_checksum"), text);
        self.0 = result;
    }
}

/// The views of records.
pub open spec fn record_views(records: Seq<Record>) -> Seq<Map<Seq<char>, Seq<char>>> {
    Seq::new(records.len(), |i: int| records[i]@)
}

/// Whether the records are in ascending order of id.
pub open spec fn ordered_by_id(records: Seq<Map<Seq<char>, Seq<char>>>) -> bool {
    forall|i: int, j: int|
        0 <= i < j < records.len() ==> optional_text_le(
            record_id(#[trigger] records[i]),
            record_id(#[trigger] records[j]),
        )
}

/// The checksums of the records that have one, in order.
pub open spec fn present_checksums(records: Seq<Map<Seq<char>, Seq<char>>>) -> Seq<Seq<char>>
    decreases records.len(),
{
    if records.len() == 0 {
        Seq::empty()
    } else {
        let before = present_checksums(records.drop_last());
        match record_checksum(records.last()) {
            Some(c) => before.push(c),
            None => before,
        }
    }
}

/// Law: every record that has a checksum counts, whatever its id: the
/// checksums that the dataset checksum is taken over are the checksums of
/// all the records that have one, in order.
pub proof fn law_present_checksums_are_all_checksums(records: Seq<Map<Seq<char>, Seq<char>>>)
    ensures
        present_checksums(records) == records.filter(
            |m: Map<Seq<char>, Seq<char>>| record_checksum(m) is Some,
        ).map_values(|m: Map<Seq<char>, Seq<char>>| record_checksum(m)->0),
    decreases records.len(),
{
    reveal(Seq::filter);
    if records.len() > 0 {
        let prev = records.drop_last();
        law_present_checksums_are_all_checksums(prev);
        let f = prev.filter(|m: Map<Seq<char>, Seq<char>>| record_checksum(m) is Some);
        let g = |m: Map<Seq<char>, Seq<char>>| record_checksum(m)->0;
        if record_checksum(records.last()) is Some {
            assert(f.push(records.last()).map_values(g) =~= f.map_values(g).push(
                g(records.last()),
            ));
        }
    }
}

/// Law: a dataset of one record that has a checksum has the list checksum of
/// that one checksum, whatever the record's id.
pub proof fn law_one_record_checksum(m: Map<Seq<char>, Seq<char>>, c: Seq<char>)
    requires
        record_checksum(m) is Some,
        is_dataset_checksum(seq![m], c),
    ensures
        c == multihash_text(list_blot(seq![record_checksum(m)->0])),
{
    broadcast use vstd::multiset::group_multiset_axioms;
    broadcast use vstd::seq_lib::group_to_multiset_ensures;

    let sorted = choose|sorted: Seq<Map<Seq<char>, Seq<char>>>|
        sorted.to_multiset() == seq![m].to_multiset() && ordered_by_id(sorted) && c
            == list_checksum(sorted);
    assert(seq![m].to_multiset().len() == 1);
    assert(sorted.len() == 1);
    assert(seq![m].to_multiset().count(m) == 1) by {
        assert(seq![m] =~= Seq::<Map<Seq<char>, Seq<char>>>::empty().push(m));
        vstd::seq_lib::to_multiset_build(Seq::<Map<Seq<char>, Seq<char>>>::empty(), m);
    }
    assert(sorted.contains(m));
    assert(sorted[0] == m);
    assert(sorted =~= seq![m]);
    assert(seq![m].drop_last() =~= Seq::<Map<Seq<char>, Seq<char>>>::empty());
    assert(seq![m].last() == m);
    assert(present_checksums(Seq::<Map<Seq<char>, Seq<char>>>::empty()) =~= Seq::<Seq<char>>::empty());
    assert(Seq::<Seq<char>>::empty().push(record_checksum(m)->0) =~= seq![record_checksum(m)->0]);
    assert(present_checksums(seq![m]) =~= seq![record_checksum(m)->0]);
}

/// The checksum of records in this order: the Blot list hash of their
/// checksums, written as a multihash.
pub open spec fn list_checksum(records: Seq<Map<Seq<char>, Seq<char>>>) -> Seq<char> {
    multihash_text(list_blot(present_checksums(records)))
}

/// Whether `c` is a checksum of the records: the list checksum of the
/// records once put in ascending order of id (the order among records that
/// share an id is left open).
pub open spec fn is_dataset_checksum(records: Seq<Map<Seq<char>, Seq<char>>>, c: Seq<char>) -> bool {
    exists|sorted: Seq<Map<Seq<char>, Seq<char>>>|
        sorted.to_multiset() == records.to_multiset() && ordered_by_id(sorted) && c
            == list_checksum(sorted)
}

/// The position before which a record with id `xid` goes in `out`: after
/// every record whose id comes strictly before it.
fn insertion_point(out: &Vec<Record>, xid: &Option<String>) -> (j: usize)
    requires
        forall|k: int| 0 <= k < out@.len() ==> #[trigger] out@[k].wf(),
    ensures
        j <= out.len(),
        forall|k: int|
            0 <= k < j ==> !optional_text_le(opt_text(*xid), record_id(#[trigger] out@[k]@)),
        j < out.len() ==> optional_text_le(opt_text(*xid), record_id(out@[j as int]@)),
{
    let mut j: usize = 0;
    while j < out.len()
        invariant
            j <= out.len(),
            forall|k: int| 0 <= k < out@.len() ==> #[trigger] out@[k].wf(),
            forall|k: int|
                0 <= k < j ==> !optional_text_le(opt_text(*xid), record_id(#[trigger] out@[k]@)),
        decreases out.len() - j,
    {
        let yid = out[j].id();
        if optional_text_le_exec(xid, &yid) {
            return j;
        }
        j = j + 1;
    }
    j
}

/// Records that share an id are the same record.
pub open spec fn ids_identify(records: Seq<Map<Seq<char>, Seq<char>>>) -> bool {
    forall|x: Map<Seq<char>, Seq<char>>, y: Map<Seq<char>, Seq<char>>|
        #[trigger] records.contains(x) && #[trigger] records.contains(y) && record_id(x)
            == record_id(y) ==> x == y
}

proof fn lemma_ordered_by_id_unique(
    s1: Seq<Map<Seq<char>, Seq<char>>>,
    s2: Seq<Map<Seq<char>, Seq<char>>>,
)
    requires
        s1.to_multiset() == s2.to_multiset(),
        ordered_by_id(s1),
        ordered_by_id(s2),
        ids_identify(s1),
    ensures
        s1 == s2,
    decreases s1.len(),
{
    broadcast use vstd::multiset::group_multiset_axioms;
    broadcast use vstd::seq_lib::group_to_multiset_ensures;

    assert(s1.to_multiset().len() == s1.len());
    assert(s2.to_multiset().len() == s2.len());
    if s1.len() == 0 {
        assert(s2.len() == 0);
        assert(s1 =~= s2);
    } else {
        assert(s2.len() > 0);
        let x = s1[0];
        let y = s2[0];
        assert(s1.contains(x));
        assert(s2.to_multiset().count(x) > 0);
        assert(s2.contains(x));
        let i = choose|i: int| 0 <= i < s2.len() && s2[i] == x;
        assert(s1.to_multiset().count(y) > 0);
        assert(s1.contains(y));
        let j = choose|j: int| 0 <= j < s1.len() && s1[j] == y;
        lemma_optional_text_le_order(record_id(x), record_id(y));
        if i > 0 {
            assert(optional_text_le(record_id(s2[0]), record_id(s2[i])));
        }
        if j > 0 {
            assert(optional_text_le(record_id(s1[0]), record_id(s1[j])));
        }
        assert(record_id(x) == record_id(y));
        assert(x == y);
        assert(s1.drop_first().to_multiset() =~= s1.to_multiset().remove(x)) by {
            assert(s1.remove(0) =~= s1.drop_first());
        }
        assert(s2.drop_first().to_multiset() =~= s2.to_multiset().remove(y)) by {
            assert(s2.remove(0) =~= s2.drop_first());
        }
        assert forall|p: int, q: int|
            0 <= p < q < s1.drop_first().len() implies optional_text_le(
            record_id(#[trigger] s1.drop_first()[p]),
            record_id(#[trigger] s1.drop_first()[q]),
        ) by {
            assert(s1.drop_first()[p] == s1[p + 1] && s1.drop_first()[q] == s1[q + 1]);
        }
        assert forall|p: int, q: int|
            0 <= p < q < s2.drop_first().len() implies optional_text_le(
            record_id(#[trigger] s2.drop_first()[p]),
            record_id(#[trigger] s2.drop_first()[q]),
        ) by {
            assert(s2.drop_first()[p] == s2[p + 1] && s2.drop_first()[q] == s2[q + 1]);
        }
        assert forall|u: Map<Seq<char>, Seq<char>>, v: Map<Seq<char>, Seq<char>>|
            #[trigger] s1.drop_first().contains(u) && #[trigger] s1.drop_first().contains(v)
                && record_id(u) == record_id(v) implies u == v by {
            let pu = choose|p: int| 0 <= p < s1.drop_first().len() && s1.drop_first()[p] == u;
            let pv = choose|p: int| 0 <= p < s1.drop_first().len() && s1.drop_first()[p] == v;
            assert(s1[pu + 1] == u && s1[pv + 1] == v);
            assert(s1.contains(u) && s1.contains(v));
        }
        lemma_ordered_by_id_unique(s1.drop_first(), s2.drop_first());
        assert(s1 =~= seq![x] + s1.drop_first());
        assert(s2 =~= seq![y] + s2.drop_first());
    }
}

/// Law: when records that share an id are the same record (for instance
/// when all ids are distinct), the dataset checksum does not depend on the
/// order in which the records were read: every ordering by id of the same
/// records gives the same checksum.
pub proof fn law_dataset_checksum_ignores_order(
    records: Seq<Map<Seq<char>, Seq<char>>>,
    s1: Seq<Map<Seq<char>, Seq<char>>>,
    s2: Seq<Map<Seq<char>, Seq<char>>>,
)
    requires
        ids_identify(records),
        s1.to_multiset() == records.to_multiset(),
        s2.to_multiset() == records.to_multiset(),
        ordered_by_id(s1),
        ordered_by_id(s2),
    ensures
        list_checksum(s1) == list_checksum(s2),
{
    broadcast use vstd::seq_lib::group_to_multiset_ensures;

    assert forall|u: Map<Seq<char>, Seq<char>>, v: Map<Seq<char>, Seq<char>>|
        #[trigger] s1.contains(u) && #[trigger] s1.contains(v) && record_id(u) == record_id(
            v,
        ) implies u == v by {
        assert(s1.to_multiset().count(u) > 0 && s1.to_multiset().count(v) > 0);
        assert(records.contains(u) && records.contains(v));
    }
    lemma_ordered_by_id_unique(s1, s2);
}

/// Law: the checksum of a dataset does not depend on the order in which its
/// records were read, when records that share an id are the same record:
/// datasets with the same records have the same checksum.
pub proof fn law_records_checksum_ignores_order(
    a: Seq<Map<Seq<char>, Seq<char>>>,
    b: Seq<Map<Seq<char>, Seq<char>>>,
    ca: Seq<char>,
    cb: Seq<char>,
)
    requires
        ids_identify(a),
        a.to_multiset() == b.to_multiset(),
        is_dataset_checksum(a, ca),
        is_dataset_checksum(b, cb),
    ensures
        ca == cb,
{
    let s1 = choose|sorted: Seq<Map<Seq<char>, Seq<char>>>|
        sorted.to_multiset() == a.to_multiset() && ordered_by_id(sorted) && ca
            == list_checksum(sorted);
    let s2 = choose|sorted: Seq<Map<Seq<char>, Seq<char>>>|
        sorted.to_multiset() == b.to_multiset() && ordered_by_id(sorted) && cb
            == list_checksum(sorted);
    law_dataset_checksum_ignores_order(a, s1, s2);
}

/// The records that have a checksum, in order.
pub open spec fn checked_records(records: Seq<Map<Seq<char>, Seq<char>>>) -> Seq<
    Map<Seq<char>, Seq<char>>,
>
    decreases records.len(),
{
    if records.len() == 0 {
        Seq::empty()
    } else {
        let before = checked_records(records.drop_last());
        if record_checksum(records.last()) is Some {
            before.push(records.last())
        } else {
            before
        }
    }
}

proof fn lemma_checked_records(s: Seq<Map<Seq<char>, Seq<char>>>)
    ensures
        present_checksums(checked_records(s)) == present_checksums(s),
        forall|x: Map<Seq<char>, Seq<char>>| #[trigger] checked_records(s).contains(x) ==> s.contains(x),
        forall|x: Map<Seq<char>, Seq<char>>|
            #[trigger] checked_records(s).to_multiset().count(x) == if record_checksum(x) is Some {
                s.to_multiset().count(x)
            } else {
                0
            },
        ordered_by_id(s) ==> ordered_by_id(checked_records(s)),
    decreases s.len(),
{
    broadcast use vstd::multiset::group_multiset_axioms;
    broadcast use vstd::seq_lib::group_to_multiset_ensures;

    if s.len() == 0 {
        assert(checked_records(s) =~= s);
    } else {
        let prev = s.drop_last();
        let last = s.last();
        let c = checked_records(prev);
        lemma_checked_records(prev);
        assert(s =~= prev.push(last));
        vstd::seq_lib::to_multiset_build(prev, last);
        if ordered_by_id(s) {
            assert forall|i: int, j: int| 0 <= i < j < prev.len() implies optional_text_le(
                record_id(#[trigger] prev[i]),
                record_id(#[trigger] prev[j]),
            ) by {
                assert(prev[i] == s[i] && prev[j] == s[j]);
            }
        }
        if record_checksum(last) is Some {
            let cs = c.push(last);
            assert(checked_records(s) == cs);
            assert(cs.drop_last() =~= c);
            assert(cs.last() == last);
            vstd::seq_lib::to_multiset_build(c, last);
            assert forall|x: Map<Seq<char>, Seq<char>>| #[trigger] cs.contains(x) implies s.contains(x) by {
                let i = choose|i: int| 0 <= i < cs.len() && cs[i] == x;
                if i < c.len() {
                    assert(c[i] == x);
                    assert(c.contains(x));
                    let p = choose|p: int| 0 <= p < prev.len() && prev[p] == x;
                    assert(s[p] == x);
                } else {
                    assert(s[s.len() - 1] == x);
                }
            }
            if ordered_by_id(s) {
                assert forall|i: int, j: int| 0 <= i < j < cs.len() implies optional_text_le(
                    record_id(#[trigger] cs[i]),
                    record_id(#[trigger] cs[j]),
                ) by {
                    if j < c.len() {
                        assert(cs[i] == c[i] && cs[j] == c[j]);
                    } else {
                        assert(cs[i] == c[i]);
                        assert(c.contains(c[i]));
                        let p = choose|p: int| 0 <= p < prev.len() && prev[p] == c[i];
                        assert(s[p] == c[i]);
                        assert(s[s.len() - 1] == last);
                    }
                }
            }
        } else {
            assert(checked_records(s) == c);
            assert forall|x: Map<Seq<char>, Seq<char>>| #[trigger] c.contains(x) implies s.contains(x) by {
                let p = choose|p: int| 0 <= p < prev.len() && prev[p] == x;
                assert(s[p] == x);
            }
        }
    }
}

/// Law: records without a checksum do not count: the checksum of a dataset
/// is that of its records that have a checksum (when records that share an
/// id are the same record).
pub proof fn law_unchecked_records_ignored(
    records: Seq<Map<Seq<char>, Seq<char>>>,
    c: Seq<char>,
    cc: Seq<char>,
)
    requires
        ids_identify(records),
        is_dataset_checksum(records, c),
        is_dataset_checksum(checked_records(records), cc),
    ensures
        c == cc,
{
    let s1 = choose|sorted: Seq<Map<Seq<char>, Seq<char>>>|
        sorted.to_multiset() == records.to_multiset() && ordered_by_id(sorted) && c
            == list_checksum(sorted);
    lemma_checked_records(s1);
    lemma_checked_records(records);
    let k1 = checked_records(s1);
    let kr = checked_records(records);
    assert(k1.to_multiset() =~= kr.to_multiset());
    assert(list_checksum(k1) == c);
    assert(is_dataset_checksum(kr, c));
    assert(ids_identify(kr));
    law_records_checksum_ignores_order(kr, kr, c, cc);
}

/// Law: the `_checksum` cell that casting adds depends only on the record's
/// cells, not on the order in which they are kept.
pub proof fn law_cast_checksum_ignores_order(a: Record, b: Record, attributes: Seq<Attribute>)
    requires
        a.wf(),
        b.wf(),
        a@ == b@,
    ensures
        cast_cells(a.entries(), attributes)["_checksum"@] == cast_cells(b.entries(), attributes)["_checksum"@],
{
    lemma_collect_hashes_same_map(a.entries(), b.entries(), cast_hash(attributes));
    lemma_sorted_bytes_same_multiset(
        cast_leaves(a.entries(), attributes),
        cast_leaves(b.entries(), attributes),
    );
}

/// Law: casting leaves empty cells out of the checksum: a record with one
/// more cell, whose value is empty, gets the same `_checksum`.
pub proof fn law_cast_checksum_ignores_empty_cells(
    a: Record,
    b: Record,
    attributes: Seq<Attribute>,
    key: Seq<char>,
)
    requires
        a.wf(),
        b.wf(),
        !a@.contains_key(key),
        b@ == a@.insert(key, Seq::empty()),
    ensures
        cast_cells(a.entries(), attributes)["_checksum"@] == cast_cells(b.entries(), attributes)["_checksum"@],
{
    assert(a@.remove(key) =~= b@.remove(key));
    lemma_collect_hashes_replace(a.entries(), b.entries(), cast_hash(attributes), key);
    lemma_sorted_bytes_same_multiset(
        cast_leaves(a.entries(), attributes),
        cast_leaves(b.entries(), attributes),
    );
}

/// Law: casting reads a multivalue cell as the set of its values: changing
/// the value of a cell whose attribute has a separator to one with the same
/// set of parts (in another order, or with a part repeated) keeps the
/// `_checksum` that casting adds.
pub proof fn law_cast_multivalue_cells_are_sets(
    a: Record,
    b: Record,
    attributes: Seq<Attribute>,
    key: Seq<char>,
    value: Seq<char>,
    sep: char,
)
    requires
        a.wf(),
        b.wf(),
        a@.contains_key(key),
        first_attribute(attributes, key) is Some,
        attributes[first_attribute(attributes, key)->0].separator == Some(sep),
        a@[key].len() > 0,
        value.len() > 0,
        split_on(a@[key], sep).to_set() == split_on(value, sep).to_set(),
        b@ == a@.insert(key, value),
    ensures
        cast_cells(a.entries(), attributes)["_checksum"@] == cast_cells(b.entries(), attributes)["_checksum"@],
{
    assert(a@.remove(key) =~= b@.remove(key));
    assert((cast_hash(attributes))(key, a@[key]) == (cast_hash(attributes))(key, value));
    lemma_collect_hashes_replace(a.entries(), b.entries(), cast_hash(attributes), key);
    lemma_sorted_bytes_same_multiset(
        cast_leaves(a.entries(), attributes),
        cast_leaves(b.entries(), attributes),
    );
}

/// Law: the `_checksum` that casting adds hashes each non-empty cell whole:
/// adding a cell `key` → `value` (not empty, its key an attribute's id)
/// adds to the hashes the dictionary digest is taken over exactly the Blot
/// hash of the key followed by the Blot hash of the whole value, or of the
/// set of its parts where the attribute has a separator.
pub proof fn law_cast_checksum_adds_cell(
    a: Record,
    b: Record,
    attributes: Seq<Attribute>,
    key: Seq<char>,
    value: Seq<char>,
)
    requires
        a.wf(),
        b.wf(),
        !a@.contains_key(key),
        b@ == a@.insert(key, value),
        value.len() > 0,
        first_attribute(attributes, key) is Some,
    ensures
        cast_cells(b.entries(), attributes)["_checksum"@] == multihash_text(
            dict_digest(
                sorted_bytes(
                    cast_leaves(a.entries(), attributes).push(
                        unicode_blot(key) + match attributes[first_attribute(
                            attributes,
                            key,
                        )->0].separator {
                            Some(sep) => set_blot(split_on(value, sep).to_set()),
                            None => unicode_blot(value),
                        },
                    ),
                ),
            ),
        ),
{
    let e = a.entries();
    let e2 = e.push((key, value));
    lemma_entries_map_lookup(e, key);
    assert(unique_keys(e2)) by {
        assert forall|i: int, j: int| 0 <= i < j < e2.len() implies e2[i].0 != e2[j].0 by {
            if j == e.len() {
                assert(e2[i] == e[i]);
            } else {
                assert(e2[i] == e[i] && e2[j] == e[j]);
            }
        }
    }
    assert(e2.drop_last() =~= e);
    assert(e2.last() == (key, value));
    assert(entries_map(e2) == b@);
    let h = cast_hash(attributes);
    lemma_collect_hashes_same_map(b.entries(), e2, h);
    assert(collect_hashes(e2, h) == collect_hashes(e, h).push(
        leaf_hash(attributes[first_attribute(attributes, key)->0], key, value),
    ));
    lemma_sorted_bytes_same_multiset(cast_leaves(b.entries(), attributes), collect_hashes(e2, h));
}

/// Law: a record none of whose cells is both named by an attribute and not
/// empty casts to the checksum of the empty dictionary.
pub proof fn law_cast_checksum_of_no_cells(a: Record, attributes: Seq<Attribute>)
    requires
        a.wf(),
        forall|k: Seq<char>|
            #[trigger] a@.contains_key(k) ==> first_attribute(attributes, k) is None || a@[k].len() == 0,
    ensures
        cast_cells(a.entries(), attributes)["_checksum"@] == multihash_text(
            dict_digest(Seq::empty()),
        ),
{
    let h = cast_hash(attributes);
    let none = Seq::<(Seq<char>, Seq<char>)>::empty();
    assert forall|k: Seq<char>| #[trigger]
        keyed_hash(entries_map(a.entries()), h, k) == keyed_hash(entries_map(none), h, k) by {
        if a@.contains_key(k) {
        }
    }
    lemma_collect_hashes_same_hashes(a.entries(), none, h);
    lemma_sorted_bytes_same_multiset(cast_leaves(a.entries(), attributes), Seq::empty());
    lemma_sorted_bytes_unique(Seq::empty(), Seq::empty());
}

/// Law: casting sets the record's checksum: after `cast`, `checksum` gives
/// the Blot dictionary hash of the cells that casting kept and that are not
/// empty.
pub proof fn law_cast_sets_checksum(entries: Seq<(Seq<char>, Seq<char>)>, attributes: Seq<Attribute>)
    ensures
        record_checksum(cast_cells(entries, attributes)) == Some(
            dict_checksum(cast_leaves(entries, attributes)),
        ),
{
}

/// Whether cells that casting keeps get distinct names: two keys of `cells`
/// with the same cast name are the same key.
pub open spec fn distinct_targets(cells: Map<Seq<char>, Seq<char>>, attributes: Seq<Attribute>) -> bool {
    forall|k1: Seq<char>, k2: Seq<char>|
        #[trigger] cells.contains_key(k1) && #[trigger] cells.contains_key(k2) && cast_target(
            attributes,
            k1,
        ) is Some && cast_target(attributes, k1) == cast_target(attributes, k2) ==> k1 == k2
}

/// A key of `cells` that casting names `target`.
pub open spec fn cast_source(
    cells: Map<Seq<char>, Seq<char>>,
    attributes: Seq<Attribute>,
    target: Seq<char>,
) -> Seq<char> {
    choose|k: Seq<char>| cells.contains_key(k) && cast_target(attributes, k) == Some(target)
}

/// The cells that casting keeps, under their cast names, as a map.
pub open spec fn cast_map(cells: Map<Seq<char>, Seq<char>>, attributes: Seq<Attribute>) -> Map<
    Seq<char>,
    Seq<char>,
> {
    Map::new(
        |t: Seq<char>|
            exists|k: Seq<char>| cells.contains_key(k) && cast_target(attributes, k) == Some(t),
        |t: Seq<char>| cells[cast_source(cells, attributes, t)],
    )
}

proof fn lemma_cast_entries_contains(
    e: Seq<(Seq<char>, Seq<char>)>,
    attributes: Seq<Attribute>,
    t: Seq<char>,
)
    ensures
        entries_map(cast_entries(e, attributes)).contains_key(t) <==> exists|i: int|
            0 <= i < e.len() && #[trigger] cast_target(attributes, e[i].0) == Some(t),
    decreases e.len(),
{
    if e.len() > 0 {
        let prev = e.drop_last();
        let before = cast_entries(e.drop_last(), attributes);
        if let Some(tt) = cast_target(attributes, e.last().0) {
            assert(cast_entries(e, attributes) == before.push((tt, e.last().1)));
            assert(before.push((tt, e.last().1)).drop_last() =~= before);
            assert(before.push((tt, e.last().1)).last() == (tt, e.last().1));
        }
        lemma_cast_entries_contains(prev, attributes, t);
        if entries_map(cast_entries(e, attributes)).contains_key(t) {
            if cast_target(attributes, e.last().0) != Some(t) {
                let i = choose|i: int|
                    0 <= i < prev.len() && #[trigger] cast_target(attributes, prev[i].0) == Some(t);
                assert(prev[i] == e[i]);
            } else {
                assert(cast_target(attributes, e[e.len() - 1].0) == Some(t));
            }
        }
        if exists|i: int| 0 <= i < e.len() && #[trigger] cast_target(attributes, e[i].0) == Some(t) {
            let i = choose|i: int|
                0 <= i < e.len() && #[trigger] cast_target(attributes, e[i].0) == Some(t);
            if i < e.len() - 1 {
                assert(prev[i] == e[i]);
            }
        }
    }
}

proof fn lemma_cast_entries_value(
    e: Seq<(Seq<char>, Seq<char>)>,
    attributes: Seq<Attribute>,
    t: Seq<char>,
    i: int,
)
    requires
        0 <= i < e.len(),
        cast_target(attributes, e[i].0) == Some(t),
        forall|j: int| 0 <= j < e.len() && j != i ==> #[trigger] cast_target(attributes, e[j].0) != Some(t),
    ensures
        entries_map(cast_entries(e, attributes)).contains_key(t),
        entries_map(cast_entries(e, attributes))[t] == e[i].1,
    decreases e.len(),
{
    let prev = e.drop_last();
    let before = cast_entries(e.drop_last(), attributes);
    if let Some(tt) = cast_target(attributes, e.last().0) {
        assert(cast_entries(e, attributes) == before.push((tt, e.last().1)));
        assert(before.push((tt, e.last().1)).drop_last() =~= before);
        assert(before.push((tt, e.last().1)).last() == (tt, e.last().1));
    }
    if i < e.len() - 1 {
        assert(cast_target(attributes, e[e.len() - 1].0) != Some(t));
        assert forall|j: int| 0 <= j < prev.len() && j != i implies #[trigger] cast_target(
            attributes,
            prev[j].0,
        ) != Some(t) by {
            assert(prev[j] == e[j]);
        }
        assert(prev[i] == e[i]);
        lemma_cast_entries_value(prev, attributes, t, i);
    }
}

/// Where cast names are distinct, the cells that casting keeps, as a map,
/// depend only on the record's cells.
proof fn lemma_cast_entries_map(e: Seq<(Seq<char>, Seq<char>)>, attributes: Seq<Attribute>)
    requires
        unique_keys(e),
        distinct_targets(entries_map(e), attributes),
    ensures
        entries_map(cast_entries(e, attributes)) == cast_map(entries_map(e), attributes),
{
    let m = entries_map(e);
    let c = entries_map(cast_entries(e, attributes));
    let target = cast_map(m, attributes);
    assert forall|t: Seq<char>| #[trigger] c.contains_key(t) == target.contains_key(t) by {
        lemma_cast_entries_contains(e, attributes, t);
        if c.contains_key(t) {
            let i = choose|i: int|
                0 <= i < e.len() && #[trigger] cast_target(attributes, e[i].0) == Some(t);
            lemma_entries_map_lookup(e, e[i].0);
            assert(m.contains_key(e[i].0));
        }
        if target.contains_key(t) {
            let k = choose|k: Seq<char>| m.contains_key(k) && cast_target(attributes, k) == Some(t);
            lemma_entries_map_lookup(e, k);
            let i = choose|i: int| 0 <= i < e.len() && #[trigger] e[i].0 == k;
            assert(cast_target(attributes, e[i].0) == Some(t));
        }
    }
    assert forall|t: Seq<char>| #[trigger] c.contains_key(t) implies c[t] == target[t] by {
        lemma_cast_entries_contains(e, attributes, t);
        let k = cast_source(m, attributes, t);
        let i0 = choose|i: int|
            0 <= i < e.len() && #[trigger] cast_target(attributes, e[i].0) == Some(t);
        lemma_entries_map_lookup(e, e[i0].0);
        assert(m.contains_key(e[i0].0));
        assert(m.contains_key(k) && cast_target(attributes, k) == Some(t));
        lemma_entries_map_lookup(e, k);
        let i = choose|i: int| 0 <= i < e.len() && #[trigger] e[i].0 == k;
        assert forall|j: int| 0 <= j < e.len() && j != i implies #[trigger] cast_target(
            attributes,
            e[j].0,
        ) != Some(t) by {
            lemma_entries_map_lookup(e, e[j].0);
            assert(m.contains_key(e[j].0));
            assert(e[j].0 != e[i].0);
        }
        lemma_cast_entries_value(e, attributes, t, i);
    }
    assert(c =~= target);
}

/// Law: casting drops a cell whose column is not in the schema: a record
/// with one more such cell casts to the same cells, `_checksum` included
/// (where the cells that casting keeps get distinct names).
pub proof fn law_cast_drops_cells_outside_schema(
    a: Record,
    b: Record,
    attributes: Seq<Attribute>,
    key: Seq<char>,
    value: Seq<char>,
)
    requires
        a.wf(),
        b.wf(),
        first_attribute(attributes, key) is None,
        b@ == a@.insert(key, value),
        distinct_targets(a@, attributes),
    ensures
        cast_cells(a.entries(), attributes) == cast_cells(b.entries(), attributes),
{
    assert(distinct_targets(b@, attributes)) by {
        assert forall|k1: Seq<char>, k2: Seq<char>|
            #[trigger] b@.contains_key(k1) && #[trigger] b@.contains_key(k2) && cast_target(
                attributes,
                k1,
            ) is Some && cast_target(attributes, k1) == cast_target(attributes, k2) implies k1
            == k2 by {
            assert(k1 != key && k2 != key);
            assert(a@.contains_key(k1) && a@.contains_key(k2));
        }
    }
    lemma_cast_entries_map(a.entries(), attributes);
    lemma_cast_entries_map(b.entries(), attributes);
    let ma = cast_map(a@, attributes);
    let mb = cast_map(b@, attributes);
    assert forall|t: Seq<char>| #[trigger] ma.contains_key(t) == mb.contains_key(t) by {
        if ma.contains_key(t) {
            let k = choose|k: Seq<char>| a@.contains_key(k) && cast_target(attributes, k) == Some(t);
            assert(b@.contains_key(k));
        }
        if mb.contains_key(t) {
            let k = choose|k: Seq<char>| b@.contains_key(k) && cast_target(attributes, k) == Some(t);
            assert(k != key);
            assert(a@.contains_key(k));
        }
    }
    assert forall|t: Seq<char>| #[trigger] ma.contains_key(t) implies ma[t] == mb[t] by {
        let ka = cast_source(a@, attributes, t);
        let kb = cast_source(b@, attributes, t);
        assert(a@.contains_key(ka) && cast_target(attributes, ka) == Some(t));
        assert(b@.contains_key(ka));
        assert(b@.contains_key(kb) && cast_target(attributes, kb) == Some(t));
        assert(ka == kb);
        assert(ka != key);
    }
    assert(ma =~= mb);
    assert(a@.remove(key) =~= b@.remove(key));
    lemma_collect_hashes_replace(a.entries(), b.entries(), cast_hash(attributes), key);
    lemma_sorted_bytes_same_multiset(
        cast_leaves(a.entries(), attributes),
        cast_leaves(b.entries(), attributes),
    );
}

/// Whether the attributes have distinct ids and distinct published names,
/// none of them `_checksum`.
pub open spec fn distinct_attributes(attributes: Seq<Attribute>) -> bool {
    &&& forall|i: int, j: int|
        0 <= i < j < attributes.len() ==> #[trigger] attributes[i].id@ != #[trigger] attributes[j].id@
    &&& forall|i: int, j: int|
        0 <= i < j < attributes.len() ==> #[trigger] attributes[i].published_id()
            != #[trigger] attributes[j].published_id()
    &&& forall|i: int| 0 <= i < attributes.len() ==> #[trigger] attributes[i].published_id() != "_checksum"@
}

/// Law: casting and rows agree on aliases: after casting, the value under an
/// attribute's published name is the value the record had under the
/// attribute's id (empty where it had none), which is what `as_row` gives.
pub proof fn law_cast_then_row(a: Record, attributes: Seq<Attribute>)
    requires
        a.wf(),
        distinct_attributes(attributes),
    ensures
        forall|i: int|
            0 <= i < attributes.len() ==> value_or_empty(
                cast_cells(a.entries(), attributes),
                #[trigger] attributes[i].published_id(),
            ) == value_or_empty(a@, attributes[i].id@),
{
    let m = a@;
    assert forall|k: Seq<char>| #[trigger] cast_target(attributes, k) is Some implies (cast_target(
        attributes,
        k,
    ) == Some(attributes[first_attribute(attributes, k)->0].published_id()) && attributes[first_attribute(
        attributes,
        k,
    )->0].id@ == k) by {
        lemma_first_attribute(attributes, k);
    }
    assert(distinct_targets(m, attributes)) by {
        assert forall|k1: Seq<char>, k2: Seq<char>|
            #[trigger] m.contains_key(k1) && #[trigger] m.contains_key(k2) && cast_target(
                attributes,
                k1,
            ) is Some && cast_target(attributes, k1) == cast_target(attributes, k2) implies k1
            == k2 by {
            lemma_first_attribute(attributes, k1);
            lemma_first_attribute(attributes, k2);
            let j1 = first_attribute(attributes, k1)->0;
            let j2 = first_attribute(attributes, k2)->0;
            if j1 < j2 {
                assert(attributes[j1].published_id() != attributes[j2].published_id());
            } else if j2 < j1 {
                assert(attributes[j2].published_id() != attributes[j1].published_id());
            }
        }
    }
    lemma_cast_entries_map(a.entries(), attributes);
    let cm = cast_map(m, attributes);
    assert forall|i: int| 0 <= i < attributes.len() implies value_or_empty(
        cast_cells(a.entries(), attributes),
        #[trigger] attributes[i].published_id(),
    ) == value_or_empty(m, attributes[i].id@) by {
        let d = attributes[i].id@;
        let p = attributes[i].published_id();
        lemma_first_attribute(attributes, d);
        let f = first_attribute(attributes, d)->0;
        if f != i {
            if f < i {
                assert(attributes[f].id@ != attributes[i].id@);
            } else {
                assert(attributes[i].id@ != attributes[f].id@);
            }
        }
        assert(f == i);
        assert(cast_target(attributes, d) == Some(p));
        assert forall|k: Seq<char>| cast_target(attributes, k) == Some(p) implies k == d by {
            lemma_first_attribute(attributes, k);
            let j = first_attribute(attributes, k)->0;
            if j < i {
                assert(attributes[j].published_id() != attributes[i].published_id());
            } else if i < j {
                assert(attributes[i].published_id() != attributes[j].published_id());
            }
        }
        if m.contains_key(d) {
            assert(cm.contains_key(p));
            let k = cast_source(m, attributes, p);
            assert(m.contains_key(k) && cast_target(attributes, k) == Some(p));
            assert(k == d);
        } else {
            if cm.contains_key(p) {
                let k = choose|k: Seq<char>| m.contains_key(k) && cast_target(attributes, k) == Some(p);
                assert(k == d);
            }
        }
    }
}

/// The records of a dataset, in order.
pub struct Records(Vec<Record>);

impl View for Records {
    type V = Seq<Map<Seq<char>, Seq<char>>>;

    closed spec fn view(&self) -> Seq<Map<Seq<char>, Seq<char>>> {
        record_views(self.0@)
    }
}

impl Records {
    /// Well-formed: every record is.
    pub closed spec fn wf(&self) -> bool {
        forall|i: int| 0 <= i < self.0@.len() ==> #[trigger] self.0@[i].wf()
    }

    pub fn new() -> (r: Records)
        ensures
            r.wf(),
            r@ == Seq::<Map<Seq<char>, Seq<char>>>::empty(),
    {
        let r = Records(Vec::new());
        assert(r@ =~= Seq::<Map<Seq<char>, Seq<char>>>::empty());
        r
    }

    pub fn len(&self) -> (r: usize)
        ensures
            r == self@.len(),
    {
        self.0.len()
    }

    /// Appends the records of `other`.
    pub fn extend(&mut self, other: Records)
        requires
            old(self).wf(),
            other.wf(),
        ensures
            final(self).wf(),
            final(self)@ == old(self)@ + other@,
    {
        let mut other = other;
        let ghost a = self@;
        let ghost b = other@;
        self.0.append(&mut other.0);
        assert(self@ =~= a + b);
    }

    /// Appends a record.
    pub fn push(&mut self, el: Record)
        requires
            old(self).wf(),
            el.wf(),
        ensures
            final(self).wf(),
            final(self)@ == old(self)@.push(el@),
    {
        let ghost a = self@;
        let ghost e = el@;
        self.0.push(el);
        assert(self@ =~= a.push(e));
    }

    /// The records in ascending order of id (records with no id first; the
    /// order among records with the same id is not specified).
    pub fn sort(self) -> (r: Self)
        requires
            self.wf(),
        ensures
            r.wf(),
            r@.to_multiset() == self@.to_multiset(),
            ordered_by_id(r@),
    {
        let ghost all = self@;
        let mut rest = self.0;
        let mut out: Vec<Record> = Vec::new();
        let ghost mut i: int = 0;
        assert(all.skip(0) =~= all);
        assert(all.take(0) =~= Seq::<Map<Seq<char>, Seq<char>>>::empty());
        assert(record_views(out@) =~= Seq::<Map<Seq<char>, Seq<char>>>::empty());
        while rest.len() > 0
            invariant
                0 <= i <= all.len(),
                record_views(rest@) == all.skip(i),
                forall|k: int| 0 <= k < rest@.len() ==> #[trigger] rest@[k].wf(),
                forall|k: int| 0 <= k < out@.len() ==> #[trigger] out@[k].wf(),
                ordered_by_id(record_views(out@)),
                record_views(out@).to_multiset() == all.take(i).to_multiset(),
            decreases rest.len(),
        {
            let ghost before = record_views(out@);
            let ghost rb = record_views(rest@);
            let ghost rv = rest@;
            assert(rb.len() == rest.len());
            assert(rb[0] == all[i]);
            assert(rv[0].wf());
            let x = rest.remove(0);
            assert(record_views(rest@) =~= rb.drop_first());
            assert(rb.drop_first() =~= all.skip(i + 1));
            assert forall|k: int| 0 <= k < rest@.len() implies #[trigger] rest@[k].wf() by {
                assert(rest@[k] == rv[k + 1]);
            }
            let xid = x.id();
            let j = insertion_point(&out, &xid);
            let ghost xv = x@;
            let ghost ov = out@;
            out.insert(j, x);
            assert(record_views(out@) =~= before.insert(j as int, xv));
            assert forall|k: int| 0 <= k < out@.len() implies #[trigger] out@[k].wf() by {
                if k < j {
                    assert(out@[k] == ov[k]);
                } else if k > j {
                    assert(out@[k] == ov[k - 1]);
                }
            }
            assert(ordered_by_id(record_views(out@))) by {
                let s = record_views(out@);
                let xk = opt_text(xid);
                assert forall|p: int, q: int| 0 <= p < q < s.len() implies optional_text_le(
                    record_id(#[trigger] s[p]),
                    record_id(#[trigger] s[q]),
                ) by {
                    if p < j && q < j {
                        assert(s[p] == before[p] && s[q] == before[q]);
                    } else if p < j && q == j {
                        assert(s[p] == before[p]);
                        lemma_optional_text_le(xk, record_id(before[p]), xk);
                    } else if p < j {
                        assert(s[p] == before[p] && s[q] == before[q - 1]);
                    } else if p == j {
                        assert(s[q] == before[q - 1]);
                        if q - 1 > j {
                            assert(optional_text_le(record_id(before[j as int]), record_id(before[q - 1])));
                            lemma_optional_text_le(xk, record_id(before[j as int]), record_id(before[q - 1]));
                        }
                    } else {
                        assert(s[p] == before[p - 1] && s[q] == before[q - 1]);
                    }
                }
            }
            proof {
                vstd::seq_lib::to_multiset_insert(before, j as int, xv);
                assert(all.take(i + 1) =~= all.take(i).push(xv));
                vstd::seq_lib::to_multiset_build(all.take(i), xv);
                i = i + 1;
            }
        }
        assert(all.take(i) =~= all);
        let r = Records(out);
        assert(r@ == record_views(out@));
        r
    }

    pub fn as_slice(&self) -> (r: &[Record])
        ensures
            record_views(r@) == self@,
            self.wf() ==> forall|k: int| 0 <= k < r@.len() ==> #[trigger] r@[k].wf(),
    {
        self.0.as_slice()
    }

    /// A copy of the records.
    pub fn duplicate(&self) -> (r: Records)
        requires
            self.wf(),
        ensures
            r.wf(),
            r@ == self@,
    {
        let mut out: Vec<Record> = Vec::new();
        let mut i: usize = 0;
        while i < self.0.len()
            invariant
                self.wf(),
                i <= self.0.len(),
                record_views(out@) == self@.take(i as int),
                forall|k: int| 0 <= k < out@.len() ==> #[trigger] out@[k].wf(),
            decreases self.0.len() - i,
        {
            let ghost before = record_views(out@);
            assert(self.0@[i as int].wf());
            let copy = self.0[i].duplicate();
            let ghost cv = copy@;
            let ghost ov = out@;
            out.push(copy);
            assert(record_views(out@) =~= before.push(cv));
            assert(self@.take(i + 1) =~= self@.take(i as int).push(self@[i as int]));
            assert forall|k: int| 0 <= k < out@.len() implies #[trigger] out@[k].wf() by {
                if k < i {
                    assert(out@[k] == ov[k]);
                }
            }
            i = i + 1;
        }
        assert(self@.take(self.0.len() as int) =~= self@);
        Records(out)
    }

    /// The checksum of the dataset: the Blot list hash of the records'
    /// checksums, taken in ascending order of id (records without a checksum
    /// are left out), written as a multihash.
    pub fn checksum(&self) -> (r: String)
        requires
            self.wf(),
        ensures
            is_dataset_checksum(self@, r@),
    {
        let sorted = self.duplicate().sort();
        let ghost sv = sorted@;
        let mut list: Vec<String> = Vec::new();
        let mut i: usize = 0;
        assert(sv.take(0) =~= Seq::<Map<Seq<char>, Seq<char>>>::empty());
        assert(views(list@) =~= Seq::<Seq<char>>::empty());
        while i < sorted.0.len()
            invariant
                sorted.wf(),
                sv == sorted@,
                i <= sorted.0.len(),
                views(list@) == present_checksums(sv.take(i as int)),
            decreases sorted.0.len() - i,
        {
            assert(sorted.0@[i as int].wf());
            assert(sv.take(i + 1).drop_last() =~= sv.take(i as int));
            assert(sv.take(i + 1).last() == sorted.0@[i as int]@);
            let ghost before = views(list@);
            match sorted.0[i].checksum() {
                Some(c) => {
                    let ghost cv = c@;
                    list.push(c);
                    assert(views(list@) =~= before.push(cv));
                },
                None => {},
            }
            i = i + 1;
        }
        assert(sv.take(sorted.0.len() as int) =~= sv);
        render_list_digest(&list)
    }
}

} // verus!
