//! Records kept by their CSVW table schema.
use vstd::prelude::*;

use crate::cells::{
    collect_hashes, entries_map, entry_views, keyed_hash, lemma_collect_hashes_replace,
    lemma_collect_hashes_same_hashes, lemma_collect_hashes_same_map, lemma_entries_map_lookup,
    put_entry, unique_keys, Cells,
};
use crate::dataset::dict_checksum;
use crate::digest::{
    blot_text, blot_text_set, byte_views, dict_digest, digest_dict, multihash_text, render_multihash,
    set_blot, unicode_blot,
};
use crate::order::{
    lemma_sorted_bytes_same_multiset, lemma_sorted_bytes_unique, sort_byte_strings, sorted_bytes,
};
use crate::table::{first_column, lemma_first_column, Column, Schema};
use crate::text::{split, split_on};

verus! {

/// Whether a column is named `key`.
pub open spec fn has_column(columns: Seq<Column>, key: Seq<char>) -> bool {
    first_column(columns, key) is Some
}

/// The hash of one cell, with the separator of the first column of its name.
pub open spec fn cell_hash(columns: Seq<Column>, key: Seq<char>, value: Seq<char>) -> Seq<u8> {
    unicode_blot(key) + match columns[first_column(columns, key)->0].separator {
        Some(sep) => set_blot(split_on(value, sep).to_set()),
        None => unicode_blot(value),
    }
}

/// The hash of a cell whose value is not empty.
pub open spec fn nonempty_cell_hash(columns: Seq<Column>) -> spec_fn(Seq<char>, Seq<char>) -> Option<
    Seq<u8>,
> {
    |key: Seq<char>, value: Seq<char>|
        if value.len() > 0 {
            Some(cell_hash(columns, key, value))
        } else {
            None
        }
}

/// The hashes of the cells whose value is not empty, in order.
pub open spec fn cell_hashes(entries: Seq<(Seq<char>, Seq<char>)>, columns: Seq<Column>) -> Seq<
    Seq<u8>,
> {
    collect_hashes(entries, nonempty_cell_hash(columns))
}

/// The entries whose key names a column, in order.
pub open spec fn column_entries(entries: Seq<(Seq<char>, Seq<char>)>, columns: Seq<Column>) -> Seq<
    (Seq<char>, Seq<char>),
>
    decreases entries.len(),
{
    if entries.len() == 0 {
        Seq::empty()
    } else {
        let before = column_entries(entries.drop_last(), columns);
        if has_column(columns, entries.last().0) {
            before.push(entries.last())
        } else {
            before
        }
    }
}

/// Every cell that is not empty has a column.
pub open spec fn cells_have_columns(cells: Map<Seq<char>, Seq<char>>, columns: Seq<Column>) -> bool {
    forall|k: Seq<char>|
        #[trigger] cells.contains_key(k) && cells[k].len() > 0 ==> has_column(columns, k)
}

proof fn lemma_column_entries(entries: Seq<(Seq<char>, Seq<char>)>, columns: Seq<Column>)
    requires
        unique_keys(entries),
    ensures
        unique_keys(column_entries(entries, columns)),
        forall|i: int|
            0 <= i < column_entries(entries, columns).len() ==> has_column(
                columns,
                #[trigger] column_entries(entries, columns)[i].0,
            ) && entries.contains(column_entries(entries, columns)[i]),
    decreases entries.len(),
{
    if entries.len() > 0 {
        let prev = entries.drop_last();
        assert(unique_keys(prev));
        lemma_column_entries(prev, columns);
        let cp = column_entries(prev, columns);
        assert forall|i: int| 0 <= i < cp.len() implies entries.contains(#[trigger] cp[i]) by {
            assert(has_column(columns, cp[i].0));
            assert(prev.contains(cp[i]));
            let j = choose|j: int| 0 <= j < prev.len() && prev[j] == cp[i];
            assert(entries[j] == prev[j]);
        }
        if has_column(columns, entries.last().0) {
            assert forall|i: int| 0 <= i < cp.len() implies #[trigger] cp[i].0 != entries.last().0 by {
                assert(has_column(columns, cp[i].0));
                assert(prev.contains(cp[i]));
                let j = choose|j: int| 0 <= j < prev.len() && prev[j] == cp[i];
                assert(entries[j] == prev[j]);
            }
            assert(entries.contains(entries.last())) by {
                assert(entries[entries.len() - 1] == entries.last());
            }
        }
    }
}

/// A record: a map from column names to values.
pub struct Record(Cells);

impl View for Record {
    type V = Map<Seq<char>, Seq<char>>;

    closed spec fn view(&self) -> Map<Seq<char>, Seq<char>> {
        self.0@
    }
}

impl Record {
    /// The cells, in the order in which they are kept.
    pub closed spec fn entries(&self) -> Seq<(Seq<char>, Seq<char>)> {
        self.0.entries()
    }

    /// Well-formed: no column occurs twice.
    pub closed spec fn wf(&self) -> bool {
        self.0.wf()
    }

    /// The record whose cells `entries` set in order.
    pub fn from_entries(entries: Vec<(String, String)>) -> (r: Record)
        ensures
            r.wf(),
            r@ == entries_map(entry_views(entries@)),
    {
        Record(Cells::from_entries(entries))
    }

    /// The cells, in the order in which they are kept.
    pub fn to_entries(&self) -> (r: Vec<(String, String)>)
        ensures
            entry_views(r@) == self.entries(),
    {
        self.0.to_entries()
    }

    /// Retains any attribute found in the schema: copies the `key` cell to
    /// `id`, drops the cells without a column, and adds the `checksum` cell.
    pub fn retain(&mut self, schema: &Schema)
        requires
            old(self).wf(),
            old(self)@.contains_key("key"@),
        ensures
            final(self).wf(),
            final(self)@ == ({
                let kept = column_entries(
                    put_entry(old(self).entries(), "id"@, old(self)@["key"@]),
                    schema.columns@,
                );
                entries_map(kept).insert("checksum"@, dict_checksum(cell_hashes(kept, schema.columns@)))
            }),
    {
        let id = match self.0.get("key") {
            Some(v) => v.clone(),
            None => String::new(),
        };
        self.0.insert(String::from_str("id"), id);
        let ghost all = self.entries();
        let ghost columns = schema.columns@;
        let mut kept = Cells::new();
        let n = self.0.len();
        let mut i: usize = 0;
        assert(all.take(0) =~= Seq::<(Seq<char>, Seq<char>)>::empty());
        assert(kept.entries() =~= column_entries(all.take(0), columns));
        while i < n
            invariant
                self.wf(),
                all == self.entries(),
                columns == schema.columns@,
                n == all.len(),
                i <= n,
                kept.wf(),
                kept.entries() == column_entries(all.take(i as int), columns),
            decreases n - i,
        {
            let (key, value) = self.0.entry(i);
            let ghost prefix = all.take(i + 1);
            assert(prefix.drop_last() =~= all.take(i as int));
            assert(prefix.last() == (key@, value@));
            proof {
                lemma_first_column(columns, key@);
            }
            if schema.contains_column(key.as_str()) {
                proof {
                    assert(unique_keys(all));
                    lemma_column_entries(all.take(i as int), columns);
                    crate::cells::lemma_key_index(kept.entries(), key@);
                    let ce = column_entries(all.take(i as int), columns);
                    assert forall|j: int| 0 <= j < ce.len() implies #[trigger] ce[j].0 != key@ by {
                        let m = choose|m: int| 0 <= m < all.take(i as int).len() && all.take(i as int)[m] == ce[j];
                        assert(all[m] == ce[j]);
                    }
                }
                kept.insert(key.clone(), value.clone());
            }
            i = i + 1;
        }
        assert(all.take(n as int) =~= all);
        proof {
            lemma_column_entries(all, columns);
        }
        self.0 = kept;
        proof {
            let ke = column_entries(all, columns);
            assert forall|k: Seq<char>|
                #[trigger] self@.contains_key(k) && self@[k].len() > 0 implies has_column(
                columns,
                k,
            ) by {
                lemma_entries_map_lookup(ke, k);
                let j = choose|j: int| 0 <= j < ke.len() && #[trigger] ke[j].0 == k;
                assert(has_column(columns, ke[j].0));
            }
        }
        let checksum = self.checksum(schema);
        self.0.insert(String::from_str("checksum"), checksum);
    }

    /// Checksum is an implementation of a Blot dictionary after filtering out
    /// empty cells and tranforming multivalue cells into sets of values.
    pub fn checksum(&self, schema: &Schema) -> (r: String)
        requires
            self.wf(),
            cells_have_columns(self@, schema.columns@),
        ensures
            r@ == dict_checksum(cell_hashes(self.entries(), schema.columns@)),
    {
        let ghost all = self.entries();
        let ghost columns = schema.columns@;
        let n = self.0.len();
        let mut hashes: Vec<Vec<u8>> = Vec::new();
        let mut i: usize = 0;
        assert(all.take(0) =~= Seq::<(Seq<char>, Seq<char>)>::empty());
        assert(byte_views(hashes@) =~= Seq::<Seq<u8>>::empty());
        while i < n
            invariant
                self.wf(),
                cells_have_columns(self@, columns),
                all == self.entries(),
                columns == schema.columns@,
                n == all.len(),
                i <= n,
                byte_views(hashes@) == cell_hashes(all.take(i as int), columns),
            decreases n - i,
        {
            let (key, value) = self.0.entry(i);
            let ghost prefix = all.take(i + 1);
            assert(prefix.drop_last() =~= all.take(i as int));
            assert(prefix.last() == (key@, value@));
            if !value.as_str().is_empty() {
                proof {
                    lemma_entries_map_lookup(all, key@);
                    assert(all[i as int].0 == key@);
                    assert(self@.contains_key(key@));
                    assert(self@[key@] == value@);
                    lemma_first_column(columns, key@);
                }
                let column = match schema.column(key.as_str()) {
                    Some(c) => c,
                    None => {
                        assert(false);
                        return String::new();
                    },
                };
                let mut leaf = blot_text(key.as_str());
                let mut tail = match column.separator {
                    Some(sep) => {
                        let parts = split(value.as_str(), sep);
                        blot_text_set(&parts)
                    },
                    None => blot_text(value.as_str()),
                };
                let ghost before = byte_views(hashes@);
                leaf.append(&mut tail);
                let ghost lv = leaf@;
                hashes.push(leaf);
                assert(byte_views(hashes@) =~= before.push(lv));
            }
            i = i + 1;
        }
        assert(all.take(n as int) =~= all);
        let sorted = sort_byte_strings(hashes);
        let digest = digest_dict(sorted);
        render_multihash(digest)
    }
}

/// Law: the checksum of a record depends only on its cells, not on the
/// order in which they are kept.
pub proof fn law_checksum_ignores_order(a: Record, b: Record, columns: Seq<Column>)
    requires
        a.wf(),
        b.wf(),
        a@ == b@,
    ensures
        dict_checksum(cell_hashes(a.entries(), columns)) == dict_checksum(
            cell_hashes(b.entries(), columns),
        ),
{
    lemma_collect_hashes_same_map(a.entries(), b.entries(), nonempty_cell_hash(columns));
    lemma_sorted_bytes_same_multiset(
        cell_hashes(a.entries(), columns),
        cell_hashes(b.entries(), columns),
    );
}

/// Law: empty cells are filtered out: a record with one more cell, whose
/// value is empty, has the same checksum.
pub proof fn law_empty_cells_ignored(a: Record, b: Record, columns: Seq<Column>, key: Seq<char>)
    requires
        a.wf(),
        b.wf(),
        !a@.contains_key(key),
        b@ == a@.insert(key, Seq::empty()),
    ensures
        dict_checksum(cell_hashes(a.entries(), columns)) == dict_checksum(
            cell_hashes(b.entries(), columns),
        ),
{
    assert(a@.remove(key) =~= b@.remove(key));
    lemma_collect_hashes_replace(a.entries(), b.entries(), nonempty_cell_hash(columns), key);
    lemma_sorted_bytes_same_multiset(
        cell_hashes(a.entries(), columns),
        cell_hashes(b.entries(), columns),
    );
}

/// Law: a multivalue cell counts as the set of its values: changing the
/// value of a cell whose column has a separator to one with the same set of
/// parts (in another order, or with a part repeated) keeps the checksum.
pub proof fn law_multivalue_cells_are_sets(
    a: Record,
    b: Record,
    columns: Seq<Column>,
    key: Seq<char>,
    value: Seq<char>,
    sep: char,
)
    requires
        a.wf(),
        b.wf(),
        a@.contains_key(key),
        has_column(columns, key),
        columns[first_column(columns, key)->0].separator == Some(sep),
        a@[key].len() > 0,
        value.len() > 0,
        split_on(a@[key], sep).to_set() == split_on(value, sep).to_set(),
        b@ == a@.insert(key, value),
    ensures
        dict_checksum(cell_hashes(a.entries(), columns)) == dict_checksum(
            cell_hashes(b.entries(), columns),
        ),
{
    assert(a@.remove(key) =~= b@.remove(key));
    assert((nonempty_cell_hash(columns))(key, a@[key]) == (nonempty_cell_hash(columns))(
        key,
        value,
    ));
    lemma_collect_hashes_replace(a.entries(), b.entries(), nonempty_cell_hash(columns), key);
    lemma_sorted_bytes_same_multiset(
        cell_hashes(a.entries(), columns),
        cell_hashes(b.entries(), columns),
    );
}

/// Whether two values count as the same in the column of `key`: they are
/// equal, or that column has a separator and they are made of the same set
/// of parts.
pub open spec fn same_cell_value(columns: Seq<Column>, key: Seq<char>, v1: Seq<char>, v2: Seq<char>) -> bool {
    ||| v1 == v2
    ||| has_column(columns, key) && match columns[first_column(columns, key)->0].separator {
        Some(sep) => split_on(v1, sep).to_set() == split_on(v2, sep).to_set(),
        None => false,
    }
}

/// Whether a cell is there and not empty.
pub open spec fn nonempty_cell(cells: Map<Seq<char>, Seq<char>>, key: Seq<char>) -> bool {
    cells.contains_key(key) && cells[key].len() > 0
}

/// Whether two records have the same cells once empty cells are left out,
/// up to `same_cell_value`.
pub open spec fn same_nonempty_cells(
    columns: Seq<Column>,
    a: Map<Seq<char>, Seq<char>>,
    b: Map<Seq<char>, Seq<char>>,
) -> bool {
    forall|k: Seq<char>|
        #![trigger a.contains_key(k)]
        #![trigger b.contains_key(k)]
        (nonempty_cell(a, k) <==> nonempty_cell(b, k)) && (nonempty_cell(a, k) ==> same_cell_value(
            columns,
            k,
            a[k],
            b[k],
        ))
}

/// Law: the checksum leaves empty cells out and reads multivalue cells as
/// sets: records with the same non-empty cells, where the values of a
/// multivalue cell may differ in order or repetition of their parts, have
/// the same checksum, however many empty cells either has.
pub proof fn law_checksum_same_nonempty_cells(a: Record, b: Record, columns: Seq<Column>)
    requires
        a.wf(),
        b.wf(),
        same_nonempty_cells(columns, a@, b@),
    ensures
        dict_checksum(cell_hashes(a.entries(), columns)) == dict_checksum(
            cell_hashes(b.entries(), columns),
        ),
{
    let h = nonempty_cell_hash(columns);
    assert forall|k: Seq<char>| #[trigger]
        keyed_hash(entries_map(a.entries()), h, k) == keyed_hash(entries_map(b.entries()), h, k) by {
        if a@.contains_key(k) && b@.contains_key(k) && nonempty_cell(a@, k) {
            assert(same_cell_value(columns, k, a@[k], b@[k]));
            assert(cell_hash(columns, k, a@[k]) == cell_hash(columns, k, b@[k]));
        }
    }
    lemma_collect_hashes_same_hashes(a.entries(), b.entries(), h);
    lemma_sorted_bytes_same_multiset(cell_hashes(a.entries(), columns), cell_hashes(b.entries(), columns));
}

/// Law: the checksum hashes each non-empty cell whole: adding a cell `key`
/// → `value` (not empty, its key a column's name) adds to the hashes the
/// dictionary digest is taken over exactly the Blot hash of the key
/// followed by the Blot hash of the whole value, or of the set of its parts
/// where the column has a separator.
pub proof fn law_checksum_adds_cell(
    a: Record,
    b: Record,
    columns: Seq<Column>,
    key: Seq<char>,
    value: Seq<char>,
)
    requires
        a.wf(),
        b.wf(),
        !a@.contains_key(key),
        b@ == a@.insert(key, value),
        value.len() > 0,
        has_column(columns, key),
    ensures
        dict_checksum(cell_hashes(b.entries(), columns)) == multihash_text(
            dict_digest(
                sorted_bytes(
                    cell_hashes(a.entries(), columns).push(
                        unicode_blot(key) + match columns[first_column(columns, key)->0].separator {
                            Some(sep) => set_blot(split_on(value, sep).to_set()),
                            None => unicode_blot(value),
                        },
                    ),
                ),
            ),
        ),
{
    let e = a.entries();
    let e2 = e.push((key, value));
    lemma_entries_map_lookup(e, key);
    assert(unique_keys(e2)) by {
        assert forall|i: int, j: int| 0 <= i < j < e2.len() implies e2[i].0 != e2[j].0 by {
            if j == e.len() {
                assert(e2[i] == e[i]);
            } else {
                assert(e2[i] == e[i] && e2[j] == e[j]);
            }
        }
    }
    assert(e2.drop_last() =~= e);
    assert(e2.last() == (key, value));
    assert(entries_map(e2) == b@);
    let h = nonempty_cell_hash(columns);
    lemma_collect_hashes_same_map(b.entries(), e2, h);
    assert(collect_hashes(e2, h) == collect_hashes(e, h).push(cell_hash(columns, key, value)));
    lemma_sorted_bytes_same_multiset(cell_hashes(b.entries(), columns), collect_hashes(e2, h));
}

/// Law: a record all of whose cells are empty has the checksum of the empty
/// dictionary.
pub proof fn law_checksum_of_empty_cells(a: Record, columns: Seq<Column>)
    requires
        a.wf(),
        forall|k: Seq<char>| #[trigger] a@.contains_key(k) ==> a@[k].len() == 0,
    ensures
        dict_checksum(cell_hashes(a.entries(), columns)) == multihash_text(dict_digest(Seq::empty())),
{
    let h = nonempty_cell_hash(columns);
    let none = Seq::<(Seq<char>, Seq<char>)>::empty();
    assert forall|k: Seq<char>| #[trigger]
        keyed_hash(entries_map(a.entries()), h, k) == keyed_hash(entries_map(none), h, k) by {
        if a@.contains_key(k) {
        }
    }
    lemma_collect_hashes_same_hashes(a.entries(), none, h);
    lemma_sorted_bytes_same_multiset(cell_hashes(a.entries(), columns), Seq::empty());
    lemma_sorted_bytes_unique(Seq::empty(), Seq::empty());
}

/// The views of records.
pub open spec fn record_views(records: Seq<Record>) -> Seq<Map<Seq<char>, Seq<char>>> {
    Seq::new(records.len(), |i: int| records[i]@)
}

/// Records, in order.
pub struct Records(Vec<Record>);

impl View for Records {
    type V = Seq<Map<Seq<char>, Seq<char>>>;

    closed spec fn view(&self) -> Seq<Map<Seq<char>, Seq<char>>> {
        record_views(self.0@)
    }
}

impl Records {
    pub fn new() -> (r: Records)
        ensures
            r@ == Seq::<Map<Seq<char>, Seq<char>>>::empty(),
    {
        let r = Records(Vec::new());
        assert(r@ =~= Seq::<Map<Seq<char>, Seq<char>>>::empty());
        r
    }

    /// The given records, in order.
    pub fn from_records(records: Vec<Record>) -> (r: Records)
        ensures
            r@ == record_views(records@),
    {
        Records(records)
    }

    pub fn len(&self) -> (r: usize)
        ensures
            r == self@.len(),
    {
        self.0.len()
    }

    /// Appends the records of `other`.
    pub fn extend(&mut self, other: Records)
        ensures
            final(self)@ == old(self)@ + other@,
    {
        let mut other = other;
        let ghost a = self@;
        let ghost b = other@;
        self.0.append(&mut other.0);
        assert(self@ =~= a + b);
    }
}

/// A storage of records.
pub trait Storage {
    /// Reads the records; the error is a message.
    fn read(&mut self) -> Result<(), String>;

    /// Writes the records; the error is a message.
    fn write(&self) -> Result<(), String>;

    /// The records read.
    fn records(&self) -> &Records;
}

/// Fetching a records page failed.
#[derive(Debug)]
pub struct FetchError;

impl FetchError {
    /// What went wrong.
    pub fn message(&self) -> (r: String)
        ensures
            r@ == "Unexpected error while fetching a records page"@,
    {
        String::from_str("Unexpected error while fetching a records page")
    }
}

} // verus!
