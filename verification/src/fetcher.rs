//! Records of a register, fetched page by page and kept by key.
use vstd::prelude::*;

use crate::cells::{
    entries_map, entry_views, lemma_entries_map_lookup, lemma_entries_map_update,
    lemma_key_index, unique_keys, Cells,
};
use crate::link_header::{all_visible_ascii, ascii_text};
use crate::text::{contains_text, occurs_in, same_text};

verus! {

/// A register entry's item: a map from field names to values.
#[derive(Debug)]
pub struct Blob(Cells);

impl View for Blob {
    type V = Map<Seq<char>, Seq<char>>;

    closed spec fn view(&self) -> Map<Seq<char>, Seq<char>> {
        self.0@
    }
}

impl Blob {
    /// Well-formed: no field occurs twice.
    pub closed spec fn wf(&self) -> bool {
        self.0.wf()
    }

    /// The blob whose fields `entries` set in order.
    pub fn from_entries(entries: Vec<(String, String)>) -> (r: Blob)
        ensures
            r.wf(),
            r@ == entries_map(entry_views(entries@)),
    {
        Blob(Cells::from_entries(entries))
    }

    /// The fields, in the order in which they are kept.
    pub fn to_entries(&self) -> (r: Vec<(String, String)>)
        requires
            self.wf(),
        ensures
            entries_map(entry_views(r@)) == self@,
            unique_keys(entry_views(r@)),
    {
        self.0.to_entries()
    }
}

/// A register entry.
#[derive(Debug)]
pub struct Record {
    pub id: String,
    pub number: String,
    pub timestamp: String,
    pub blob: Vec<Blob>,
}

impl Record {
    /// The entry's first item.
    pub fn blob(&self) -> (r: &Blob)
        requires
            self.blob.len() > 0,
        ensures
            *r == self.blob@[0],
    {
        &self.blob[0]
    }
}

/// The views of keyed records.
pub open spec fn keyed_views(entries: Seq<(String, Record)>) -> Seq<(Seq<char>, Record)> {
    Seq::new(entries.len(), |i: int| (entries[i].0@, entries[i].1))
}

/// Fetching a records page failed.
#[derive(Debug)]
pub struct FetchError;

impl FetchError {
    /// What went wrong.
    pub fn message(&self) -> (r: String)
        ensures
            r@ == "Unexpected error while fetching a records page"@,
    {
        String::from_str("Unexpected error while fetching a records page")
    }
}

/// Why a records page could not be taken.
#[derive(Debug)]
pub enum PageError {
    /// The page did not come with status OK.
    Fetch(FetchError),
    /// The `Link` header holds a byte that is not visible ASCII.
    NotText,
}

/// The register's records, by key.
#[derive(Debug)]
pub struct Records {
    entries: Vec<(String, Record)>,
}

impl View for Records {
    type V = Map<Seq<char>, Record>;

    closed spec fn view(&self) -> Map<Seq<char>, Record> {
        entries_map(keyed_views(self.entries@))
    }
}

/// The address of the page after the one at `url`.
pub open spec fn next_page_url(url: Seq<char>) -> Seq<char> {
    url + "?page-index=2"@
}

impl Records {
    /// Well-formed: no key occurs twice.
    pub closed spec fn wf(&self) -> bool {
        unique_keys(keyed_views(self.entries@))
    }

    pub fn new() -> (r: Records)
        ensures
            r.wf(),
            r@ == Map::<Seq<char>, Record>::empty(),
    {
        let r = Records { entries: Vec::new() };
        assert(keyed_views(r.entries@) =~= Seq::<(Seq<char>, Record)>::empty());
        r
    }

    /// The records that setting each entry's record under its key, in order,
    /// gives (a later entry replaces an earlier one with the same key).
    pub fn from_entries(entries: Vec<(String, Record)>) -> (r: Records)
        ensures
            r.wf(),
            r@ == entries_map(keyed_views(entries@)),
    {
        let ghost all = keyed_views(entries@);
        let mut r = Records::new();
        let mut rest = entries;
        let ghost mut i: int = 0;
        assert(all.take(0) =~= Seq::<(Seq<char>, Record)>::empty());
        assert(all.skip(0) =~= all);
        while rest.len() > 0
            invariant
                0 <= i <= all.len(),
                r.wf(),
                keyed_views(rest@) == all.skip(i),
                r@ == entries_map(all.take(i)),
            decreases rest.len(),
        {
            let ghost rb = keyed_views(rest@);
            assert(rb.len() == rest.len());
            assert(rb[0] == all[i]);
            let (key, record) = rest.remove(0);
            assert(keyed_views(rest@) =~= rb.drop_first());
            assert(rb.drop_first() =~= all.skip(i + 1));
            r.insert(key, record);
            proof {
                assert(all.take(i + 1).drop_last() =~= all.take(i));
                i = i + 1;
            }
        }
        assert(all.take(i) =~= all);
        r
    }

    /// The record of `key`.
    pub fn get(&self, key: &str) -> (r: Option<&Record>)
        requires
            self.wf(),
        ensures
            match r {
                Some(rec) => self@.contains_key(key@) && *rec == self@[key@],
                None => !self@.contains_key(key@),
            },
    {
        let ghost kv = keyed_views(self.entries@);
        proof {
            lemma_entries_map_lookup(kv, key@);
        }
        let mut i: usize = 0;
        while i < self.entries.len()
            invariant
                kv == keyed_views(self.entries@),
                unique_keys(kv),
                i <= self.entries.len(),
                forall|j: int| 0 <= j < i ==> kv[j].0 != key@,
            decreases self.entries.len() - i,
        {
            if same_text(self.entries[i].0.as_str(), key) {
                assert(kv[i as int].0 == key@);
                proof {
                    lemma_entries_map_lookup(kv, key@);
                }
                return Some(&self.entries[i].1);
            }
            i = i + 1;
        }
        None
    }

    /// The number of records.
    pub fn len(&self) -> (r: usize)
        requires
            self.wf(),
        ensures
            r == self@.len(),
    {
        proof {
            crate::cells::lemma_entries_map_finite(keyed_views(self.entries@));
        }
        self.entries.len()
    }

    /// Writing the records is not done yet: it succeeds and writes nothing.
    pub fn write(&self) -> (r: Result<(), FetchError>)
        ensures
            r is Ok,
    {
        Ok(())
    }

    /// Sets the record of `key`.
    fn insert(&mut self, key: String, record: Record)
        requires
            old(self).wf(),
        ensures
            final(self).wf(),
            final(self)@ == old(self)@.insert(key@, record),
    {
        let ghost before = keyed_views(self.entries@);
        proof {
            lemma_key_index(before, key@);
            lemma_entries_map_lookup(before, key@);
        }
        let mut i: usize = 0;
        while i < self.entries.len()
            invariant
                before == keyed_views(self.entries@),
                before == keyed_views(old(self).entries@),
                unique_keys(before),
                i <= self.entries.len(),
                forall|j: int| 0 <= j < i ==> before[j].0 != key@,
            decreases self.entries.len() - i,
        {
            if same_text(self.entries[i].0.as_str(), key.as_str()) {
                assert(before[i as int].0 == key@);
                proof {
                    lemma_entries_map_update(before, i as int, record);
                }
                let ghost kv = (key@, record);
                self.entries.set(i, (key, record));
                assert(keyed_views(self.entries@) =~= before.update(i as int, kv));
                return;
            }
            i = i + 1;
        }
        let ghost kv = (key@, record);
        self.entries.push((key, record));
        assert(keyed_views(self.entries@) =~= before.push(kv));
        assert(before.push(kv).drop_last() =~= before);
    }

    /// Adds the records of `other`; a record of `other` replaces one with the
    /// same key.
    pub fn extend(&mut self, other: Records)
        requires
            old(self).wf(),
            other.wf(),
        ensures
            final(self).wf(),
            final(self)@ == old(self)@.union_prefer_right(other@),
    {
        let ghost theirs = keyed_views(other.entries@);
        let ghost mine = self@;
        let mut rest = other.entries;
        let ghost mut i: int = 0;
        assert(theirs.take(0) =~= Seq::<(Seq<char>, Record)>::empty());
        assert(theirs.skip(0) =~= theirs);
        assert(mine.union_prefer_right(entries_map(theirs.take(0))) =~= mine);
        while rest.len() > 0
            invariant
                0 <= i <= theirs.len(),
                self.wf(),
                keyed_views(rest@) == theirs.skip(i),
                self@ == mine.union_prefer_right(entries_map(theirs.take(i))),
            decreases rest.len(),
        {
            let ghost rb = keyed_views(rest@);
            assert(rb.len() == rest.len());
            assert(rb.len() == theirs.len() - i);
            assert(rb[0] == theirs[i]);
            let (key, record) = rest.remove(0);
            assert(keyed_views(rest@) =~= rb.drop_first());
            assert(rb.drop_first() =~= theirs.skip(i + 1));
            self.insert(key, record);
            proof {
                assert(theirs.take(i + 1).drop_last() =~= theirs.take(i));
                assert(self@ =~= mine.union_prefer_right(entries_map(theirs.take(i + 1))));
                i = i + 1;
            }
        }
        assert(theirs.take(i) =~= theirs);
    }

    /// Takes the answer to a request for the page at `url`: `page` is the
    /// records it brought, none where its status was not OK, and `link` the
    /// bytes of its `Link` header, if it had one. Adds the page's records and
    /// gives the address of the next page to fetch, if the header mentions
    /// `next`.
    pub fn take_page(&mut self, page: Option<Records>, link: Option<Vec<u8>>, url: &str) -> (r:
        Result<Option<String>, PageError>)
        requires
            old(self).wf(),
            page matches Some(p) ==> p.wf(),
        ensures
            final(self).wf(),
            match page {
                None => r matches Err(PageError::Fetch(_)) && final(self)@ == old(self)@,
                Some(p) => final(self)@ == old(self)@.union_prefer_right(p@) && match link {
                    None => r matches Ok(None),
                    Some(bytes) => if !all_visible_ascii(bytes@) {
                        r matches Err(PageError::NotText)
                    } else if occurs_in("next"@, ascii_text(bytes@)) {
                        r matches Ok(Some(next)) && next@ == next_page_url(url@)
                    } else {
                        r matches Ok(None)
                    },
                },
            },
    {
        let records = match page {
            Some(p) => p,
            None => {
                return Err(PageError::Fetch(FetchError));
            },
        };
        self.extend(records);
        match link {
            None => Ok(None),
            Some(bytes) => match crate::link_header::header_text(bytes.as_slice()) {
                None => Err(PageError::NotText),
                Some(text) => {
                    if contains_text(text.as_str(), "next") {
                        let mut next = String::from_str(url);
                        next.append("?page-index=2");
                        Ok(Some(next))
                    } else {
                        Ok(None)
                    }
                },
            },
        }
    }
}

/// Law: after `extend`, `get` finds each record of the added records under
/// its key, and every other key as it was.
pub proof fn law_get_after_extend(
    mine: Map<Seq<char>, Record>,
    theirs: Map<Seq<char>, Record>,
    key: Seq<char>,
)
    ensures
        theirs.contains_key(key) ==> mine.union_prefer_right(theirs).contains_key(key)
            && mine.union_prefer_right(theirs)[key] == theirs[key],
        !theirs.contains_key(key) ==> mine.union_prefer_right(theirs).contains_key(key)
            == mine.contains_key(key) && (mine.contains_key(key) ==> mine.union_prefer_right(
            theirs,
        )[key] == mine[key]),
{
}

} // verus!
