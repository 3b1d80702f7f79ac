//! A map from texts to texts, kept as a list of entries with distinct keys.
use vstd::multiset::Multiset;
use vstd::prelude::*;

use crate::text::same_text;

verus! {

/// The views of entries.
pub open spec fn entry_views(entries: Seq<(String, String)>) -> Seq<(Seq<char>, Seq<char>)> {
    Seq::new(entries.len(), |i: int| (entries[i].0@, entries[i].1@))
}

/// No key occurs twice.
pub open spec fn unique_keys<V>(entries: Seq<(Seq<char>, V)>) -> bool {
    forall|i: int, j: int| 0 <= i < j < entries.len() ==> entries[i].0 != entries[j].0
}

/// The map that inserting the entries in order builds (a later entry of a
/// key replaces an earlier one).
pub open spec fn entries_map<V>(entries: Seq<(Seq<char>, V)>) -> Map<Seq<char>, V>
    decreases entries.len(),
{
    if entries.len() == 0 {
        Map::empty()
    } else {
        entries_map(entries.drop_last()).insert(entries.last().0, entries.last().1)
    }
}

pub proof fn lemma_entries_map_lookup<V>(entries: Seq<(Seq<char>, V)>, key: Seq<char>)
    ensures
        entries_map(entries).contains_key(key) <==> exists|i: int|
            0 <= i < entries.len() && #[trigger] entries[i].0 == key,
        unique_keys(entries) ==> forall|i: int|
            0 <= i < entries.len() && #[trigger] entries[i].0 == key ==> entries_map(entries)[key]
                == entries[i].1,
    decreases entries.len(),
{
    if entries.len() > 0 {
        let prev = entries.drop_last();
        lemma_entries_map_lookup(prev, key);
        assert forall|i: int| 0 <= i < prev.len() implies prev[i] == entries[i] by {}
        if entries_map(entries).contains_key(key) && key != entries.last().0 {
            let i = choose|i: int| 0 <= i < prev.len() && #[trigger] prev[i].0 == key;
            assert(entries[i].0 == key);
        }
    }
}

pub proof fn lemma_entries_map_finite<V>(entries: Seq<(Seq<char>, V)>)
    ensures
        entries_map(entries).dom().finite(),
        unique_keys(entries) ==> entries_map(entries).dom().len() == entries.len(),
    decreases entries.len(),
{
    if entries.len() > 0 {
        let prev = entries.drop_last();
        lemma_entries_map_finite(prev);
        if unique_keys(entries) {
            assert(unique_keys(prev));
            lemma_entries_map_lookup(prev, entries.last().0);
            assert forall|i: int| 0 <= i < prev.len() implies prev[i].0 != entries.last().0 by {
                assert(entries[i] == prev[i]);
            }
        }
    }
}

/// Giving the entry of an existing key a new value is inserting it.
pub proof fn lemma_entries_map_update<V>(entries: Seq<(Seq<char>, V)>, j: int, value: V)
    requires
        unique_keys(entries),
        0 <= j < entries.len(),
    ensures
        unique_keys(entries.update(j, (entries[j].0, value))),
        entries_map(entries.update(j, (entries[j].0, value))) == entries_map(entries).insert(
            entries[j].0,
            value,
        ),
{
    let updated = entries.update(j, (entries[j].0, value));
    let target = entries_map(entries).insert(entries[j].0, value);
    assert forall|i: int| 0 <= i < entries.len() implies #[trigger] updated[i].0 == entries[i].0 by {}
    assert(unique_keys(updated));
    assert forall|k: Seq<char>|
        #[trigger] entries_map(updated).contains_key(k) == target.contains_key(k) by {
        lemma_entries_map_lookup(updated, k);
        lemma_entries_map_lookup(entries, k);
        if entries_map(entries).contains_key(k) {
            let i = choose|i: int| 0 <= i < entries.len() && #[trigger] entries[i].0 == k;
            assert(updated[i].0 == k);
        }
        if entries_map(updated).contains_key(k) {
            let i = choose|i: int| 0 <= i < updated.len() && #[trigger] updated[i].0 == k;
            assert(entries[i].0 == k);
        }
    }
    assert forall|k: Seq<char>| #[trigger]
        entries_map(updated).contains_key(k) implies entries_map(updated)[k] == target[k] by {
        lemma_entries_map_lookup(updated, k);
        lemma_entries_map_lookup(entries, k);
        if k == entries[j].0 {
            assert(updated[j].0 == k);
        } else {
            let i = choose|i: int| 0 <= i < updated.len() && #[trigger] updated[i].0 == k;
            assert(entries[i].0 == k);
            assert(updated[i] == entries[i]);
        }
    }
    assert(entries_map(updated) =~= entries_map(entries).insert(entries[j].0, value));
}

/// The position of the first entry of `key`.
pub open spec fn key_index<V>(entries: Seq<(Seq<char>, V)>, key: Seq<char>) -> Option<int>
    decreases entries.len(),
{
    if entries.len() == 0 {
        None
    } else if entries[0].0 == key {
        Some(0)
    } else {
        match key_index(entries.drop_first(), key) {
            Some(i) => Some(i + 1),
            None => None,
        }
    }
}

pub proof fn lemma_key_index<V>(entries: Seq<(Seq<char>, V)>, key: Seq<char>)
    ensures
        match key_index(entries, key) {
            Some(i) => 0 <= i < entries.len() && entries[i].0 == key && forall|j: int|
                0 <= j < i ==> entries[j].0 != key,
            None => forall|j: int| 0 <= j < entries.len() ==> entries[j].0 != key,
        },
    decreases entries.len(),
{
    if entries.len() > 0 {
        lemma_key_index(entries.drop_first(), key);
        if entries[0].0 != key {
            assert forall|j: int| 0 < j < entries.len() implies entries[j]
                == entries.drop_first()[j - 1] by {}
        }
    }
}

/// The entries after setting `key` to `value`: an existing entry keeps its
/// place, a new one comes last.
pub open spec fn put_entry<V>(entries: Seq<(Seq<char>, V)>, key: Seq<char>, value: V) -> Seq<
    (Seq<char>, V),
> {
    match key_index(entries, key) {
        Some(j) => entries.update(j, (key, value)),
        None => entries.push((key, value)),
    }
}

/// A map from texts to texts.
#[derive(Debug)]
pub struct Cells {
    entries: Vec<(String, String)>,
}

impl Cells {
    /// The entries, in the order in which they are kept.
    pub closed spec fn entries(&self) -> Seq<(Seq<char>, Seq<char>)> {
        entry_views(self.entries@)
    }

    /// Well-formed: no key occurs twice.
    pub open spec fn wf(&self) -> bool {
        unique_keys(self.entries())
    }

    pub proof fn lemma_wf(&self)
        requires
            self.wf(),
        ensures
            self@ == entries_map(self.entries()),
            self@.dom().finite(),
            self@.dom().len() == self.entries().len(),
    {
        lemma_entries_map_finite(self.entries());
    }

    pub fn new() -> (r: Cells)
        ensures
            r.wf(),
            r@ == Map::<Seq<char>, Seq<char>>::empty(),
            r.entries() == Seq::<(Seq<char>, Seq<char>)>::empty(),
    {
        let r = Cells { entries: Vec::new() };
        assert(r.entries() =~= Seq::<(Seq<char>, Seq<char>)>::empty());
        r
    }

    /// The number of keys.
    pub fn len(&self) -> (r: usize)
        requires
            self.wf(),
        ensures
            r == self.entries().len(),
            r == self@.dom().len(),
    {
        proof {
            self.lemma_wf();
        }
        self.entries.len()
    }

    /// The entry kept at position `i`.
    pub fn entry(&self, i: usize) -> (r: (&String, &String))
        requires
            i < self.entries().len(),
        ensures
            (r.0@, r.1@) == self.entries()[i as int],
    {
        (&self.entries[i].0, &self.entries[i].1)
    }

    /// The position of `key`.
    fn position(&self, key: &str) -> (r: Option<usize>)
        requires
            self.wf(),
        ensures
            match r {
                Some(i) => i < self.entries().len() && self.entries()[i as int].0 == key@,
                None => forall|i: int|
                    0 <= i < self.entries().len() ==> self.entries()[i].0 != key@,
            },
    {
        let mut i: usize = 0;
        while i < self.entries.len()
            invariant
                i <= self.entries.len(),
                forall|j: int| 0 <= j < i ==> self.entries()[j].0 != key@,
            decreases self.entries.len() - i,
        {
            if same_text(self.entries[i].0.as_str(), key) {
                return Some(i);
            }
            i = i + 1;
        }
        None
    }

    /// The value of `key`.
    pub fn get(&self, key: &str) -> (r: Option<&String>)
        requires
            self.wf(),
        ensures
            match r {
                Some(v) => self@.contains_key(key@) && v@ == self@[key@],
                None => !self@.contains_key(key@),
            },
    {
        proof {
            self.lemma_wf();
            lemma_entries_map_lookup(self.entries(), key@);
        }
        match self.position(key) {
            Some(i) => Some(&self.entries[i].1),
            None => None,
        }
    }

    /// Sets the value of `key`: a new key comes last, an existing one keeps
    /// its place.
    pub fn insert(&mut self, key: String, value: String)
        requires
            old(self).wf(),
        ensures
            final(self).wf(),
            final(self)@ == old(self)@.insert(key@, value@),
            final(self).entries() == put_entry(old(self).entries(), key@, value@),
    {
        proof {
            self.lemma_wf();
            lemma_entries_map_lookup(self.entries(), key@);
            lemma_key_index(self.entries(), key@);
        }
        let ghost before = self.entries();
        match self.position(key.as_str()) {
            Some(i) => {
                proof {
                    lemma_entries_map_update(before, i as int, value@);
                }
                let ghost kv = (key@, value@);
                self.entries.set(i, (key, value));
                assert(self.entries() =~= before.update(i as int, kv));
            },
            None => {
                let ghost kv = (key@, value@);
                self.entries.push((key, value));
                assert(self.entries() =~= before.push(kv));
                assert(before.push(kv).drop_last() =~= before);
                assert(entries_map(before.push(kv)).contains_key(kv.0));
            },
        }
    }

    /// The map that inserting `entries` in order builds.
    pub fn from_entries(entries: Vec<(String, String)>) -> (r: Cells)
        ensures
            r.wf(),
            r@ == entries_map(entry_views(entries@)),
    {
        let ghost all = entry_views(entries@);
        let mut r = Cells::new();
        let mut rest = entries;
        let ghost mut i: int = 0;
        assert(all.take(0) =~= Seq::<(Seq<char>, Seq<char>)>::empty());
        assert(all.skip(0) =~= all);
        while rest.len() > 0
            invariant
                0 <= i <= all.len(),
                r.wf(),
                r@ == entries_map(all.take(i)),
                entry_views(rest@) == all.skip(i),
            decreases rest.len(),
        {
            let ghost rb = entry_views(rest@);
            assert(rb.len() == rest.len());
            assert(rb.len() == all.len() - i);
            assert(rb[0] == all[i]);
            let (key, value) = rest.remove(0);
            assert(entry_views(rest@) =~= rb.drop_first());
            assert(rb.drop_first() =~= all.skip(i + 1));
            r.insert(key, value);
            proof {
                assert(all.take(i + 1).drop_last() =~= all.take(i));
                i = i + 1;
            }
        }
        assert(all.take(i) =~= all);
        r
    }

    /// The entries, in the order in which they are kept.
    pub fn to_entries(&self) -> (r: Vec<(String, String)>)
        ensures
            entry_views(r@) == self.entries(),
    {
        let mut r: Vec<(String, String)> = Vec::new();
        let mut i: usize = 0;
        while i < self.entries.len()
            invariant
                i <= self.entries.len(),
                entry_views(r@) == self.entries().take(i as int),
            decreases self.entries.len() - i,
        {
            let ghost before = entry_views(r@);
            let e = (self.entries[i].0.clone(), self.entries[i].1.clone());
            assert((e.0@, e.1@) == self.entries()[i as int]);
            r.push(e);
            assert(entry_views(r@) =~= before.push(self.entries()[i as int]));
            assert(entry_views(r@) =~= self.entries().take(i + 1));
            i = i + 1;
        }
        assert(self.entries().take(self.entries.len() as int) =~= self.entries());
        r
    }

    /// A copy with the same entries in the same order.
    pub fn duplicate(&self) -> (r: Cells)
        ensures
            r.entries() == self.entries(),
    {
        Cells { entries: self.to_entries() }
    }
}

impl View for Cells {
    type V = Map<Seq<char>, Seq<char>>;

    open spec fn view(&self) -> Map<Seq<char>, Seq<char>> {
        entries_map(self.entries())
    }
}


/// The hashes that `hash` gives the entries, in order, leaving out the
/// entries it gives none.
pub open spec fn collect_hashes(
    entries: Seq<(Seq<char>, Seq<char>)>,
    hash: spec_fn(Seq<char>, Seq<char>) -> Option<Seq<u8>>,
) -> Seq<Seq<u8>>
    decreases entries.len(),
{
    if entries.len() == 0 {
        Seq::empty()
    } else {
        let before = collect_hashes(entries.drop_last(), hash);
        match hash(entries.last().0, entries.last().1) {
            Some(h) => before.push(h),
            None => before,
        }
    }
}

/// The multiset of an optional hash.
pub open spec fn optional_hash(h: Option<Seq<u8>>) -> Multiset<Seq<u8>> {
    match h {
        Some(x) => Multiset::singleton(x),
        None => Multiset::empty(),
    }
}

/// Leaving out an entry leaves out its hash.
pub proof fn lemma_collect_hashes_remove(
    entries: Seq<(Seq<char>, Seq<char>)>,
    hash: spec_fn(Seq<char>, Seq<char>) -> Option<Seq<u8>>,
    j: int,
)
    requires
        0 <= j < entries.len(),
    ensures
        collect_hashes(entries, hash).to_multiset() == collect_hashes(
            entries.remove(j),
            hash,
        ).to_multiset().add(optional_hash(hash(entries[j].0, entries[j].1))),
    decreases entries.len(),
{
    broadcast use vstd::multiset::group_multiset_axioms;
    let last = entries.last();
    let prev = entries.drop_last();
    if let Some(h) = hash(last.0, last.1) {
        vstd::seq_lib::to_multiset_build(collect_hashes(prev, hash), h);
    }
    if j == entries.len() - 1 {
        assert(entries.remove(j) =~= prev);
        assert(collect_hashes(prev, hash).to_multiset().add(Multiset::empty()) =~= collect_hashes(
            prev,
            hash,
        ).to_multiset());
        if let Some(h) = hash(last.0, last.1) {
            assert(collect_hashes(prev, hash).to_multiset().insert(h) =~= collect_hashes(
                prev,
                hash,
            ).to_multiset().add(Multiset::singleton(h)));
        }
    } else {
        lemma_collect_hashes_remove(prev, hash, j);
        let removed = entries.remove(j);
        assert(removed.drop_last() =~= prev.remove(j));
        assert(removed.last() == last);
        assert(prev[j] == entries[j]);
        if let Some(h) = hash(last.0, last.1) {
            vstd::seq_lib::to_multiset_build(collect_hashes(prev.remove(j), hash), h);
            assert(collect_hashes(removed, hash) == collect_hashes(prev.remove(j), hash).push(h));
        } else {
            assert(collect_hashes(removed, hash) == collect_hashes(prev.remove(j), hash));
        }
        let a = collect_hashes(prev.remove(j), hash).to_multiset();
        let o = optional_hash(hash(entries[j].0, entries[j].1));
        if let Some(h) = hash(last.0, last.1) {
            assert(a.add(o).insert(h) =~= a.insert(h).add(o));
        }
    }
}


/// Leaving out the entry at `j` leaves its key out of the map.
pub proof fn lemma_entries_map_remove<V>(entries: Seq<(Seq<char>, V)>, j: int)
    requires
        unique_keys(entries),
        0 <= j < entries.len(),
    ensures
        unique_keys(entries.remove(j)),
        entries_map(entries.remove(j)) == entries_map(entries).remove(entries[j].0),
{
    let r = entries.remove(j);
    let target = entries_map(entries).remove(entries[j].0);
    assert forall|i: int| 0 <= i < r.len() implies #[trigger] r[i] == (if i < j {
        entries[i]
    } else {
        entries[i + 1]
    }) by {}
    assert(unique_keys(r)) by {
        assert forall|a: int, b: int| 0 <= a < b < r.len() implies r[a].0 != r[b].0 by {
            let a2 = if a < j { a } else { a + 1 };
            let b2 = if b < j { b } else { b + 1 };
            assert(r[a] == entries[a2] && r[b] == entries[b2]);
        }
    }
    assert forall|k: Seq<char>| #[trigger] entries_map(r).contains_key(k) == target.contains_key(k) by {
        lemma_entries_map_lookup(r, k);
        lemma_entries_map_lookup(entries, k);
        if entries_map(r).contains_key(k) {
            let i = choose|i: int| 0 <= i < r.len() && #[trigger] r[i].0 == k;
            let i2 = if i < j { i } else { i + 1 };
            assert(entries[i2].0 == k);
            assert(i2 != j);
        }
        if target.contains_key(k) {
            let i = choose|i: int| 0 <= i < entries.len() && #[trigger] entries[i].0 == k;
            assert(i != j);
            let i2 = if i < j { i } else { i - 1 };
            assert(r[i2].0 == k);
        }
    }
    assert forall|k: Seq<char>| #[trigger] entries_map(r).contains_key(k) implies entries_map(r)[k]
        == target[k] by {
        lemma_entries_map_lookup(r, k);
        lemma_entries_map_lookup(entries, k);
        let i = choose|i: int| 0 <= i < r.len() && #[trigger] r[i].0 == k;
        let i2 = if i < j { i } else { i + 1 };
        assert(entries[i2] == r[i]);
    }
    assert(entries_map(r) =~= target);
}

/// Entries with distinct keys that make the same map have the same hashes,
/// whatever their order.
pub proof fn lemma_collect_hashes_same_map(
    e1: Seq<(Seq<char>, Seq<char>)>,
    e2: Seq<(Seq<char>, Seq<char>)>,
    hash: spec_fn(Seq<char>, Seq<char>) -> Option<Seq<u8>>,
)
    requires
        unique_keys(e1),
        unique_keys(e2),
        entries_map(e1) == entries_map(e2),
    ensures
        collect_hashes(e1, hash).to_multiset() == collect_hashes(e2, hash).to_multiset(),
    decreases e1.len(),
{
    if e1.len() == 0 {
        lemma_entries_map_finite(e1);
        lemma_entries_map_finite(e2);
        assert(e2 =~= e1);
    } else {
        let n = e1.len() - 1;
        let k = e1.last().0;
        lemma_entries_map_lookup(e1, k);
        lemma_entries_map_lookup(e2, k);
        assert(e1[n].0 == k);
        let j = choose|j: int| 0 <= j < e2.len() && #[trigger] e2[j].0 == k;
        assert(e2[j] == e1.last());
        lemma_entries_map_remove(e1, n);
        lemma_entries_map_remove(e2, j);
        assert(e1.remove(n) =~= e1.drop_last());
        lemma_collect_hashes_same_map(e1.remove(n), e2.remove(j), hash);
        lemma_collect_hashes_remove(e1, hash, n);
        lemma_collect_hashes_remove(e2, hash, j);
    }
}


/// The hash that `hash` gives the value of `key` in `cells`; none where
/// `cells` has no such key.
pub open spec fn keyed_hash(
    cells: Map<Seq<char>, Seq<char>>,
    hash: spec_fn(Seq<char>, Seq<char>) -> Option<Seq<u8>>,
    key: Seq<char>,
) -> Option<Seq<u8>> {
    if cells.contains_key(key) {
        hash(key, cells[key])
    } else {
        None
    }
}

/// Entries with distinct keys whose maps give every key the same hash have
/// the same hashes, whatever their order.
pub proof fn lemma_collect_hashes_same_hashes(
    e1: Seq<(Seq<char>, Seq<char>)>,
    e2: Seq<(Seq<char>, Seq<char>)>,
    hash: spec_fn(Seq<char>, Seq<char>) -> Option<Seq<u8>>,
)
    requires
        unique_keys(e1),
        unique_keys(e2),
        forall|k: Seq<char>|
            #[trigger] keyed_hash(entries_map(e1), hash, k) == keyed_hash(entries_map(e2), hash, k),
    ensures
        collect_hashes(e1, hash).to_multiset() == collect_hashes(e2, hash).to_multiset(),
    decreases e1.len() + e2.len(),
{
    broadcast use vstd::multiset::group_multiset_axioms;
    if e1.len() == 0 && e2.len() == 0 {
        assert(e1 =~= e2);
    } else {
        let key = if e1.len() > 0 {
            e1.last().0
        } else {
            e2.last().0
        };
        lemma_entries_map_lookup(e1, key);
        lemma_entries_map_lookup(e2, key);
        if e1.len() > 0 {
            assert(e1[e1.len() - 1].0 == key);
        } else {
            assert(e2[e2.len() - 1].0 == key);
        }
        let o = optional_hash(keyed_hash(entries_map(e1), hash, key));
        assert(o == optional_hash(keyed_hash(entries_map(e2), hash, key)));
        let r1 = if entries_map(e1).contains_key(key) {
            let j = choose|j: int| 0 <= j < e1.len() && #[trigger] e1[j].0 == key;
            lemma_entries_map_remove(e1, j);
            lemma_collect_hashes_remove(e1, hash, j);
            e1.remove(j)
        } else {
            assert(entries_map(e1).remove(key) =~= entries_map(e1));
            assert(collect_hashes(e1, hash).to_multiset().add(Multiset::empty()) =~= collect_hashes(
                e1,
                hash,
            ).to_multiset());
            e1
        };
        let r2 = if entries_map(e2).contains_key(key) {
            let j = choose|j: int| 0 <= j < e2.len() && #[trigger] e2[j].0 == key;
            lemma_entries_map_remove(e2, j);
            lemma_collect_hashes_remove(e2, hash, j);
            e2.remove(j)
        } else {
            assert(entries_map(e2).remove(key) =~= entries_map(e2));
            assert(collect_hashes(e2, hash).to_multiset().add(Multiset::empty()) =~= collect_hashes(
                e2,
                hash,
            ).to_multiset());
            e2
        };
        assert(collect_hashes(e1, hash).to_multiset() == collect_hashes(r1, hash).to_multiset().add(o));
        assert(collect_hashes(e2, hash).to_multiset() == collect_hashes(r2, hash).to_multiset().add(o));
        assert(entries_map(r1) == entries_map(e1).remove(key));
        assert(entries_map(r2) == entries_map(e2).remove(key));
        assert forall|k: Seq<char>| #[trigger]
            keyed_hash(entries_map(r1), hash, k) == keyed_hash(entries_map(r2), hash, k) by {
            assert(keyed_hash(entries_map(e1), hash, k) == keyed_hash(entries_map(e2), hash, k));
        }
        lemma_collect_hashes_same_hashes(r1, r2, hash);
    }
}

/// Entries whose maps differ only at `key`, where the hashes of the two
/// values of `key` are the same, have the same hashes, whatever their order;
/// a key present in only one of them counts as long as its hash is none.
pub proof fn lemma_collect_hashes_replace(
    e1: Seq<(Seq<char>, Seq<char>)>,
    e2: Seq<(Seq<char>, Seq<char>)>,
    hash: spec_fn(Seq<char>, Seq<char>) -> Option<Seq<u8>>,
    key: Seq<char>,
)
    requires
        unique_keys(e1),
        unique_keys(e2),
        entries_map(e1).remove(key) == entries_map(e2).remove(key),
        (if entries_map(e1).contains_key(key) {
            hash(key, entries_map(e1)[key])
        } else {
            None
        }) == (if entries_map(e2).contains_key(key) {
            hash(key, entries_map(e2)[key])
        } else {
            None
        }),
    ensures
        collect_hashes(e1, hash).to_multiset() == collect_hashes(e2, hash).to_multiset(),
{
    broadcast use vstd::multiset::group_multiset_axioms;
    lemma_entries_map_lookup(e1, key);
    lemma_entries_map_lookup(e2, key);
    let (r1, o1) = if entries_map(e1).contains_key(key) {
        let j = choose|j: int| 0 <= j < e1.len() && #[trigger] e1[j].0 == key;
        lemma_entries_map_remove(e1, j);
        lemma_collect_hashes_remove(e1, hash, j);
        (e1.remove(j), optional_hash(hash(key, entries_map(e1)[key])))
    } else {
        assert(entries_map(e1).remove(key) =~= entries_map(e1));
        assert(collect_hashes(e1, hash).to_multiset().add(Multiset::empty()) =~= collect_hashes(
            e1,
            hash,
        ).to_multiset());
        (e1, Multiset::empty())
    };
    let (r2, o2) = if entries_map(e2).contains_key(key) {
        let j = choose|j: int| 0 <= j < e2.len() && #[trigger] e2[j].0 == key;
        lemma_entries_map_remove(e2, j);
        lemma_collect_hashes_remove(e2, hash, j);
        (e2.remove(j), optional_hash(hash(key, entries_map(e2)[key])))
    } else {
        assert(entries_map(e2).remove(key) =~= entries_map(e2));
        assert(collect_hashes(e2, hash).to_multiset().add(Multiset::empty()) =~= collect_hashes(
            e2,
            hash,
        ).to_multiset());
        (e2, Multiset::empty())
    };
    assert(o1 == o2);
    lemma_collect_hashes_same_map(r1, r2, hash);
}

} // verus!
