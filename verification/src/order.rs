//! The lexicographic order of byte strings (the order of `Vec<u8>`), and the
//! sort that the checksums use.
use vstd::prelude::*;
use vstd::relations::{sorted_by, total_ordering};

use crate::digest::byte_views;

verus! {

/// `a` comes before `b` or equals it, lexicographically by byte (a proper
/// prefix comes first).
pub open spec fn bytes_le(a: Seq<u8>, b: Seq<u8>) -> bool
    decreases a.len(),
{
    if a.len() == 0 {
        true
    } else if b.len() == 0 {
        false
    } else if a[0] != b[0] {
        a[0] < b[0]
    } else {
        bytes_le(a.drop_first(), b.drop_first())
    }
}

pub open spec fn byte_order() -> spec_fn(Seq<u8>, Seq<u8>) -> bool {
    |a: Seq<u8>, b: Seq<u8>| bytes_le(a, b)
}

/// `list` in ascending order.
pub open spec fn sorted_bytes(list: Seq<Seq<u8>>) -> Seq<Seq<u8>> {
    list.sort_by(byte_order())
}

proof fn lemma_bytes_le_reflexive(a: Seq<u8>)
    ensures
        bytes_le(a, a),
    decreases a.len(),
{
    if a.len() > 0 {
        lemma_bytes_le_reflexive(a.drop_first());
    }
}

proof fn lemma_bytes_le_antisymmetric(a: Seq<u8>, b: Seq<u8>)
    requires
        bytes_le(a, b),
        bytes_le(b, a),
    ensures
        a == b,
    decreases a.len(),
{
    if a.len() > 0 && b.len() > 0 {
        lemma_bytes_le_antisymmetric(a.drop_first(), b.drop_first());
        assert(a =~= seq![a[0]] + a.drop_first());
        assert(b =~= seq![b[0]] + b.drop_first());
    } else {
        assert(a =~= b);
    }
}

proof fn lemma_bytes_le_transitive(a: Seq<u8>, b: Seq<u8>, c: Seq<u8>)
    requires
        bytes_le(a, b),
        bytes_le(b, c),
    ensures
        bytes_le(a, c),
    decreases a.len(),
{
    if a.len() > 0 && b.len() > 0 && c.len() > 0 && a[0] == b[0] && b[0] == c[0] {
        lemma_bytes_le_transitive(a.drop_first(), b.drop_first(), c.drop_first());
    }
}

proof fn lemma_bytes_le_total(a: Seq<u8>, b: Seq<u8>)
    ensures
        bytes_le(a, b) || bytes_le(b, a),
    decreases a.len(),
{
    if a.len() > 0 && b.len() > 0 && a[0] == b[0] {
        lemma_bytes_le_total(a.drop_first(), b.drop_first());
    }
}

/// The lexicographic order of byte strings is a total order.
pub proof fn lemma_byte_order_total()
    ensures
        total_ordering(byte_order()),
{
    assert forall|a: Seq<u8>| #[trigger] (byte_order())(a, a) by {
        lemma_bytes_le_reflexive(a);
    }
    assert forall|a: Seq<u8>, b: Seq<u8>|
        #[trigger] (byte_order())(a, b) && #[trigger] (byte_order())(b, a) implies a == b by {
        lemma_bytes_le_antisymmetric(a, b);
    }
    assert forall|a: Seq<u8>, b: Seq<u8>, c: Seq<u8>|
        #[trigger] (byte_order())(a, b) && #[trigger] (byte_order())(b, c) implies (byte_order())(
        a,
        c,
    ) by {
        lemma_bytes_le_transitive(a, b, c);
    }
    assert forall|a: Seq<u8>, b: Seq<u8>|
        #[trigger] (byte_order())(a, b) || #[trigger] (byte_order())(b, a) by {
        lemma_bytes_le_total(a, b);
    }
}

/// A sorted sequence with the elements of `list` is `sorted_bytes(list)`.
pub proof fn lemma_sorted_bytes_unique(list: Seq<Seq<u8>>, s: Seq<Seq<u8>>)
    requires
        sorted_by(s, byte_order()),
        s.to_multiset() == list.to_multiset(),
    ensures
        s == sorted_bytes(list),
{
    lemma_byte_order_total();
    list.lemma_sort_by_ensures(byte_order());
    vstd::seq_lib::lemma_sorted_unique(s, sorted_bytes(list), byte_order());
}

/// Byte strings with the same elements sort to the same sequence.
pub proof fn lemma_sorted_bytes_same_multiset(a: Seq<Seq<u8>>, b: Seq<Seq<u8>>)
    requires
        a.to_multiset() == b.to_multiset(),
    ensures
        sorted_bytes(a) == sorted_bytes(b),
{
    lemma_byte_order_total();
    a.lemma_sort_by_ensures(byte_order());
    b.lemma_sort_by_ensures(byte_order());
    vstd::seq_lib::lemma_sorted_unique(sorted_bytes(a), sorted_bytes(b), byte_order());
}

/// Whether `a` comes before `b` or equals it, lexicographically.
pub fn bytes_le_exec(a: &Vec<u8>, b: &Vec<u8>) -> (r: bool)
    ensures
        r == bytes_le(a@, b@),
{
    let mut i: usize = 0;
    assert(a@.skip(0) =~= a@);
    assert(b@.skip(0) =~= b@);
    while i < a.len() && i < b.len() && a[i] == b[i]
        invariant
            i <= a.len(),
            i <= b.len(),
            bytes_le(a@, b@) == bytes_le(a@.skip(i as int), b@.skip(i as int)),
        decreases a.len() - i,
    {
        assert(a@.skip(i as int).drop_first() =~= a@.skip(i + 1));
        assert(b@.skip(i as int).drop_first() =~= b@.skip(i + 1));
        i = i + 1;
    }
    if i == a.len() {
        true
    } else if i == b.len() {
        false
    } else {
        a[i] < b[i]
    }
}

/// `list` in ascending order (as `sort_unstable` of `Vec<Vec<u8>>`).
pub fn sort_byte_strings(list: Vec<Vec<u8>>) -> (r: Vec<Vec<u8>>)
    ensures
        byte_views(r@) == sorted_bytes(byte_views(list@)),
{
    let ghost all = byte_views(list@);
    let mut rest = list;
    let mut out: Vec<Vec<u8>> = Vec::new();
    let ghost mut i: int = 0;
    proof {
        lemma_byte_order_total();
    }
    assert(all.skip(0) =~= all);
    assert(all.take(0) =~= Seq::<Seq<u8>>::empty());
    assert(byte_views(out@) =~= Seq::<Seq<u8>>::empty());
    while rest.len() > 0
        invariant
            total_ordering(byte_order()),
            0 <= i <= all.len(),
            byte_views(rest@) == all.skip(i),
            sorted_by(byte_views(out@), byte_order()),
            byte_views(out@).to_multiset() == all.take(i).to_multiset(),
        decreases rest.len(),
    {
        let ghost before = byte_views(out@);
        let ghost rb = byte_views(rest@);
        assert(rb.len() == all.len() - i);
        assert(rb[0] == all[i]);
        let x = rest.remove(0);
        assert(x@ == rb[0]);
        assert(byte_views(rest@) =~= rb.drop_first());
        assert(rb.drop_first() =~= all.skip(i + 1));
        let mut j: usize = 0;
        while j < out.len() && !bytes_le_exec(&x, &out[j])
            invariant
                before == byte_views(out@),
                j <= out.len(),
                forall|k: int| 0 <= k < j ==> !bytes_le(x@, #[trigger] before[k]),
            decreases out.len() - j,
        {
            j = j + 1;
        }
        let ghost xv = x@;
        out.insert(j, x);
        assert(byte_views(out@) =~= before.insert(j as int, xv));
        assert(sorted_by(byte_views(out@), byte_order())) by {
            assert forall|p: int, q: int| 0 <= p < q < byte_views(out@).len() implies #[trigger] (
            byte_order())(byte_views(out@)[p], byte_views(out@)[q]) by {
                let s = byte_views(out@);
                let r = byte_order();
                if p < j && q < j {
                    assert(s[p] == before[p] && s[q] == before[q]);
                    assert(r(before[p], before[q]));
                } else if p < j && q == j {
                    assert(s[p] == before[p]);
                    assert(!r(xv, before[p]));
                    assert(r(xv, before[p]) || r(before[p], xv));
                } else if p < j {
                    assert(s[p] == before[p] && s[q] == before[q - 1]);
                    assert(r(before[p], before[q - 1]));
                } else if p == j {
                    assert(s[q] == before[q - 1]);
                    assert(r(xv, before[j as int]));
                    if q - 1 > j {
                        assert(r(before[j as int], before[q - 1]));
                        assert(r(xv, before[j as int]) && r(before[j as int], before[q - 1]));
                    }
                } else {
                    assert(s[p] == before[p - 1] && s[q] == before[q - 1]);
                    assert(r(before[p - 1], before[q - 1]));
                }
            }
        }
        proof {
            vstd::seq_lib::to_multiset_insert(before, j as int, xv);
            assert(all.take(i + 1) =~= all.take(i).push(xv));
            vstd::seq_lib::to_multiset_build(all.take(i), xv);
            i = i + 1;
        }
    }
    assert(all.take(i) =~= all);
    proof {
        lemma_sorted_bytes_unique(all, byte_views(out@));
    }
    out
}

/// `a` comes before `b` or equals it, lexicographically by character (the
/// order of `String`, whose UTF-8 bytes order as their characters do).
pub open spec fn text_le(a: Seq<char>, b: Seq<char>) -> bool
    decreases a.len(),
{
    if a.len() == 0 {
        true
    } else if b.len() == 0 {
        false
    } else if a[0] != b[0] {
        a[0] < b[0]
    } else {
        text_le(a.drop_first(), b.drop_first())
    }
}

/// The order of `Option<String>`: nothing first, then the texts in order.
pub open spec fn optional_text_le(a: Option<Seq<char>>, b: Option<Seq<char>>) -> bool {
    match (a, b) {
        (None, _) => true,
        (Some(_), None) => false,
        (Some(x), Some(y)) => text_le(x, y),
    }
}

pub proof fn lemma_text_le_transitive(a: Seq<char>, b: Seq<char>, c: Seq<char>)
    requires
        text_le(a, b),
        text_le(b, c),
    ensures
        text_le(a, c),
    decreases a.len(),
{
    if a.len() > 0 && b.len() > 0 && c.len() > 0 && a[0] == b[0] && b[0] == c[0] {
        lemma_text_le_transitive(a.drop_first(), b.drop_first(), c.drop_first());
    }
}

pub proof fn lemma_text_le_total(a: Seq<char>, b: Seq<char>)
    ensures
        text_le(a, b) || text_le(b, a),
    decreases a.len(),
{
    if a.len() > 0 && b.len() > 0 && a[0] == b[0] {
        lemma_text_le_total(a.drop_first(), b.drop_first());
    }
}

#[verifier::spinoff_prover]
pub proof fn lemma_text_le_antisymmetric(a: Seq<char>, b: Seq<char>)
    requires
        text_le(a, b),
        text_le(b, a),
    ensures
        a == b,
    decreases a.len(),
{
    if a.len() > 0 && b.len() > 0 {
        assert(a[0] == b[0]);
        lemma_text_le_antisymmetric(a.drop_first(), b.drop_first());
        assert(a =~= seq![a[0]] + a.drop_first());
        assert(b =~= seq![b[0]] + b.drop_first());
    } else {
        assert(a =~= b);
    }
}

pub proof fn lemma_text_le_reflexive(a: Seq<char>)
    ensures
        text_le(a, a),
    decreases a.len(),
{
    if a.len() > 0 {
        lemma_text_le_reflexive(a.drop_first());
    }
}

pub proof fn lemma_optional_text_le_order(a: Option<Seq<char>>, b: Option<Seq<char>>)
    ensures
        optional_text_le(a, a),
        optional_text_le(a, b) && optional_text_le(b, a) ==> a == b,
{
    if let Some(x) = a {
        lemma_text_le_reflexive(x);
        if let Some(y) = b {
            if text_le(x, y) && text_le(y, x) {
                lemma_text_le_antisymmetric(x, y);
            }
        }
    }
}

pub proof fn lemma_optional_text_le(a: Option<Seq<char>>, b: Option<Seq<char>>, c: Option<Seq<char>>)
    ensures
        optional_text_le(a, b) || optional_text_le(b, a),
        optional_text_le(a, b) && optional_text_le(b, c) ==> optional_text_le(a, c),
{
    if let (Some(x), Some(y)) = (a, b) {
        lemma_text_le_total(x, y);
    }
    if let (Some(x), Some(y), Some(z)) = (a, b, c) {
        if text_le(x, y) && text_le(y, z) {
            lemma_text_le_transitive(x, y, z);
        }
    }
}

/// Whether `a` and `b` agree on their first `i` characters and `a`'s next
/// character is smaller than `b`'s.
pub open spec fn first_difference_smaller(a: Seq<char>, b: Seq<char>, i: int) -> bool {
    0 <= i < a.len() && i < b.len() && a.take(i) == b.take(i) && a[i] < b[i]
}

/// Law: the order of texts is lexicographic from the first character: `a`
/// comes before `b` or equals it exactly when `a` is a prefix of `b`, or at
/// the first position where they differ `a` has the smaller character.
pub proof fn law_text_le_lexicographic(a: Seq<char>, b: Seq<char>)
    ensures
        text_le(a, b) <==> (a.len() <= b.len() && b.take(a.len() as int) == a) || exists|i: int|
            #[trigger] first_difference_smaller(a, b, i),
    decreases a.len(),
{
    if a.len() == 0 {
        assert(b.take(0) =~= a);
    } else if b.len() == 0 {
        if exists|i: int| #[trigger] first_difference_smaller(a, b, i) {
            let i = choose|i: int| #[trigger] first_difference_smaller(a, b, i);
        }
    } else if a[0] != b[0] {
        if a.len() <= b.len() && b.take(a.len() as int) == a {
            assert(b.take(a.len() as int)[0] == b[0]);
        }
        if a[0] < b[0] {
            assert(a.take(0) =~= b.take(0));
            assert(first_difference_smaller(a, b, 0));
        }
        if exists|i: int| #[trigger] first_difference_smaller(a, b, i) {
            let i = choose|i: int| #[trigger] first_difference_smaller(a, b, i);
            if i > 0 {
                assert(a.take(i)[0] == b.take(i)[0]);
            }
        }
    } else {
        let a1 = a.drop_first();
        let b1 = b.drop_first();
        law_text_le_lexicographic(a1, b1);
        if a1.len() <= b1.len() && b1.take(a1.len() as int) == a1 {
            assert(b.take(a.len() as int) =~= seq![b[0]] + b1.take(a1.len() as int));
            assert(a =~= seq![a[0]] + a1);
        }
        if a.len() <= b.len() && b.take(a.len() as int) == a {
            assert forall|k: int| 0 <= k < a1.len() implies #[trigger] b1.take(a1.len() as int)[k] == a1[k] by {
                assert(b.take(a.len() as int)[k + 1] == a[k + 1]);
            }
            assert(b1.take(a1.len() as int) =~= a1);
        }
        if exists|i: int| #[trigger] first_difference_smaller(a1, b1, i) {
            let i = choose|i: int| #[trigger] first_difference_smaller(a1, b1, i);
            assert(a.take(i + 1) =~= seq![a[0]] + a1.take(i));
            assert(b.take(i + 1) =~= seq![b[0]] + b1.take(i));
            assert(first_difference_smaller(a, b, i + 1));
        }
        if exists|i: int| #[trigger] first_difference_smaller(a, b, i) {
            let i = choose|i: int| #[trigger] first_difference_smaller(a, b, i);
            assert(i > 0);
            assert forall|k: int| 0 <= k < i - 1 implies #[trigger] a1.take(i - 1)[k] == b1.take(i - 1)[k] by {
                assert(a.take(i)[k + 1] == b.take(i)[k + 1]);
            }
            assert(a1.take(i - 1) =~= b1.take(i - 1));
            assert(first_difference_smaller(a1, b1, i - 1));
        }
    }
}

/// Whether `a` comes before `b` or equals it, lexicographically.
pub fn text_le_exec(a: &str, b: &str) -> (r: bool)
    ensures
        r == text_le(a@, b@),
{
    let x = crate::text::chars_of(a);
    let y = crate::text::chars_of(b);
    let mut i: usize = 0;
    assert(a@.skip(0) =~= a@);
    assert(b@.skip(0) =~= b@);
    while i < x.len() && i < y.len() && x[i] == y[i]
        invariant
            x@ == a@,
            y@ == b@,
            i <= x.len(),
            i <= y.len(),
            text_le(a@, b@) == text_le(a@.skip(i as int), b@.skip(i as int)),
        decreases x.len() - i,
    {
        assert(a@.skip(i as int).drop_first() =~= a@.skip(i + 1));
        assert(b@.skip(i as int).drop_first() =~= b@.skip(i + 1));
        i = i + 1;
    }
    if i == x.len() {
        true
    } else if i == y.len() {
        false
    } else {
        x[i] < y[i]
    }
}

/// Whether `a` comes before `b` or equals it, in the order of `Option<String>`.
pub fn optional_text_le_exec(a: &Option<String>, b: &Option<String>) -> (r: bool)
    ensures
        r == optional_text_le(
            match a {
                Some(x) => Some(x@),
                None => None,
            },
            match b {
                Some(y) => Some(y@),
                None => None,
            },
        ),
{
    match (a, b) {
        (None, _) => true,
        (Some(_), None) => false,
        (Some(x), Some(y)) => text_le_exec(x.as_str(), y.as_str()),
    }
}

} // verus!
