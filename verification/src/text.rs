use vstd::prelude::*;

verus! {

/// Whether `c` is a white-space character in the sense of Unicode's
/// `White_Space` property (the characters that `str::trim` removes).
pub open spec fn is_white_space(c: char) -> bool {
    ||| ('\u{9}' <= c && c <= '\u{d}')
    ||| c == ' '
    ||| c == '\u{85}'
    ||| c == '\u{a0}'
    ||| c == '\u{1680}'
    ||| ('\u{2000}' <= c && c <= '\u{200a}')
    ||| c == '\u{2028}'
    ||| c == '\u{2029}'
    ||| c == '\u{202f}'
    ||| c == '\u{205f}'
    ||| c == '\u{3000}'
}

/// `s` without its leading white space.
pub open spec fn trim_start(s: Seq<char>) -> Seq<char>
    decreases s.len(),
{
    if s.len() > 0 && is_white_space(s[0]) {
        trim_start(s.drop_first())
    } else {
        s
    }
}

/// `s` without its trailing white space.
pub open spec fn trim_end(s: Seq<char>) -> Seq<char>
    decreases s.len(),
{
    if s.len() > 0 && is_white_space(s.last()) {
        trim_end(s.drop_last())
    } else {
        s
    }
}

/// `s` without leading and trailing white space.
pub open spec fn trimmed(s: Seq<char>) -> Seq<char> {
    trim_end(trim_start(s))
}

/// The pieces of `s` between occurrences of `sep`, in order; there is one
/// piece more than there are separators (so the empty text has one empty piece).
pub open spec fn split_on(s: Seq<char>, sep: char) -> Seq<Seq<char>>
    decreases s.len(),
{
    if s.len() == 0 {
        seq![Seq::<char>::empty()]
    } else {
        let before = split_on(s.drop_last(), sep);
        if s.last() == sep {
            before.push(Seq::<char>::empty())
        } else {
            before.update(before.len() - 1, before.last().push(s.last()))
        }
    }
}

/// Whether `t` occurs in `s` as a contiguous part.
pub open spec fn occurs_in(t: Seq<char>, s: Seq<char>) -> bool {
    exists|i: int| 0 <= i && i + t.len() <= s.len() && #[trigger] s.subrange(i, i + t.len()) == t
}

/// Whether `s` starts with `c`.
pub open spec fn starts_with(s: Seq<char>, c: char) -> bool {
    s.len() > 0 && s[0] == c
}

/// Whether `s` ends with `c`.
pub open spec fn ends_with(s: Seq<char>, c: char) -> bool {
    s.len() > 0 && s.last() == c
}

/// The views of a sequence of strings.
pub open spec fn views(v: Seq<String>) -> Seq<Seq<char>> {
    Seq::new(v.len(), |i: int| v[i]@)
}

pub proof fn lemma_split_on_nonempty(s: Seq<char>, sep: char)
    ensures
        split_on(s, sep).len() >= 1,
    decreases s.len(),
{
    if s.len() > 0 {
        lemma_split_on_nonempty(s.drop_last(), sep);
    }
}

/// Text without the separator is its one piece.
pub proof fn lemma_split_on_without_separator(s: Seq<char>, sep: char)
    requires
        forall|i: int| 0 <= i < s.len() ==> s[i] != sep,
    ensures
        split_on(s, sep) == seq![s],
    decreases s.len(),
{
    if s.len() > 0 {
        lemma_split_on_without_separator(s.drop_last(), sep);
        assert(s.drop_last().push(s.last()) =~= s);
        assert(seq![s.drop_last()].update(0, s.drop_last().push(s.last())) =~= seq![s]);
    } else {
        assert(s =~= Seq::<char>::empty());
    }
}

/// The pieces of text joined by the separator are the pieces of each side.
pub proof fn lemma_split_on_join(a: Seq<char>, b: Seq<char>, sep: char)
    ensures
        split_on(a + seq![sep] + b, sep) == split_on(a, sep) + split_on(b, sep),
    decreases b.len(),
{
    let whole = a + seq![sep] + b;
    if b.len() == 0 {
        assert(whole.drop_last() =~= a);
        assert(b =~= Seq::<char>::empty());
        assert(split_on(a, sep).push(Seq::<char>::empty()) =~= split_on(a, sep) + seq![
            Seq::<char>::empty(),
        ]);
    } else {
        let b2 = b.drop_last();
        lemma_split_on_join(a, b2, sep);
        lemma_split_on_nonempty(b2, sep);
        assert(whole.drop_last() =~= a + seq![sep] + b2);
        assert(whole.last() == b.last());
        let left = split_on(a, sep);
        let right = split_on(b2, sep);
        if b.last() == sep {
            assert((left + right).push(Seq::<char>::empty()) =~= left + right.push(
                Seq::<char>::empty(),
            ));
        } else {
            assert((left + right).update(
                (left + right).len() - 1,
                (left + right).last().push(b.last()),
            ) =~= left + right.update(right.len() - 1, right.last().push(b.last())));
        }
    }
}

/// Text whose ends are not white space is its own trimmed text.
pub proof fn lemma_trimmed_unchanged(s: Seq<char>)
    requires
        s.len() > 0,
        !is_white_space(s[0]),
        !is_white_space(s.last()),
    ensures
        trimmed(s) == s,
{
}

/// Trimming a space in front of text whose ends are not white space.
pub proof fn lemma_trimmed_after_space(s: Seq<char>)
    requires
        s.len() > 0,
        !is_white_space(s[0]),
        !is_white_space(s.last()),
    ensures
        trimmed(seq![' '] + s) == s,
{
    let t = seq![' '] + s;
    assert(t.drop_first() =~= s);
    assert(t[0] == ' ');
    assert(is_white_space(t[0]));
    assert(trim_start(t) == trim_start(t.drop_first()));
    assert(trim_start(s) == s);
}

pub fn white_space(c: char) -> (r: bool)
    ensures
        r == is_white_space(c),
{
    ('\u{9}' <= c && c <= '\u{d}') || c == ' ' || c == '\u{85}' || c == '\u{a0}' || c == '\u{1680}'
        || ('\u{2000}' <= c && c <= '\u{200a}') || c == '\u{2028}' || c == '\u{2029}' || c
        == '\u{202f}' || c == '\u{205f}' || c == '\u{3000}'
}

/// The characters of `s`, in order.
pub fn chars_of(s: &str) -> (r: Vec<char>)
    ensures
        r@ == s@,
{
    let n = s.unicode_len();
    let mut r: Vec<char> = Vec::new();
    let mut i: usize = 0;
    while i < n
        invariant
            n == s@.len(),
            i <= n,
            r@ == s@.subrange(0, i as int),
        decreases n - i,
    {
        r.push(s.get_char(i));
        i = i + 1;
    }
    assert(r@ =~= s@);
    r
}

/// Whether two texts are equal.
pub fn same_text(a: &str, b: &str) -> (r: bool)
    ensures
        r == (a@ == b@),
{
    let x = chars_of(a);
    let y = chars_of(b);
    if x.len() != y.len() {
        return false;
    }
    let mut i: usize = 0;
    while i < x.len()
        invariant
            x@ == a@,
            y@ == b@,
            x.len() == y.len(),
            i <= x.len(),
            forall|j: int| 0 <= j < i ==> x@[j] == y@[j],
        decreases x.len() - i,
    {
        if x[i] != y[i] {
            return false;
        }
        i = i + 1;
    }
    assert(a@ =~= b@);
    true
}

/// `s` without leading and trailing white space (as `str::trim`).
pub fn trim(s: &str) -> (r: String)
    ensures
        r@ == trimmed(s@),
{
    let v = chars_of(s);
    let n = v.len();
    let mut lo: usize = 0;
    assert(s@.subrange(0, n as int) =~= s@);
    while lo < n && white_space(v[lo])
        invariant
            v@ == s@,
            n == v.len(),
            lo <= n,
            trim_start(s@) == trim_start(s@.subrange(lo as int, n as int)),
        decreases n - lo,
    {
        assert(s@.subrange(lo as int, n as int).drop_first() =~= s@.subrange(lo + 1, n as int));
        lo = lo + 1;
    }
    assert(trim_start(s@) == s@.subrange(lo as int, n as int));
    let mut hi: usize = n;
    while hi > lo && white_space(v[hi - 1])
        invariant
            v@ == s@,
            n == v.len(),
            lo <= hi <= n,
            trim_end(s@.subrange(lo as int, n as int)) == trim_end(
                s@.subrange(lo as int, hi as int),
            ),
        decreases hi,
    {
        assert(s@.subrange(lo as int, hi as int).drop_last() =~= s@.subrange(
            lo as int,
            hi - 1,
        ));
        hi = hi - 1;
    }
    let piece = s.substring_char(lo, hi);
    String::from_str(piece)
}

/// The pieces of `s` between occurrences of `sep` (as `str::split` with a
/// one-character pattern).
pub fn split(s: &str, sep: char) -> (r: Vec<String>)
    ensures
        views(r@) == split_on(s@, sep),
{
    let v = chars_of(s);
    let n = v.len();
    let mut r: Vec<String> = Vec::new();
    let mut start: usize = 0;
    let mut i: usize = 0;
    assert(s@.subrange(0, 0) =~= Seq::<char>::empty());
    assert(views(r@) =~= Seq::<Seq<char>>::empty());
    assert(views(r@).push(s@.subrange(0, 0)) =~= seq![Seq::<char>::empty()]);
    while i < n
        invariant
            v@ == s@,
            n == v.len(),
            start <= i <= n,
            views(r@).push(s@.subrange(start as int, i as int)) == split_on(
                s@.subrange(0, i as int),
                sep,
            ),
        decreases n - i,
    {
        let ghost prev = s@.subrange(0, i as int);
        let ghost prev_r = views(r@);
        assert(s@.subrange(0, i + 1).drop_last() =~= prev);
        assert(s@.subrange(0, i + 1).last() == v@[i as int]);
        if v[i] == sep {
            let piece = String::from_str(s.substring_char(start, i));
            r.push(piece);
            assert(views(r@) =~= prev_r.push(piece@));
            start = i + 1;
            assert(s@.subrange(start as int, i + 1) =~= Seq::<char>::empty());
        } else {
            assert(s@.subrange(start as int, i + 1) =~= s@.subrange(start as int, i as int).push(
                v@[i as int],
            ));
            assert(prev_r.push(s@.subrange(start as int, i + 1)) =~= prev_r.push(
                s@.subrange(start as int, i as int),
            ).update(prev_r.len() as int, s@.subrange(start as int, i + 1)));
        }
        i = i + 1;
    }
    assert(s@.subrange(0, n as int) =~= s@);
    let last = String::from_str(s.substring_char(start, n));
    r.push(last);
    r
}

/// The view of an optional text.
pub open spec fn opt_text(o: Option<String>) -> Option<Seq<char>> {
    match o {
        Some(s) => Some(s@),
        None => None,
    }
}

/// Whether `t` occurs in `x` at position `i`.
fn occurs_at(x: &Vec<char>, t: &Vec<char>, i: usize) -> (r: bool)
    requires
        i + t.len() <= x.len(),
    ensures
        r == (x@.subrange(i as int, i + t.len()) == t@),
{
    let mut j: usize = 0;
    while j < t.len()
        invariant
            i + t.len() <= x.len(),
            j <= t.len(),
            forall|k: int| 0 <= k < j ==> x@[i + k] == t@[k],
        decreases t.len() - j,
    {
        if x[i + j] != t[j] {
            assert(x@.subrange(i as int, i + t.len())[j as int] != t@[j as int]);
            return false;
        }
        j = j + 1;
    }
    assert(x@.subrange(i as int, i + t.len()) =~= t@);
    true
}

/// Whether `t` occurs in `s` (as `str::contains`).
pub fn contains_text(s: &str, t: &str) -> (r: bool)
    ensures
        r == occurs_in(t@, s@),
{
    let x = chars_of(s);
    let y = chars_of(t);
    if y.len() > x.len() {
        return false;
    }
    if y.len() == 0 {
        assert(s@.subrange(0int, 0int + t@.len()) =~= t@);
        return true;
    }
    let bound = x.len() - y.len() + 1;
    let mut i: usize = 0;
    while i < bound
        invariant
            x@ == s@,
            y@ == t@,
            0 < y.len() <= x.len(),
            bound == x.len() - y.len() + 1,
            i <= bound,
            forall|k: int| 0 <= k < i ==> #[trigger] s@.subrange(k, k + t@.len()) != t@,
        decreases bound - i,
    {
        if occurs_at(&x, &y, i) {
            assert(s@.subrange(i as int, i + t@.len()) == t@);
            return true;
        }
        i = i + 1;
    }
    false
}

} // verus!
