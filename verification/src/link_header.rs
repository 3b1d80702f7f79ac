//! Parsing of HTTP `Link` headers (RFC 8288 style: `<url>; rel="next", ...`).
use vstd::prelude::*;

use crate::text::{
    is_white_space, chars_of, ends_with, same_text, split, split_on, starts_with, trim, trimmed, views,
    lemma_split_on_join, lemma_split_on_nonempty, lemma_split_on_without_separator,
    lemma_trimmed_after_space, lemma_trimmed_unchanged,
};

verus! {

/// A link of a `Link` header, by its relation.
#[derive(Debug)]
pub enum Link {
    Next(String),
    Previous(String),
    Other(String, String),
}

/// The mathematical value of a [`Link`].
pub enum LinkView {
    Next(Seq<char>),
    Previous(Seq<char>),
    Other(Seq<char>, Seq<char>),
}

impl View for Link {
    type V = LinkView;

    open spec fn view(&self) -> LinkView {
        match self {
            Link::Next(url) => LinkView::Next(url@),
            Link::Previous(url) => LinkView::Previous(url@),
            Link::Other(url, rel) => LinkView::Other(url@, rel@),
        }
    }
}

/// A malformed link, with a message that says why.
#[derive(Debug)]
pub struct ParseError(pub String);

impl View for ParseError {
    type V = Seq<char>;

    open spec fn view(&self) -> Seq<char> {
        self.0@
    }
}

/// Why a `Link` header could not be read.
#[derive(Debug)]
pub enum HeaderError {
    /// The header holds a byte that is not visible ASCII (nor a tab).
    NotText,
    /// One of the comma-separated links is malformed.
    Parse(ParseError),
}

/// The outcome of parsing: a value, an error with its message, or an input on
/// which parsing does not return (it panics).
pub enum Parsed<T> {
    Value(T),
    Error(Seq<char>),
    Panic,
}

/// What a single `name="value"` parameter token is.
pub enum ParamToken {
    Pair(Seq<char>, Seq<char>),
    Malformed,
    /// The value token is a lone `"`: parsing it panics.
    Unreadable,
}

pub open spec fn url_token_error(token: Seq<char>) -> Seq<char> {
    "Unexpected url token "@ + token
}

pub open spec fn param_token_error() -> Seq<char> {
    "Unexpected param token. Expected \"<name>\"=<value>"@
}

pub open spec fn missing_rel_error(input: Seq<char>) -> Seq<char> {
    "Unexpected link without rel parameter: "@ + input
}

/// A url token is `<`, the url, `>`.
pub open spec fn is_url_token(token: Seq<char>) -> bool {
    starts_with(token, '<') && ends_with(token, '>')
}

/// The text between the first and the last character.
pub open spec fn inner(token: Seq<char>) -> Seq<char> {
    token.subrange(1, token.len() - 1)
}

pub open spec fn spec_param_token(token: Seq<char>) -> ParamToken {
    let pairs = split_on(token, '=');
    if pairs.len() != 2 {
        ParamToken::Malformed
    } else if !(starts_with(pairs[1], '"') && ends_with(pairs[1], '"')) {
        ParamToken::Malformed
    } else if pairs[1].len() < 2 {
        ParamToken::Unreadable
    } else {
        ParamToken::Pair(pairs[0], inner(pairs[1]))
    }
}

/// The parameters of the tokens, in order, or the first failure among them.
pub open spec fn spec_param_tokens(tokens: Seq<Seq<char>>) -> Parsed<Seq<(Seq<char>, Seq<char>)>>
    decreases tokens.len(),
{
    if tokens.len() == 0 {
        Parsed::Value(Seq::empty())
    } else {
        match spec_param_tokens(tokens.drop_last()) {
            Parsed::Value(pairs) => match spec_param_token(tokens.last()) {
                ParamToken::Pair(name, value) => Parsed::Value(pairs.push((name, value))),
                ParamToken::Malformed => Parsed::Error(param_token_error()),
                ParamToken::Unreadable => Parsed::Panic,
            },
            Parsed::Error(msg) => Parsed::Error(msg),
            Parsed::Panic => Parsed::Panic,
        }
    }
}

/// The value of the last pair named `key`, as a map collected from the pairs
/// in order holds it.
pub open spec fn last_value(pairs: Seq<(Seq<char>, Seq<char>)>, key: Seq<char>) -> Option<
    Seq<char>,
>
    decreases pairs.len(),
{
    if pairs.len() == 0 {
        None
    } else if pairs.last().0 == key {
        Some(pairs.last().1)
    } else {
        last_value(pairs.drop_last(), key)
    }
}

/// The `;`-separated tokens of a link, each without surrounding white space.
pub open spec fn link_tokens(input: Seq<char>) -> Seq<Seq<char>> {
    split_on(input, ';').map_values(|t: Seq<char>| trimmed(t))
}

/// What parsing one link gives.
pub open spec fn spec_parse_link(input: Seq<char>) -> Parsed<LinkView> {
    let tokens = link_tokens(input);
    let url_token = tokens[0];
    if !is_url_token(url_token) {
        Parsed::Error(url_token_error(url_token))
    } else {
        match spec_param_tokens(tokens.drop_first()) {
            Parsed::Value(pairs) => match last_value(pairs, "rel"@) {
                None => Parsed::Error(missing_rel_error(input)),
                Some(rel) => Parsed::Value(
                    if rel == "next"@ {
                        LinkView::Next(inner(url_token))
                    } else {
                        LinkView::Other(inner(url_token), rel)
                    },
                ),
            },
            Parsed::Error(msg) => Parsed::Error(msg),
            Parsed::Panic => Parsed::Panic,
        }
    }
}

/// What parsing the links in order gives: all of them, or the first failure.
pub open spec fn spec_parse_links(pieces: Seq<Seq<char>>) -> Parsed<Seq<LinkView>>
    decreases pieces.len(),
{
    if pieces.len() == 0 {
        Parsed::Value(Seq::empty())
    } else {
        match spec_parse_links(pieces.drop_last()) {
            Parsed::Value(links) => match spec_parse_link(pieces.last()) {
                Parsed::Value(link) => Parsed::Value(links.push(link)),
                Parsed::Error(msg) => Parsed::Error(msg),
                Parsed::Panic => Parsed::Panic,
            },
            Parsed::Error(msg) => Parsed::Error(msg),
            Parsed::Panic => Parsed::Panic,
        }
    }
}

/// A byte that a header value may hold when read as text: visible ASCII or a tab.
pub open spec fn is_visible_ascii(b: u8) -> bool {
    (32 <= b && b < 127) || b == 9
}

pub open spec fn all_visible_ascii(bytes: Seq<u8>) -> bool {
    forall|i: int| 0 <= i < bytes.len() ==> is_visible_ascii(#[trigger] bytes[i])
}

/// The characters of ASCII bytes.
pub open spec fn ascii_text(bytes: Seq<u8>) -> Seq<char> {
    Seq::new(bytes.len(), |i: int| bytes[i] as char)
}

/// What reading a `Link` header's bytes gives.
pub open spec fn spec_from_header(bytes: Seq<u8>) -> Parsed<Seq<LinkView>> {
    spec_parse_links(split_on(ascii_text(bytes), ','))
}

pub open spec fn link_views(links: Seq<Link>) -> Seq<LinkView> {
    Seq::new(links.len(), |i: int| links[i]@)
}

pub open spec fn pair_views(pairs: Seq<(String, String)>) -> Seq<(Seq<char>, Seq<char>)> {
    Seq::new(pairs.len(), |i: int| (pairs[i].0@, pairs[i].1@))
}

/// The text of a header value: `HeaderValue::from_bytes` and then
/// `HeaderValue::to_str` (the `http` crate, as re-exported by reqwest). By their
/// source, the first accepts exactly the bytes that are visible ASCII, a tab or
/// at least 128, and the second exactly the values whose bytes are all visible
/// ASCII or a tab, whose text is then those bytes as characters.
#[verifier::external_body]
pub(crate) fn header_text(bytes: &[u8]) -> (r: Option<String>)
    ensures
        r is Some <==> all_visible_ascii(bytes@),
        r matches Some(t) ==> t@ == ascii_text(bytes@),
{
    match reqwest::header::HeaderValue::from_bytes(bytes) {
        Ok(value) => match value.to_str() {
            Ok(text) => Some(text.to_string()),
            Err(_) => None,
        },
        Err(_) => None,
    }
}

/// Reads a url token `<url>` and gives the url.
pub fn parse_url_token(token: &str) -> (r: Result<String, ParseError>)
    ensures
        match r {
            Ok(url) => is_url_token(token@) && url@ == inner(token@),
            Err(e) => !is_url_token(token@) && e@ == url_token_error(token@),
        },
{
    let cs = chars_of(token);
    let n = cs.len();
    if n > 0 && cs[0] == '<' && cs[n - 1] == '>' {
        Ok(String::from_str(token.substring_char(1, n - 1)))
    } else {
        let mut msg = String::from_str("Unexpected url token ");
        msg.append(token);
        Err(ParseError(msg))
    }
}

/// Reads a parameter token `name="value"` and gives the name and the value;
/// none where the value is a lone `"`, which cannot be read.
pub fn parse_param_token(token: &str) -> (r: Option<Result<(String, String), ParseError>>)
    ensures
        match spec_param_token(token@) {
            ParamToken::Pair(name, value) => r matches Some(Ok(p)) && p.0@ == name && p.1@ == value,
            ParamToken::Malformed => r matches Some(Err(e)) && e@ == param_token_error(),
            ParamToken::Unreadable => r is None,
        },
{
    let pairs = split(token, '=');
    if pairs.len() != 2 {
        return Some(Err(ParseError(String::from_str("Unexpected param token. Expected \"<name>\"=<value>"))));
    }
    assert(views(pairs@)[1] == pairs@[1]@);
    let value_token = chars_of(pairs[1].as_str());
    let n = value_token.len();
    if !(n > 0 && value_token[0] == '"' && value_token[n - 1] == '"') {
        return Some(Err(ParseError(String::from_str("Unexpected param token. Expected \"<name>\"=<value>"))));
    }
    if n < 2 {
        return None;
    }
    let name = pairs[0].clone();
    let value = String::from_str(pairs[1].as_str().substring_char(1, n - 1));
    assert(views(pairs@)[0] == pairs@[0]@);
    Some(Ok((name, value)))
}

proof fn lemma_param_failure_persists(tokens: Seq<Seq<char>>, j: int)
    requires
        0 <= j <= tokens.len(),
        !(spec_param_tokens(tokens.take(j)) is Value),
    ensures
        spec_param_tokens(tokens) == spec_param_tokens(tokens.take(j)),
    decreases tokens.len() - j,
{
    if j < tokens.len() {
        assert(tokens.take(j + 1).drop_last() =~= tokens.take(j));
        lemma_param_failure_persists(tokens, j + 1);
    } else {
        assert(tokens.take(j) =~= tokens);
    }
}

/// Reads the parameter tokens in order; the first malformed one is the
/// error, and none where an unreadable one comes first.
pub fn parse_param_tokens(tokens: &Vec<String>) -> (r: Option<Result<Vec<(String, String)>, ParseError>>)
    ensures
        match spec_param_tokens(views(tokens@)) {
            Parsed::Value(pairs) => r matches Some(Ok(v)) && pair_views(v@) == pairs,
            Parsed::Error(msg) => r matches Some(Err(e)) && e@ == msg,
            Parsed::Panic => r is None,
        },
{
    let mut result: Vec<(String, String)> = Vec::new();
    let mut i: usize = 0;
    assert(views(tokens@).take(0) =~= Seq::<Seq<char>>::empty());
    assert(pair_views(result@) =~= Seq::<(Seq<char>, Seq<char>)>::empty());
    while i < tokens.len()
        invariant
            i <= tokens.len(),
            spec_param_tokens(views(tokens@).take(i as int)) == Parsed::Value(pair_views(result@)),
        decreases tokens.len() - i,
    {
        let ghost before = pair_views(result@);
        assert(views(tokens@).take(i + 1).drop_last() =~= views(tokens@).take(i as int));
        assert(views(tokens@).take(i + 1).last() == tokens@[i as int]@);
        match parse_param_token(tokens[i].as_str()) {
            Some(Ok(pair)) => {
                let ghost pv = (pair.0@, pair.1@);
                result.push(pair);
                assert(pair_views(result@) =~= before.push(pv));
            },
            Some(Err(e)) => {
                proof {
                    lemma_param_failure_persists(views(tokens@), i + 1);
                }
                return Some(Err(e));
            },
            None => {
                proof {
                    lemma_param_failure_persists(views(tokens@), i + 1);
                }
                return None;
            },
        }
        i = i + 1;
    }
    assert(views(tokens@).take(tokens.len() as int) =~= views(tokens@));
    Some(Ok(result))
}

proof fn lemma_link_failure_persists(pieces: Seq<Seq<char>>, j: int)
    requires
        0 <= j <= pieces.len(),
        !(spec_parse_links(pieces.take(j)) is Value),
    ensures
        spec_parse_links(pieces) == spec_parse_links(pieces.take(j)),
    decreases pieces.len() - j,
{
    if j < pieces.len() {
        assert(pieces.take(j + 1).drop_last() =~= pieces.take(j));
        lemma_link_failure_persists(pieces, j + 1);
    } else {
        assert(pieces.take(j) =~= pieces);
    }
}

/// The value of the last pair named `key`.
fn last_value_of(pairs: &Vec<(String, String)>, key: &str) -> (r: Option<String>)
    ensures
        match last_value(pair_views(pairs@), key@) {
            Some(v) => r matches Some(s) && s@ == v,
            None => r is None,
        },
{
    let mut i: usize = pairs.len();
    assert(pair_views(pairs@).take(i as int) =~= pair_views(pairs@));
    while i > 0
        invariant
            i <= pairs.len(),
            last_value(pair_views(pairs@), key@) == last_value(
                pair_views(pairs@).take(i as int),
                key@,
            ),
        decreases i,
    {
        assert(pair_views(pairs@).take(i as int).drop_last() =~= pair_views(pairs@).take(i - 1));
        if same_text(pairs[i - 1].0.as_str(), key) {
            return Some(pairs[i - 1].1.clone());
        }
        i = i - 1;
    }
    None
}

impl Link {
    /// Reads one link, `<url>; name="value"; ...`, which must have a `rel`
    /// parameter (the last one counts); none where a parameter that cannot be
    /// read comes before any error.
    pub fn read(input: &str) -> (r: Option<Result<Link, ParseError>>)
        ensures
            match spec_parse_link(input@) {
                Parsed::Value(link) => r matches Some(Ok(l)) && l@ == link,
                Parsed::Error(msg) => r matches Some(Err(e)) && e@ == msg,
                Parsed::Panic => r is None,
            },
    {
        let raw = split(input, ';');
        let mut tokens: Vec<String> = Vec::new();
        let mut i: usize = 0;
        while i < raw.len()
            invariant
                i <= raw.len(),
                views(raw@) == split_on(input@, ';'),
                views(tokens@) == views(raw@).take(i as int).map_values(
                    |t: Seq<char>| trimmed(t),
                ),
            decreases raw.len() - i,
        {
            let t = trim(raw[i].as_str());
            let ghost before = views(tokens@);
            let ghost tv = t@;
            assert(views(raw@)[i as int] == raw@[i as int]@);
            tokens.push(t);
            assert(views(tokens@) =~= before.push(tv));
            assert(views(tokens@) =~= views(raw@).take(i + 1).map_values(
                |t: Seq<char>| trimmed(t),
            ));
            i = i + 1;
        }
        assert(views(raw@).take(raw.len() as int) =~= views(raw@));
        assert(views(tokens@) == link_tokens(input@));
        proof {
            lemma_split_on_nonempty(input@, ';');
        }
        assert(views(tokens@)[0] == tokens@[0]@);
        let url = match parse_url_token(tokens[0].as_str()) {
            Ok(u) => u,
            Err(e) => {
                return Some(Err(e));
            },
        };
        let mut rest: Vec<String> = Vec::new();
        let mut j: usize = 1;
        while j < tokens.len()
            invariant
                1 <= j <= tokens.len(),
                views(rest@) == views(tokens@).subrange(1, j as int),
            decreases tokens.len() - j,
        {
            let t = tokens[j].clone();
            let ghost before = views(rest@);
            let ghost tv = t@;
            assert(views(tokens@)[j as int] == tokens@[j as int]@);
            rest.push(t);
            assert(views(rest@) =~= before.push(tv));
            assert(views(rest@) =~= views(tokens@).subrange(1, j + 1));
            j = j + 1;
        }
        assert(views(rest@) =~= link_tokens(input@).drop_first());
        let params = match parse_param_tokens(&rest) {
            Some(Ok(p)) => p,
            Some(Err(e)) => {
                return Some(Err(e));
            },
            None => {
                return None;
            },
        };
        match last_value_of(&params, "rel") {
            None => {
                let mut msg = String::from_str("Unexpected link without rel parameter: ");
                msg.append(input);
                Some(Err(ParseError(msg)))
            },
            Some(rel) => {
                if same_text(rel.as_str(), "next") {
                    Some(Ok(Link::Next(url)))
                } else {
                    Some(Ok(Link::Other(url, rel)))
                }
            },
        }
    }

    /// Parses one link, `<url>; name="value"; ...`, which must have a `rel`
    /// parameter (the last one counts).
    pub fn parse(input: &str) -> (r: Result<Link, ParseError>)
        requires
            !(spec_parse_link(input@) is Panic),
        ensures
            match spec_parse_link(input@) {
                Parsed::Value(link) => r matches Ok(l) && l@ == link,
                Parsed::Error(msg) => r matches Err(e) && e@ == msg,
                Parsed::Panic => false,
            },
    {
        match Link::read(input) {
            Some(r) => r,
            None => {
                assert(false);
                Err(ParseError(String::new()))
            },
        }
    }

    /// Reads all the comma-separated links of a `Link` header's value, given
    /// as its bytes; the first malformed link is the error, and none where a
    /// link that cannot be read comes first.
    pub fn read_header(input: &[u8]) -> (r: Option<Result<Vec<Link>, HeaderError>>)
        ensures
            !all_visible_ascii(input@) ==> r matches Some(Err(HeaderError::NotText)),
            all_visible_ascii(input@) ==> match spec_from_header(input@) {
                Parsed::Value(links) => r matches Some(Ok(v)) && link_views(v@) == links,
                Parsed::Error(msg) => r matches Some(Err(HeaderError::Parse(e))) && e@ == msg,
                Parsed::Panic => r is None,
            },
    {
        let value = match header_text(input) {
            Some(t) => t,
            None => {
                return Some(Err(HeaderError::NotText));
            },
        };
        let pieces = split(value.as_str(), ',');
        let ghost all = views(pieces@);
        let mut links: Vec<Link> = Vec::new();
        let mut i: usize = 0;
        assert(all.take(0) =~= Seq::<Seq<char>>::empty());
        assert(link_views(links@) =~= Seq::<LinkView>::empty());
        while i < pieces.len()
            invariant
                i <= pieces.len(),
                all == views(pieces@),
                all_visible_ascii(input@),
                all == split_on(ascii_text(input@), ','),
                spec_parse_links(all.take(i as int)) == Parsed::Value(link_views(links@)),
            decreases pieces.len() - i,
        {
            let ghost before = link_views(links@);
            assert(all.take(i + 1).drop_last() =~= all.take(i as int));
            assert(all.take(i + 1).last() == pieces@[i as int]@);
            match Link::read(pieces[i].as_str()) {
                Some(Ok(link)) => {
                    let ghost lv = link@;
                    links.push(link);
                    assert(link_views(links@) =~= before.push(lv));
                },
                Some(Err(e)) => {
                    proof {
                        lemma_link_failure_persists(all, i + 1);
                    }
                    return Some(Err(HeaderError::Parse(e)));
                },
                None => {
                    proof {
                        lemma_link_failure_persists(all, i + 1);
                    }
                    return None;
                },
            }
            i = i + 1;
        }
        assert(all.take(pieces.len() as int) =~= all);
        Some(Ok(links))
    }

    /// Reads all the comma-separated links of a `Link` header's value, given
    /// as its bytes; the first malformed link is the error.
    pub fn from_header(input: &[u8]) -> (r: Result<Vec<Link>, HeaderError>)
        requires
            all_visible_ascii(input@) ==> !(spec_from_header(input@) is Panic),
        ensures
            !all_visible_ascii(input@) ==> r matches Err(HeaderError::NotText),
            all_visible_ascii(input@) ==> match spec_from_header(input@) {
                Parsed::Value(links) => r matches Ok(v) && link_views(v@) == links,
                Parsed::Error(msg) => r matches Err(HeaderError::Parse(e)) && e@ == msg,
                Parsed::Panic => false,
            },
    {
        match Link::read_header(input) {
            Some(r) => r,
            None => {
                assert(false);
                Err(HeaderError::NotText)
            },
        }
    }

    /// Whether this is the link to the next page.
    pub fn is_next(&self) -> (r: bool)
        ensures
            r == (self@ is Next),
    {
        match self {
            Link::Next(_) => true,
            _ => false,
        }
    }

    /// Whether this is the link to the previous page.
    pub fn is_previous(&self) -> (r: bool)
        ensures
            r == (self@ is Previous),
    {
        match self {
            Link::Previous(_) => true,
            _ => false,
        }
    }

    /// The url of the link.
    pub fn to_str(&self) -> (r: &str)
        ensures
            r@ == link_url(self@),
    {
        match self {
            Link::Next(url) => url.as_str(),
            Link::Previous(url) => url.as_str(),
            Link::Other(url, _) => url.as_str(),
        }
    }
}

/// The url of a link.
pub open spec fn link_url(link: LinkView) -> Seq<char> {
    match link {
        LinkView::Next(url) => url,
        LinkView::Previous(url) => url,
        LinkView::Other(url, _) => url,
    }
}

/// A link written out: `<url>; rel="rel"`.
pub open spec fn written_link(url: Seq<char>, rel: Seq<char>) -> Seq<char> {
    "<"@ + url + ">; rel=\""@ + rel + "\""@
}

/// Law: a link written out as `<url>; rel="rel"` parses back to its url
/// and relation (a `next` link where the relation is `next`), for a url
/// without `;` and a relation without `;` or `=`.
pub proof fn law_written_link_parses(url: Seq<char>, rel: Seq<char>)
    requires
        forall|i: int| 0 <= i < url.len() ==> url[i] != ';',
        forall|i: int| 0 <= i < rel.len() ==> rel[i] != ';' && rel[i] != '=',
    ensures
        spec_parse_link(written_link(url, rel)) == Parsed::Value(
            if rel == "next"@ {
                LinkView::Next(url)
            } else {
                LinkView::Other(url, rel)
            },
        ),
{
    reveal_strlit("<");
    reveal_strlit(">; rel=\"");
    reveal_strlit("\"");
    reveal_strlit("rel");
    let name = seq!['r', 'e', 'l'];
    let a = seq!['<'] + url + seq!['>'];
    let value = seq!['"'] + rel + seq!['"'];
    let param = name + seq!['='] + value;
    let b = seq![' '] + param;
    let input = written_link(url, rel);
    assert(input =~= a + seq![';'] + b);
    assert forall|i: int| 0 <= i < a.len() implies a[i] != ';' by {
        if 0 < i < a.len() - 1 {
            assert(a[i] == url[i - 1]);
        }
    }
    assert forall|i: int| 0 <= i < value.len() implies value[i] != ';' && value[i] != '=' by {
        if 0 < i < value.len() - 1 {
            assert(value[i] == rel[i - 1]);
        }
    }
    assert forall|i: int| 0 <= i < b.len() implies b[i] != ';' by {
        if i >= 5 {
            assert(b[i] == value[i - 5]);
        }
    }
    lemma_split_on_join(a, b, ';');
    lemma_split_on_without_separator(a, ';');
    lemma_split_on_without_separator(b, ';');
    assert(split_on(input, ';') =~= seq![a, b]);
    lemma_trimmed_unchanged(a);
    assert(b =~= seq![' '] + param);
    assert(param[0] == 'r');
    assert(param.last() == '"');
    lemma_trimmed_after_space(param);
    let tokens = link_tokens(input);
    assert(tokens =~= seq![a, param]);
    assert(inner(a) =~= url);
    lemma_split_on_join(name, value, '=');
    lemma_split_on_without_separator(name, '=');
    lemma_split_on_without_separator(value, '=');
    assert(split_on(param, '=') =~= seq![name, value]);
    assert(inner(value) =~= rel);
    assert(spec_param_token(param) == ParamToken::Pair(name, rel));
    assert(tokens.drop_first() =~= seq![param]);
    assert(seq![param].drop_last() =~= Seq::<Seq<char>>::empty());
    assert(seq![param].last() == param);
    assert(spec_param_tokens(Seq::<Seq<char>>::empty()) == Parsed::Value(
        Seq::<(Seq<char>, Seq<char>)>::empty(),
    ));
    assert(Seq::<(Seq<char>, Seq<char>)>::empty().push((name, rel)) =~= seq![(name, rel)]);
    assert(spec_param_tokens(seq![param]) == Parsed::Value(seq![(name, rel)]));
    assert("rel"@ =~= name);
    assert(last_value(seq![(name, rel)], "rel"@) == Some(rel));
}

/// Law: the `rel` value that counts is the value of the last parameter
/// named `rel`, wherever it stands among the parameters; there is none
/// exactly when no parameter has that name.
pub proof fn law_last_value_is_last_named(pairs: Seq<(Seq<char>, Seq<char>)>, key: Seq<char>)
    ensures
        last_value(pairs, key) is None <==> forall|i: int| 0 <= i < pairs.len() ==> #[trigger] pairs[i].0 != key,
        forall|v: Seq<char>|
            #[trigger] last_value(pairs, key) == Some(v) <==> exists|i: int|
                0 <= i < pairs.len() && #[trigger] pairs[i] == (key, v) && forall|j: int|
                    i < j < pairs.len() ==> #[trigger] pairs[j].0 != key,
    decreases pairs.len(),
{
    if pairs.len() > 0 {
        let prev = pairs.drop_last();
        let n = pairs.len() - 1;
        law_last_value_is_last_named(prev, key);
        assert forall|i: int| 0 <= i < prev.len() implies prev[i] == pairs[i] by {}
        assert forall|v: Seq<char>|
            #[trigger] last_value(pairs, key) == Some(v) <==> exists|i: int|
                0 <= i < pairs.len() && #[trigger] pairs[i] == (key, v) && forall|j: int|
                    i < j < pairs.len() ==> #[trigger] pairs[j].0 != key by {
            if last_value(pairs, key) == Some(v) {
                if pairs.last().0 == key {
                    assert(pairs[n] == (key, v));
                } else {
                    let i = choose|i: int|
                        0 <= i < prev.len() && #[trigger] prev[i] == (key, v) && forall|j: int|
                            i < j < prev.len() ==> #[trigger] prev[j].0 != key;
                    assert(pairs[i] == (key, v));
                    assert forall|j: int| i < j < pairs.len() implies #[trigger] pairs[j].0 != key by {
                        if j < n {
                            assert(prev[j] == pairs[j]);
                        }
                    }
                }
            }
            if exists|i: int|
                0 <= i < pairs.len() && #[trigger] pairs[i] == (key, v) && forall|j: int|
                    i < j < pairs.len() ==> #[trigger] pairs[j].0 != key {
                let i = choose|i: int|
                    0 <= i < pairs.len() && #[trigger] pairs[i] == (key, v) && forall|j: int|
                        i < j < pairs.len() ==> #[trigger] pairs[j].0 != key;
                if i < n {
                    assert(pairs[n].0 != key);
                    assert(prev[i] == (key, v));
                    assert forall|j: int| i < j < prev.len() implies #[trigger] prev[j].0 != key by {
                        assert(pairs[j] == prev[j]);
                    }
                }
            }
        }
        if forall|i: int| 0 <= i < pairs.len() ==> #[trigger] pairs[i].0 != key {
            assert(pairs[n].0 != key);
            assert forall|i: int| 0 <= i < prev.len() implies #[trigger] prev[i].0 != key by {
                assert(pairs[i] == prev[i]);
            }
        }
        if last_value(pairs, key) is None {
            assert forall|i: int| 0 <= i < pairs.len() implies #[trigger] pairs[i].0 != key by {
                if i < n {
                    assert(prev[i] == pairs[i]);
                }
            }
        }
    }
}

/// A parameter written out: `; name="value"`.
pub open spec fn written_param(name: Seq<char>, value: Seq<char>) -> Seq<char> {
    "; "@ + name + "=\""@ + value + "\""@
}

/// Law: a `rel` parameter counts when another parameter follows it: a link
/// written out as `<url>; rel="rel"; name="value"` parses as `<url>;
/// rel="rel"` does, to its url and relation (a `next` link where the
/// relation is `next`), for a url without `;`, a relation without `;` or
/// `=`, a name other than `rel` without `;`, `=` or white space, and a value
/// without `;` or `=`.
pub proof fn law_rel_before_other_param(
    url: Seq<char>,
    rel: Seq<char>,
    name: Seq<char>,
    value: Seq<char>,
)
    requires
        forall|i: int| 0 <= i < url.len() ==> url[i] != ';',
        forall|i: int| 0 <= i < rel.len() ==> rel[i] != ';' && rel[i] != '=',
        forall|i: int|
            0 <= i < name.len() ==> name[i] != ';' && name[i] != '=' && !is_white_space(
                #[trigger] name[i],
            ),
        forall|i: int| 0 <= i < value.len() ==> value[i] != ';' && value[i] != '=',
        name != "rel"@,
    ensures
        spec_parse_link(written_link(url, rel) + written_param(name, value)) == Parsed::Value(
            if rel == "next"@ {
                LinkView::Next(url)
            } else {
                LinkView::Other(url, rel)
            },
        ),
{
    reveal_strlit("<");
    reveal_strlit(">; rel=\"");
    reveal_strlit("\"");
    reveal_strlit("rel");
    reveal_strlit("; ");
    reveal_strlit("=\"");
    let rel_name = seq!['r', 'e', 'l'];
    let a = seq!['<'] + url + seq!['>'];
    let rel_value = seq!['"'] + rel + seq!['"'];
    let rel_param = rel_name + seq!['='] + rel_value;
    let b = seq![' '] + rel_param;
    let quoted = seq!['"'] + value + seq!['"'];
    let param = name + seq!['='] + quoted;
    let c = seq![' '] + param;
    let input = written_link(url, rel) + written_param(name, value);
    assert(input =~= a + seq![';'] + (b + seq![';'] + c));
    assert forall|i: int| 0 <= i < a.len() implies a[i] != ';' by {
        if 0 < i < a.len() - 1 {
            assert(a[i] == url[i - 1]);
        }
    }
    assert forall|i: int| 0 <= i < rel_value.len() implies rel_value[i] != ';' && rel_value[i] != '=' by {
        if 0 < i < rel_value.len() - 1 {
            assert(rel_value[i] == rel[i - 1]);
        }
    }
    assert forall|i: int| 0 <= i < b.len() implies b[i] != ';' by {
        if i >= 5 {
            assert(b[i] == rel_value[i - 5]);
        }
    }
    assert forall|i: int| 0 <= i < quoted.len() implies quoted[i] != ';' && quoted[i] != '=' by {
        if 0 < i < quoted.len() - 1 {
            assert(quoted[i] == value[i - 1]);
        }
    }
    assert forall|i: int| 0 <= i < c.len() implies c[i] != ';' by {
        if 1 <= i < 1 + name.len() {
            assert(c[i] == name[i - 1]);
        } else if i > 1 + name.len() {
            assert(c[i] == quoted[i - 2 - name.len()]);
        }
    }
    lemma_split_on_join(a, b + seq![';'] + c, ';');
    lemma_split_on_join(b, c, ';');
    lemma_split_on_without_separator(a, ';');
    lemma_split_on_without_separator(b, ';');
    lemma_split_on_without_separator(c, ';');
    assert(split_on(input, ';') =~= seq![a, b, c]);
    lemma_trimmed_unchanged(a);
    assert(b =~= seq![' '] + rel_param);
    assert(rel_param[0] == 'r');
    assert(rel_param.last() == '"');
    lemma_trimmed_after_space(rel_param);
    assert(c =~= seq![' '] + param);
    if name.len() > 0 {
        assert(param[0] == name[0]);
        assert(!is_white_space(name[0]));
    } else {
        assert(param[0] == '=');
    }
    assert(param.last() == '"');
    lemma_trimmed_after_space(param);
    let tokens = link_tokens(input);
    assert(tokens =~= seq![a, rel_param, param]);
    assert(inner(a) =~= url);
    lemma_split_on_join(rel_name, rel_value, '=');
    lemma_split_on_without_separator(rel_name, '=');
    lemma_split_on_without_separator(rel_value, '=');
    assert(split_on(rel_param, '=') =~= seq![rel_name, rel_value]);
    assert(inner(rel_value) =~= rel);
    assert(spec_param_token(rel_param) == ParamToken::Pair(rel_name, rel));
    lemma_split_on_join(name, quoted, '=');
    lemma_split_on_without_separator(name, '=');
    lemma_split_on_without_separator(quoted, '=');
    assert(split_on(param, '=') =~= seq![name, quoted]);
    assert(inner(quoted) =~= value);
    assert(spec_param_token(param) == ParamToken::Pair(name, value));
    let params = tokens.drop_first();
    assert(params =~= seq![rel_param, param]);
    assert(params.drop_last() =~= seq![rel_param]);
    assert(seq![rel_param].drop_last() =~= Seq::<Seq<char>>::empty());
    assert(seq![rel_param].last() == rel_param);
    assert(params.last() == param);
    assert(spec_param_tokens(Seq::<Seq<char>>::empty()) == Parsed::Value(
        Seq::<(Seq<char>, Seq<char>)>::empty(),
    ));
    assert(Seq::<(Seq<char>, Seq<char>)>::empty().push((rel_name, rel)) =~= seq![(rel_name, rel)]);
    assert(spec_param_tokens(seq![rel_param]) == Parsed::Value(seq![(rel_name, rel)]));
    let pairs = seq![(rel_name, rel)].push((name, value));
    assert(spec_param_tokens(params) == Parsed::Value(pairs));
    assert("rel"@ =~= rel_name);
    assert(pairs.last().0 != "rel"@);
    assert(pairs.drop_last() =~= seq![(rel_name, rel)]);
    assert(last_value(seq![(rel_name, rel)], "rel"@) == Some(rel));
    assert(last_value(pairs, "rel"@) == Some(rel));
}

/// Law: parsing never gives a `previous` link: a parsed link is a `next`
/// link or another one.
pub proof fn law_parse_never_previous(input: Seq<char>)
    ensures
        spec_parse_link(input) matches Parsed::Value(link) ==> !(link is Previous),
{
}

} // verus!
