use regurgitate::link_header::parse_url_token;

#[test]
fn valid_url_token() {
    assert_eq!(
        parse_url_token("</foo/bar>").unwrap(),
        "/foo/bar".to_string()
    );
}

#[test]
fn invalid_url_token() {
    assert!(parse_url_token("/foo/bar").is_err());
}

use regurgitate::link_header::{parse_param_token, parse_param_tokens, HeaderError, Link};

#[test]
fn url_token_error_names_the_token() {
    assert_eq!(parse_url_token("<a").unwrap_err().0, "Unexpected url token <a".to_string());
    assert_eq!(parse_url_token("<>").unwrap(), "".to_string());
}

#[test]
fn param_token_gives_name_and_value() {
    assert_eq!(
        parse_param_token("rel=\"next\"").unwrap().unwrap(),
        ("rel".to_string(), "next".to_string())
    );
    assert_eq!(parse_param_token("rel=\"\"").unwrap().unwrap(), ("rel".to_string(), "".to_string()));
}

#[test]
fn malformed_param_token_is_an_error() {
    let msg = "Unexpected param token. Expected \"<name>\"=<value>".to_string();
    assert_eq!(parse_param_token("rel").unwrap().unwrap_err().0, msg);
    assert_eq!(parse_param_token("rel=next").unwrap().unwrap_err().0, msg);
    assert_eq!(parse_param_token("a=\"b\"=\"c\"").unwrap().unwrap_err().0, msg);
}

#[test]
fn param_tokens_stop_at_first_malformed() {
    let ok = vec!["rel=\"next\"".to_string(), "title=\"x\"".to_string()];
    assert_eq!(
        parse_param_tokens(&ok).unwrap().unwrap(),
        vec![("rel".to_string(), "next".to_string()), ("title".to_string(), "x".to_string())]
    );
    let bad = vec!["rel=\"next\"".to_string(), "bad".to_string()];
    assert!(parse_param_tokens(&bad).unwrap().is_err());
}

#[test]
fn link_with_rel_next_is_next() {
    let link = Link::parse("</records?page=2>; rel=\"next\"").unwrap();
    assert!(link.is_next());
    assert!(!link.is_previous());
    assert_eq!(link.to_str(), "/records?page=2");
}

#[test]
fn link_with_other_rel_keeps_it() {
    match Link::parse(" <http://x/y> ;rel=\"last\" ").unwrap() {
        Link::Other(url, rel) => {
            assert_eq!(url, "http://x/y");
            assert_eq!(rel, "last");
        }
        other => panic!("unexpected {:?}", other),
    }
    // "prev" is not read as a previous link
    let prev = Link::parse("<p>; rel=\"prev\"").unwrap();
    assert!(!prev.is_previous());
    assert!(!prev.is_next());
    assert_eq!(prev.to_str(), "p");
}

#[test]
fn last_rel_counts() {
    assert!(Link::parse("<u>; rel=\"prev\"; rel=\"next\"").unwrap().is_next());
    assert!(!Link::parse("<u>; rel=\"next\"; rel=\"prev\"").unwrap().is_next());
}

#[test]
fn link_without_rel_is_an_error() {
    let err = Link::parse("<u>; title=\"t\"").unwrap_err();
    assert_eq!(err.0, "Unexpected link without rel parameter: <u>; title=\"t\"".to_string());
}

#[test]
fn link_with_bad_url_is_an_error() {
    assert_eq!(Link::parse("u; rel=\"next\"").unwrap_err().0, "Unexpected url token u".to_string());
}

#[test]
fn header_gives_each_link() {
    let links = Link::from_header(b"</a>; rel=\"prev\", </b>; rel=\"next\"").unwrap();
    assert_eq!(links.len(), 2);
    assert!(!links[0].is_next());
    assert_eq!(links[0].to_str(), "/a");
    assert!(links[1].is_next());
    assert_eq!(links[1].to_str(), "/b");
}

#[test]
fn header_with_bad_link_is_a_parse_error() {
    match Link::from_header(b"</a>; rel=\"next\", oops") {
        Err(HeaderError::Parse(e)) => assert_eq!(e.0, "Unexpected url token oops".to_string()),
        other => panic!("unexpected {:?}", other),
    }
}

#[test]
fn header_that_is_not_text_is_refused() {
    assert!(matches!(Link::from_header(b"</a>; rel=\"next\"\x01"), Err(HeaderError::NotText)));
    assert!(matches!(Link::from_header("</é>; rel=\"next\"".as_bytes()), Err(HeaderError::NotText)));
}

#[test]
fn lone_quote_value_cannot_be_read() {
    assert!(parse_param_token("rel=\"").is_none());
    let tokens = vec!["rel=\"next\"".to_string(), "title=\"".to_string(), "bad".to_string()];
    assert!(parse_param_tokens(&tokens).is_none());
    let malformed_first = vec!["bad".to_string(), "title=\"".to_string()];
    assert!(parse_param_tokens(&malformed_first).unwrap().is_err());
    assert!(Link::read("<u>; rel=\"").is_none());
    assert!(Link::read("u; rel=\"").unwrap().is_err());
    assert!(Link::read_header(b"</a>; rel=\"next\", </b>; rel=\"").is_none());
    assert!(Link::read_header(b"oops, </b>; rel=\"").unwrap().is_err());
    assert!(Link::read_header(b"</a>; rel=\"next\"").unwrap().unwrap()[0].is_next());
}
