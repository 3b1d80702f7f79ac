use regurgitate::text::{chars_of, contains_text, same_text, split, trim, white_space};

#[test]
fn trim_removes_surrounding_white_space() {
    assert_eq!(trim("  rel=\"next\"\t"), "rel=\"next\"".to_string());
    assert_eq!(trim("<a>"), "<a>".to_string());
    assert_eq!(trim(" \u{a0}x y\u{3000} "), "x y".to_string());
    assert_eq!(trim("   "), "".to_string());
    assert_eq!(trim(""), "".to_string());
}

#[test]
fn trim_agrees_with_str_trim() {
    for s in ["a", " a", "a ", "\n a b \r\n", "\u{2003}\u{85}z\u{205f}", "\u{200b}a"] {
        assert_eq!(trim(s), s.trim().to_string());
    }
}

#[test]
fn split_gives_every_piece() {
    assert_eq!(split("a;b;c", ';'), vec!["a", "b", "c"]);
    assert_eq!(split(";a;", ';'), vec!["", "a", ""]);
    assert_eq!(split("", ';'), vec![""]);
    assert_eq!(split("abc", ','), vec!["abc"]);
}

#[test]
fn split_agrees_with_str_split() {
    for s in ["x=y", "x==y", "=", "a,b,,c", "é;ü;"] {
        for sep in ['=', ',', ';'] {
            let expected: Vec<String> = s.split(sep).map(|p| p.to_string()).collect();
            assert_eq!(split(s, sep), expected);
        }
    }
}

#[test]
fn contains_text_finds_inner_text() {
    assert!(contains_text("<a>; rel=\"next\"", "next"));
    assert!(contains_text("next", "next"));
    assert!(contains_text("abc", ""));
    assert!(!contains_text("nex", "next"));
    assert!(!contains_text("<a>; rel=\"prev\"", "next"));
}

#[test]
fn same_text_compares_characters() {
    assert!(same_text("rel", "rel"));
    assert!(!same_text("rel", "Rel"));
    assert!(!same_text("rel", "rel "));
    assert!(same_text("", ""));
}

#[test]
fn white_space_is_unicode_white_space() {
    for c in [' ', '\t', '\n', '\u{b}', '\u{c}', '\r', '\u{85}', '\u{a0}', '\u{2000}', '\u{3000}'] {
        assert!(white_space(c));
        assert!(c.is_whitespace());
    }
    for c in ['a', '\u{200b}', '<', '"'] {
        assert!(!white_space(c));
    }
}

#[test]
fn chars_of_lists_characters() {
    assert_eq!(chars_of("aé;"), vec!['a', 'é', ';']);
    assert!(chars_of("").is_empty());
}
