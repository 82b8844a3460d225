use docserver::path::{
    chars_of, escape_segment, index_in, parse, IndexError, JsonPathIterator, PathError,
};

fn owned(segments: &[&str]) -> Vec<String> {
    segments.iter().map(|s| s.to_string()).collect()
}

#[test]
fn parse_splits_on_slashes() {
    assert_eq!(parse("/a/b/c"), Ok(owned(&["a", "b", "c"])));
    assert_eq!(parse("/hello"), Ok(owned(&["hello"])));
}

#[test]
fn parse_resolves_escapes() {
    assert_eq!(parse("/a~1b/c~0d"), Ok(owned(&["a/b", "c~d"])));
    assert_eq!(parse("/~0~1"), Ok(owned(&["~/"])));
}

#[test]
fn parse_resolves_escapes_left_to_right() {
    // "~01" is an escaped tilde followed by a one, not an escaped slash
    assert_eq!(parse("/~01"), Ok(owned(&["~1"])));
    assert_eq!(parse("/~~1"), Ok(owned(&["~/"])));
    assert_eq!(parse("/~"), Ok(owned(&["~"])));
    assert_eq!(parse("/a~2"), Ok(owned(&["a~2"])));
}

#[test]
fn parse_of_the_root() {
    assert_eq!(parse(""), Ok(owned(&[])));
    assert_eq!(parse("/"), Ok(owned(&[])));
}

#[test]
fn parse_keeps_empty_segments() {
    assert_eq!(parse("/a//b"), Ok(owned(&["a", "", "b"])));
    assert_eq!(parse("/a/"), Ok(owned(&["a", ""])));
    assert_eq!(parse("//"), Ok(owned(&["", ""])));
    assert_eq!(parse("///"), Ok(owned(&["", "", ""])));
    assert_eq!(parse("//a"), Ok(owned(&["", "a"])));
    assert_eq!(parse("/a/b/"), Ok(owned(&["a", "b", ""])));
}

#[test]
fn parse_refuses_a_path_without_leading_slash() {
    assert_eq!(parse("a/b"), Err(PathError::PathInvalid));
    assert_eq!(parse("~1"), Err(PathError::PathInvalid));
    assert_eq!(parse(" /a"), Err(PathError::PathInvalid));
}

#[test]
fn parse_handles_characters_beyond_ascii() {
    assert_eq!(parse("/é/日本~1語"), Ok(owned(&["é", "日本/語"])));
}

#[test]
fn iterator_yields_segments_in_order() {
    let mut it = JsonPathIterator::new("/x/1/y~0").unwrap();
    assert_eq!(it.next(), Some("x".to_string()));
    assert_eq!(it.next(), Some("1".to_string()));
    assert_eq!(it.next(), Some("y~".to_string()));
    assert_eq!(it.next(), None);
    assert_eq!(it.next(), None);
}

#[test]
fn iterator_over_the_root_is_empty() {
    let mut it = JsonPathIterator::new("").unwrap();
    assert_eq!(it.next(), None);
    let mut it = JsonPathIterator::new("/").unwrap();
    assert_eq!(it.next(), None);
}

#[test]
fn iterator_yields_the_empty_segment_behind_a_trailing_slash() {
    let mut it = JsonPathIterator::new("/a/").unwrap();
    assert_eq!(it.next(), Some("a".to_string()));
    assert_eq!(it.next(), Some(String::new()));
    assert_eq!(it.next(), None);
    assert_eq!(it.next(), None);
}

#[test]
fn iterator_refuses_a_text_without_leading_slash() {
    assert!(matches!(JsonPathIterator::new("a/b"), Err(PathError::PathInvalid)));
    assert!(matches!(JsonPathIterator::new("a"), Err(PathError::PathInvalid)));
    assert!(matches!(JsonPathIterator::new("~/"), Err(PathError::PathInvalid)));
    assert!(JsonPathIterator::new("/a").is_ok());
}

#[test]
fn escape_maps_tilde_and_slash() {
    assert_eq!(escape_segment("a/b"), "a~1b");
    assert_eq!(escape_segment("c~d"), "c~0d");
    assert_eq!(escape_segment("~/"), "~0~1");
    assert_eq!(escape_segment("~1"), "~01");
    assert_eq!(escape_segment("plain"), "plain");
    assert_eq!(escape_segment(""), "");
}

#[test]
fn path_round_trip() {
    for s in ["a", "a/b", "c~d", "~", "/", "~1", "~0", "~~//~", "x y", "日本/語~"] {
        let path = format!("/{}", escape_segment(s));
        let segments = parse(&path).unwrap();
        assert_eq!(segments, vec![s.to_string()]);
        assert_eq!(segments.first().unwrap(), s);
    }
}

#[test]
fn chars_of_lists_the_characters() {
    assert_eq!(chars_of("a~é"), vec!['a', '~', 'é']);
    assert_eq!(chars_of(""), Vec::<char>::new());
}

#[test]
fn index_in_reads_decimal_indices() {
    assert_eq!(index_in("0", 3), Ok(0));
    assert_eq!(index_in("2", 3), Ok(2));
    assert_eq!(index_in("10", 11), Ok(10));
    assert_eq!(index_in("007", 8), Ok(7));
    assert_eq!(index_in("+1", 3), Ok(1));
}

#[test]
fn index_in_refuses_what_is_no_index() {
    assert_eq!(index_in("", 3), Err(IndexError::NotAnIndex));
    assert_eq!(index_in("+", 3), Err(IndexError::NotAnIndex));
    assert_eq!(index_in("-1", 3), Err(IndexError::NotAnIndex));
    assert_eq!(index_in("1a", 3), Err(IndexError::NotAnIndex));
    assert_eq!(index_in("a", 3), Err(IndexError::NotAnIndex));
    assert_eq!(index_in(" 1", 3), Err(IndexError::NotAnIndex));
    assert_eq!(index_in("1.0", 3), Err(IndexError::NotAnIndex));
    assert_eq!(index_in("١", 3), Err(IndexError::NotAnIndex));
    assert_eq!(index_in("99999999999999999999999999x", 3), Err(IndexError::NotAnIndex));
}

#[test]
fn index_in_reports_positions_beyond_the_end() {
    assert_eq!(index_in("3", 3), Err(IndexError::OutOfRange));
    assert_eq!(index_in("0", 0), Err(IndexError::OutOfRange));
    assert_eq!(index_in("99999999999999999999999999", 3), Err(IndexError::OutOfRange));
    assert_eq!(index_in("18446744073709551616", usize::MAX), Err(IndexError::OutOfRange));
    assert_eq!(index_in("18446744073709551614", usize::MAX), Ok(18446744073709551614));
}
