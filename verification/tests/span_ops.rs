//! Tests of the span engine: construction, narrowing, search, delimiter
//! matching, and replacement.

use green::text::Span;
use green::text::SpanError;

#[test]
fn len_and_as_str_agree() {
    let span = Span::from("Hello, world!".as_bytes());
    let sub_span = span.slice(7, 12).expect("failed to create sub span");

    assert_eq!(sub_span.len(), sub_span.as_str().len());
    assert_eq!(sub_span.as_str(), b"world");
}

#[test]
fn from_covers_whole_buffer() {
    let text = "Hello, world!";
    let span = Span::from(text.as_bytes());
    assert_eq!(span.len(), text.len());
    assert_eq!(span.as_str(), text.as_bytes());
}

#[test]
fn new_rejects_bad_offsets() {
    let text = "abc".as_bytes();
    assert!(matches!(Span::new(text, 2, 1), Err(SpanError::OutOfRange)));
    assert!(matches!(Span::new(text, 0, 4), Err(SpanError::OutOfRange)));
    let span = Span::new(text, 1, 3).expect("offsets inside the buffer must be accepted");
    assert_eq!(span.as_str(), b"bc");
}

#[test]
fn slice_rejects_bad_offsets() {
    let span = Span::from("abcdef".as_bytes());
    assert!(matches!(span.slice(4, 2), Err(SpanError::OutOfRange)));
    assert!(matches!(span.slice(0, 7), Err(SpanError::OutOfRange)));
}

#[test]
fn find_fast_forwards_past_the_match() {
    let span = Span::from("key = value; rest".as_bytes());
    let after = span.find("key = ").expect("the keyphrase is present");
    assert_eq!(after.as_str(), b"value; rest");
}

#[test]
fn find_missing_keyphrase_reports_it() {
    let span = Span::from("nothing to see here".as_bytes());
    match span.find("keyphrase") {
        Err(SpanError::NotFound(k)) => assert_eq!(k, "keyphrase"),
        other => panic!("expected NotFound, got {other:?}"),
    }
}

#[test]
fn matching_delimiters_handles_nesting() {
    let text = "{ a = { b }; }";
    let span = Span::from(text.as_bytes());
    let block = span
        .get_matching_delimiters(b'{', b'}')
        .expect("balanced braces must be matched");
    let content = block.as_str();
    assert_eq!(content.first(), Some(&b'{'));
    assert_eq!(content.last(), Some(&b'}'));
    let mut depth: i64 = 0;
    for byte in content {
        if *byte == b'{' {
            depth += 1;
        } else if *byte == b'}' {
            depth -= 1;
        }
    }
    assert_eq!(depth, 0, "the returned content must hold balanced nesting");
    assert_eq!(content, text.as_bytes());
}

#[test]
fn matching_delimiters_rejects_close_before_open() {
    let span = Span::from("} {".as_bytes());
    assert!(matches!(
        span.get_matching_delimiters(b'{', b'}'),
        Err(SpanError::UnbalancedDelimiters)
    ));
}

#[test]
fn matching_delimiters_rejects_unclosed_open() {
    let span = Span::from("{ open".as_bytes());
    assert!(matches!(
        span.get_matching_delimiters(b'{', b'}'),
        Err(SpanError::UnbalancedDelimiters)
    ));
}

#[test]
fn matching_delimiters_rejects_window_without_delimiters() {
    let span = Span::from("plain text".as_bytes());
    assert!(matches!(
        span.get_matching_delimiters(b'{', b'}'),
        Err(SpanError::UnbalancedDelimiters)
    ));
}

#[test]
fn inner_delimiter_takes_the_first_pair() {
    let span = Span::from("name = \"value\"; other = \"x\"".as_bytes());
    let inner = span
        .get_inner_delimiter(b'"')
        .expect("two quotes are present");
    assert_eq!(inner.as_str(), b"value");
}

#[test]
fn inner_delimiter_of_empty_pair_is_empty() {
    let span = Span::from("\"\"rest".as_bytes());
    let inner = span
        .get_inner_delimiter(b'"')
        .expect("two quotes are present");
    assert_eq!(inner.len(), 0);
    assert_eq!(inner.as_str(), b"");
}

#[test]
fn inner_delimiter_needs_two_occurrences() {
    let span = Span::from("only \" one".as_bytes());
    assert!(span.get_inner_delimiter(b'"').is_none());
    let empty = Span::from("none at all".as_bytes());
    assert!(empty.get_inner_delimiter(b'"').is_none());
}

#[test]
fn replace_swaps_exactly_the_window() {
    let text = "aaa[bbb]ccc";
    let span = Span::from(text.as_bytes());
    let inner = span
        .find("[")
        .expect("the opening bracket is present")
        .slice(0, 3)
        .expect("three bytes follow the opening bracket");
    assert_eq!(inner.as_str(), b"bbb");
    let replaced = inner.replace(b"XYZ").expect("same length must be accepted");
    assert_eq!(replaced, b"aaa[XYZ]ccc".to_vec());
}

#[test]
fn replace_length_mismatch_reports_both_lengths() {
    let span = Span::from("12345".as_bytes());
    match span.replace(b"abc") {
        Err(SpanError::ReplaceLengthMismatch { expected, found }) => {
            assert_eq!(expected, 5);
            assert_eq!(found, 3);
        }
        other => panic!("expected ReplaceLengthMismatch, got {other:?}"),
    }
}
