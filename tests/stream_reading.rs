use svgpath::error::StreamError;
use svgpath::span::{ErrorPos, Span};
use svgpath::stream::SvgStream;

#[test]
fn error_positions_count_lines_and_columns() {
    let text = b"ab\ncde\nf";
    assert_eq!(ErrorPos::new(text, 0), ErrorPos { line: 1, col: 1 });
    assert_eq!(ErrorPos::new(text, 2), ErrorPos { line: 1, col: 3 });
    assert_eq!(ErrorPos::new(text, 3), ErrorPos { line: 2, col: 1 });
    assert_eq!(ErrorPos::new(text, 8), ErrorPos { line: 3, col: 2 });
}

#[test]
fn span_end_and_range() {
    let text = b"hello world";
    let span = Span::from_range(text, 6, 11);
    assert_eq!(span.text, b"world");
    assert_eq!(span.end(), 11);
    assert_eq!(span.range(), 6..11);
}

#[test]
fn integers_with_signs_and_lists() {
    let mut s = SvgStream::new("  -12, +7 3");
    assert_eq!(s.parse_list_integer().unwrap(), -12);
    assert_eq!(s.parse_list_integer().unwrap(), 7);
    assert_eq!(s.parse_list_integer().unwrap(), 3);
    assert!(matches!(s.parse_list_integer(), Err(StreamError::UnexpectedEndOfStream)));
}

#[test]
fn integer_limits() {
    assert_eq!(SvgStream::new("2147483647").parse_integer().unwrap(), 2147483647);
    assert_eq!(SvgStream::new("-2147483648").parse_integer().unwrap(), -2147483648);
    assert!(matches!(SvgStream::new("2147483648").parse_integer(), Err(StreamError::InvalidNumber(_))));
    assert!(matches!(SvgStream::new("x1").parse_integer(), Err(StreamError::InvalidNumber(_))));
    assert!(matches!(SvgStream::new("-").parse_integer(), Err(StreamError::UnexpectedEndOfStream)));
    assert!(matches!(SvgStream::new("   ").parse_integer(), Err(StreamError::InvalidNumber(_))));
}

#[test]
fn spaces_and_comments_are_skipped() {
    let mut s = SvgStream::new(" <!-- note --> \t\nx");
    s.skip_spaces();
    assert_eq!(s.current_byte().unwrap(), b'x');
    assert_eq!(s.byte_pos(), 17);
}

#[test]
fn qualified_names() {
    let mut s = SvgStream::new("svg:rect x");
    let q = s.consume_qname().unwrap();
    assert_eq!(q.prefix.text, b"svg");
    assert_eq!(q.local.text, b"rect");
    assert_eq!(q.local.start, 4);
    assert_eq!(q.span.text, b"svg:rect");
    let mut plain = SvgStream::new("path>");
    let q = plain.consume_qname().unwrap();
    assert!(q.prefix.text.is_empty());
    assert_eq!(q.local.text, b"path");
    assert!(matches!(SvgStream::new("1abc ").consume_qname(), Err(StreamError::InvalidXMLName(_))));
}

#[test]
fn non_ascii_names() {
    let mut s = SvgStream::new("été=");
    let name = s.consume_xml_name().unwrap();
    assert_eq!(name.text, "été".as_bytes());
    assert_eq!(s.current_byte().unwrap(), b'=');
}

#[test]
fn byte_and_string_mismatches() {
    let mut s = SvgStream::new("ab");
    match s.consume_byte(b'x') {
        Err(StreamError::InvalidString(found, at)) => {
            assert_eq!(found, vec![b"a".to_vec(), b"x".to_vec()]);
            assert_eq!(at, ErrorPos { line: 1, col: 1 });
        }
        other => panic!("unexpected {other:?}"),
    }
    assert!(s.consume_string(b"ab").is_ok());
    assert!(s.at_end());
    assert!(matches!(s.consume_byte(b'a'), Err(StreamError::UnexpectedEndOfStream)));
}

#[test]
fn character_references_in_text() {
    let mut s = SvgStream::new("a&lt;b&amp;&bogus;c");
    assert_eq!(s.consume_str_chunk(), b"a".to_vec());
    assert_eq!(s.consume_str_chunk(), b"<".to_vec());
    assert_eq!(s.consume_str_chunk(), b"b".to_vec());
    assert_eq!(s.consume_str_chunk(), b"&".to_vec());
    assert_eq!(s.consume_str_chunk(), b"c".to_vec());
    assert!(s.at_end());
}

#[test]
fn character_counts() {
    let s = SvgStream::new("aé b");
    assert_eq!(s.calculate_characters_to_byte(0), 1);
    assert_eq!(s.calculate_characters_to_byte(3), 3);
    assert_eq!(s.calculate_characters_to_byte(2), 3);
    assert_eq!(s.calculate_characters_to_byte(9), 6);
    assert_eq!(s.calculate_characters(), 1);
}

#[test]
fn quotes_and_equals() {
    let mut s = SvgStream::new(" = 'v'");
    assert!(s.consume_equals().is_ok());
    assert_eq!(s.consume_quote().unwrap(), b'\'');
    let mut bad = SvgStream::new("v");
    assert!(matches!(bad.consume_quote(), Err(StreamError::InvalidQuote(_))));
}

#[test]
fn spans_compare_by_text() {
    let text = b"abab";
    assert!(Span::from_range(text, 0, 2) == Span::from_range(text, 2, 4));
    assert!(Span::from_range(text, 0, 2) != Span::from_range(text, 1, 3));
}
