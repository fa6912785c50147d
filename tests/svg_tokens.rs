use svgpath::css_token::{CssTokeniser, TokenType};
use svgpath::error::SvgErrorType;
use svgpath::stream::SvgStream;
use svgpath::xml_token::{ElementControl, Token, Tokeniser};

#[test]
fn css_token() {
    let mut tokeniser = CssTokeniser::new(SvgStream::new(r#""hello"()"#));
    while let Some(token) = tokeniser.parse_next() {
        println!("{token:?}");
    }
}

#[test]
fn token() {
    let mut tokeniser = Tokeniser::new(SvgStream::new(
        r#"
<?bob jeff2?><content><ns:d bob='hello  worldy'></ns:d><football flyer='2' higher='4' /><p> Hello world </p></content>"#,
    ));
    while let Some(token) = tokeniser.parse_next() {
        println!("{token:?}");
    }
}

#[test]
fn css_tokens_in_order() {
    let mut tokeniser = CssTokeniser::new(SvgStream::new("'ab'(;\r\n"));
    let first = tokeniser.parse_next().unwrap().unwrap();
    match first.token_type {
        TokenType::String { value } => {
            assert_eq!(value.text, b"ab");
            assert_eq!(value.start, 1);
        }
        other => panic!("unexpected {other:?}"),
    }
    assert_eq!(first.span.text, b"'ab'");
    assert!(matches!(tokeniser.parse_next().unwrap().unwrap().token_type, TokenType::OpenParen));
    assert!(matches!(tokeniser.parse_next().unwrap().unwrap().token_type, TokenType::Semicolon));
    let newline = tokeniser.parse_next().unwrap().unwrap();
    assert!(matches!(newline.token_type, TokenType::Newline));
    assert_eq!(newline.span.text, b"\r\n");
    assert!(tokeniser.parse_next().is_none());
}

#[test]
fn css_unterminated_string_is_an_error() {
    let mut tokeniser = CssTokeniser::new(SvgStream::new("\"abc"));
    let err = tokeniser.parse_next().unwrap().unwrap_err();
    assert_eq!(err.0, SvgErrorType::CssInvalidString);
}

#[test]
fn css_unknown_byte_is_an_error() {
    let mut tokeniser = CssTokeniser::new(SvgStream::new("x"));
    let err = tokeniser.parse_next().unwrap().unwrap_err();
    assert_eq!(err.0, SvgErrorType::UnknownToken);
}

#[test]
fn xml_tokens_of_a_small_document() {
    let mut tokeniser = Tokeniser::new(SvgStream::new("<a x='1'>hi</a>"));
    match tokeniser.parse_next().unwrap().unwrap() {
        Token::ElementStart { qname, .. } => assert_eq!(qname.local.text, b"a"),
        other => panic!("unexpected {other:?}"),
    }
    match tokeniser.parse_next().unwrap().unwrap() {
        Token::Attribute(attr) => {
            assert_eq!(attr.qname.local.text, b"x");
            assert_eq!(attr.value.text, b"1");
        }
        other => panic!("unexpected {other:?}"),
    }
    assert!(matches!(
        tokeniser.parse_next().unwrap().unwrap(),
        Token::ElementControl { control: ElementControl::Open, .. }
    ));
    match tokeniser.parse_next().unwrap().unwrap() {
        Token::Text { span } => {
            assert_eq!(span.text, b"hi");
            assert_eq!(span.start, 9);
        }
        other => panic!("unexpected {other:?}"),
    }
    match tokeniser.parse_next().unwrap().unwrap() {
        Token::ElementControl { control: ElementControl::Close(qname), .. } => {
            assert_eq!(qname.local.text, b"a")
        }
        other => panic!("unexpected {other:?}"),
    }
    assert!(tokeniser.parse_next().is_none());
}

#[test]
fn tag_tokens_carry_their_text() {
    let mut t = Tokeniser::new(SvgStream::new("<a x='1'/>"));
    match t.parse_next().unwrap().unwrap() {
        Token::ElementStart { qname, span } => {
            assert_eq!(qname.local.text, b"a");
            assert_eq!(span.text, b"<a");
        }
        other => panic!("unexpected {other:?}"),
    }
    match t.parse_next().unwrap().unwrap() {
        Token::Attribute(a) => {
            assert_eq!(a.qname.local.text, b"x");
            assert_eq!(a.value.text, b"1");
            assert_eq!(a.span.text, b"x='1'");
        }
        other => panic!("unexpected {other:?}"),
    }
    match t.parse_next().unwrap().unwrap() {
        Token::ElementControl { control: ElementControl::EmptyTag, span } => assert_eq!(span.text, b"/>"),
        other => panic!("unexpected {other:?}"),
    }
    assert!(t.parse_next().is_none());
}
