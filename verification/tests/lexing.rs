use nixc::{LexErrorKind, Lexer, Span, Token};

fn tokens(src: &str) -> Vec<Token<'_>> {
    let mut lexer = Lexer::new(src);
    let mut out = Vec::new();
    while let Some(item) = lexer.next() {
        out.push(item.expect("unexpected lexical failure"));
    }
    out
}

#[test]
fn brackets_digits_and_space() {
    let ts = tokens("[1 2]");
    assert_eq!(ts.len(), 5);
    assert!(matches!(ts[0], Token::BracketOpen));
    assert!(matches!(ts[1], Token::Integer(1)));
    assert!(matches!(ts[2], Token::Space));
    assert!(matches!(ts[3], Token::Integer(2)));
    assert!(matches!(ts[4], Token::BracketClose));
}

#[test]
fn radix_integers_are_recognized_not_converted() {
    assert!(matches!(tokens("0x1A")[..], [Token::HexInteger]));
    assert!(matches!(tokens("0o17")[..], [Token::OctalInteger]));
    assert!(matches!(tokens("0b1_0")[..], [Token::BinaryInteger]));
}

#[test]
fn hex_float_keeps_its_text() {
    let ts = tokens("0x1.8p-3");
    assert_eq!(ts.len(), 1);
    assert!(matches!(ts[0], Token::HexFloat("0x1.8p-3")));
}

#[test]
fn longest_match_wins() {
    // "0d" is a float (digit run plus type suffix), then "12" is an integer
    let ts = tokens("0d12");
    assert_eq!(ts.len(), 2);
    assert!(matches!(ts[0], Token::Float("0d")));
    assert!(matches!(ts[1], Token::Integer(12)));
    // "0x" with no hex digit falls back to the integer 0 and an identifier
    let ts = tokens("0x");
    assert_eq!(ts.len(), 2);
    assert!(matches!(ts[0], Token::Integer(0)));
    assert!(matches!(ts[1], Token::Identifier("x")));
    // "1e" without exponent digits is an integer and an identifier
    let ts = tokens("1e");
    assert_eq!(ts.len(), 2);
    assert!(matches!(ts[0], Token::Integer(1)));
    assert!(matches!(ts[1], Token::Identifier("e")));
}

#[test]
fn keywords_and_identifiers() {
    let ts = tokens("true false null let in trueish");
    assert!(matches!(ts[0], Token::Bool(true)));
    assert!(matches!(ts[2], Token::Bool(false)));
    assert!(matches!(ts[4], Token::Null));
    assert!(matches!(ts[6], Token::Let));
    assert!(matches!(ts[8], Token::In));
    assert!(matches!(ts[10], Token::Identifier("trueish")));
}

#[test]
fn punctuation_tokens() {
    let ts = tokens("{}:,=;");
    assert!(matches!(ts[0], Token::BraceOpen));
    assert!(matches!(ts[1], Token::BraceClose));
    assert!(matches!(ts[2], Token::Colon));
    assert!(matches!(ts[3], Token::Comma));
    assert!(matches!(ts[4], Token::Equals));
    assert!(matches!(ts[5], Token::SemiColon));
}

#[test]
fn whitespace_policy() {
    // a single space is a token; a run of two is discarded
    assert_eq!(tokens("a b").len(), 3);
    assert_eq!(tokens("a  b").len(), 2);
    // tabs, newlines and form feeds are always discarded
    assert_eq!(tokens("a\tb\nc\u{000c}d").len(), 4);
}

#[test]
fn comments_do_not_surface() {
    let ts = tokens("1// all of this vanishes\n2");
    assert_eq!(ts.len(), 2);
    assert!(matches!(ts[0], Token::Integer(1)));
    assert!(matches!(ts[1], Token::Integer(2)));
}

#[test]
fn unicode_identifier() {
    let ts = tokens("\u{00fc}bung");
    assert_eq!(ts.len(), 1);
    assert!(matches!(ts[0], Token::Identifier("\u{00fc}bung")));
}

#[test]
fn invalid_character() {
    let mut lexer = Lexer::new("@");
    let err = lexer.next().unwrap().unwrap_err();
    assert_eq!(err.kind, LexErrorKind::InvalidToken);
    assert_eq!(err.span, Span { start: 0, end: 1 });
}

#[test]
fn lone_minus_is_invalid() {
    let mut lexer = Lexer::new("-x");
    let err = lexer.next().unwrap().unwrap_err();
    assert_eq!(err.kind, LexErrorKind::InvalidToken);
}

#[test]
fn overflowing_integer_literal() {
    let mut lexer = Lexer::new("99999999999999999999");
    let err = lexer.next().unwrap().unwrap_err();
    assert_eq!(err.kind, LexErrorKind::IntegerOverflow);
    assert_eq!(err.span, Span { start: 0, end: 20 });
}

#[test]
fn span_reports_the_last_token() {
    let mut lexer = Lexer::new("ab cd");
    lexer.next().unwrap().unwrap();
    assert_eq!(lexer.span(), Span { start: 0, end: 2 });
    lexer.next().unwrap().unwrap();
    assert_eq!(lexer.span(), Span { start: 2, end: 3 });
    lexer.next().unwrap().unwrap();
    assert_eq!(lexer.span(), Span { start: 3, end: 5 });
}

#[test]
fn spans_count_bytes_not_characters() {
    // the identifier is two bytes long in UTF-8
    let mut lexer = Lexer::new("\u{00e9}=");
    lexer.next().unwrap().unwrap();
    assert_eq!(lexer.span(), Span { start: 0, end: 2 });
    lexer.next().unwrap().unwrap();
    assert_eq!(lexer.span(), Span { start: 2, end: 3 });
}

#[test]
fn end_of_input() {
    let mut lexer = Lexer::new("  \t// only trivia");
    assert!(lexer.next().is_none());
    assert!(lexer.next().is_none());
}
