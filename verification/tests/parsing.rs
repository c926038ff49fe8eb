use nixc::{Lexer, ParseError, ParseErrorKind, Parser, Span, Value};

fn parse(src: &str) -> Result<Value<'_>, ParseError> {
    let mut lexer = Lexer::new(src);
    let mut parser = Parser { file_name: "input" };
    parser.parse_value(&mut lexer)
}

#[test]
fn empty_list() {
    assert_eq!(parse("[]").unwrap(), Value::List(vec![]));
}

#[test]
fn empty_attrset() {
    assert_eq!(parse("{}").unwrap(), Value::AttrSet(vec![]));
}

#[test]
fn list_of_three_integers() {
    assert_eq!(
        parse("[1 2 3]").unwrap(),
        Value::List(vec![
            Value::Integer(1),
            Value::Integer(2),
            Value::Integer(3)
        ])
    );
}

#[test]
fn no_separator_means_one_token() {
    assert_eq!(parse("[12]").unwrap(), Value::List(vec![Value::Integer(12)]));
}

#[test]
fn attrset_two_keys() {
    assert_eq!(
        parse("{a=1,b=2}").unwrap(),
        Value::AttrSet(vec![("a", Value::Integer(1)), ("b", Value::Integer(2))])
    );
}

#[test]
fn attrset_last_write_wins() {
    assert_eq!(
        parse("{a=1,a=2}").unwrap(),
        Value::AttrSet(vec![("a", Value::Integer(2))])
    );
}

#[test]
fn trailing_comma_rejected() {
    let err = parse("{a=1,}").unwrap_err();
    assert_eq!(err.kind, ParseErrorKind::UnexpectedTokenAttrSet);
}

#[test]
fn unterminated_attrset() {
    let err = parse("{a=1").unwrap_err();
    assert_eq!(err.kind, ParseErrorKind::UnterminatedAttrSet);
    assert_eq!(
        err.message(),
        "unmatched opening brace (context: attrset)".to_string()
    );
}

#[test]
fn unterminated_list() {
    let err = parse("[1 2").unwrap_err();
    assert_eq!(err.kind, ParseErrorKind::UnterminatedList);
    assert_eq!(
        err.message(),
        "unmatched opening bracket defined (context: list)".to_string()
    );
}

#[test]
fn negative_float() {
    let v = parse("-1.5").unwrap();
    match v {
        Value::Float(text) => {
            assert_eq!(text, "-1.5");
            assert_eq!(text.parse::<f64>().unwrap(), -1.5);
        }
        other => panic!("expected a float, got {:?}", other),
    }
}

#[test]
fn exponent_float() {
    let v = parse("1e10").unwrap();
    match v {
        Value::Float(text) => {
            assert_eq!(text, "1e10");
            assert_eq!(text.parse::<f64>().unwrap(), 1e10);
        }
        other => panic!("expected a float, got {:?}", other),
    }
}

#[test]
fn float_shapes() {
    assert_eq!(parse("1.").unwrap(), Value::Float("1."));
    assert_eq!(parse(".5").unwrap(), Value::Float(".5"));
    assert_eq!(parse("1f").unwrap(), Value::Float("1f"));
    assert_eq!(parse("+0.5e-2d").unwrap(), Value::Float("+0.5e-2d"));
}

#[test]
fn integer_with_separators() {
    assert_eq!(parse("1_000").unwrap(), Value::Integer(1000));
}

#[test]
fn largest_integer_accepted() {
    assert_eq!(
        parse("9223372036854775807").unwrap(),
        Value::Integer(i64::MAX)
    );
}

#[test]
fn integer_overflow_is_a_diagnostic() {
    let err = parse("9223372036854775808").unwrap_err();
    assert_eq!(err.kind, ParseErrorKind::IntegerOverflow);
    assert_eq!(err.span, Span { start: 0, end: 19 });
}

#[test]
fn integer_overflow_inside_list() {
    let err = parse("[99999999999999999999]").unwrap_err();
    assert_eq!(err.kind, ParseErrorKind::IntegerOverflow);
}

#[test]
fn hex_integer_rejected_as_unsupported() {
    let err = parse("0x1A").unwrap_err();
    assert_eq!(err.kind, ParseErrorKind::UnsupportedLiteral);
}

#[test]
fn hex_float_rejected_as_unsupported() {
    let err = parse("0x1.8p3").unwrap_err();
    assert_eq!(err.kind, ParseErrorKind::UnsupportedLiteral);
}

#[test]
fn octal_and_binary_rejected_as_unsupported() {
    assert_eq!(
        parse("0o17").unwrap_err().kind,
        ParseErrorKind::UnsupportedLiteral
    );
    assert_eq!(
        parse("0b101").unwrap_err().kind,
        ParseErrorKind::UnsupportedLiteral
    );
}

#[test]
fn empty_input() {
    let err = parse("").unwrap_err();
    assert_eq!(err.kind, ParseErrorKind::EmptyValue);
    assert_eq!(err.message(), "empty values are not allowed".to_string());
}

#[test]
fn parsing_is_deterministic() {
    let src = "{a=[1 2],b={c=null}}";
    assert_eq!(parse(src).unwrap(), parse(src).unwrap());
    let bad = "{a=1,}";
    assert_eq!(
        parse(bad).unwrap_err().kind,
        parse(bad).unwrap_err().kind
    );
}

#[test]
fn nested_structures() {
    assert_eq!(
        parse("[[1] [2 3]]").unwrap(),
        Value::List(vec![
            Value::List(vec![Value::Integer(1)]),
            Value::List(vec![Value::Integer(2), Value::Integer(3)]),
        ])
    );
    assert_eq!(
        parse("{a={b=1}}").unwrap(),
        Value::AttrSet(vec![(
            "a",
            Value::AttrSet(vec![("b", Value::Integer(1))])
        )])
    );
}

#[test]
fn keywords_parse_as_values() {
    assert_eq!(parse("null").unwrap(), Value::Null);
    assert_eq!(parse("true").unwrap(), Value::Bool(true));
    assert_eq!(parse("false").unwrap(), Value::Bool(false));
    assert_eq!(
        parse("[true false null]").unwrap(),
        Value::List(vec![Value::Bool(true), Value::Bool(false), Value::Null])
    );
}

#[test]
fn keyword_is_not_a_key() {
    let err = parse("{null=1}").unwrap_err();
    assert_eq!(err.kind, ParseErrorKind::UnexpectedTokenAttrSet);
}

#[test]
fn key_without_equals() {
    let err = parse("{a 1}").unwrap_err();
    assert_eq!(err.kind, ParseErrorKind::ExpectedEquals);
    assert_eq!(
        err.message(),
        "expected '=' (context: attrset)".to_string()
    );
}

#[test]
fn unicode_identifier_key() {
    assert_eq!(
        parse("{stra\u{00df}e=1}").unwrap(),
        Value::AttrSet(vec![("stra\u{00df}e", Value::Integer(1))])
    );
}

#[test]
fn single_space_is_a_token_even_at_value_position() {
    // one leading space is a Space token, which no value production accepts
    let err = parse(" 1").unwrap_err();
    assert_eq!(err.kind, ParseErrorKind::UnexpectedTokenValue);
    // a run of two spaces is discarded whitespace
    assert_eq!(parse("  1").unwrap(), Value::Integer(1));
}

#[test]
fn space_runs_inside_lists() {
    // "[ ]" holds a Space token that the list machine does not expect yet
    assert_eq!(
        parse("[ ]").unwrap_err().kind,
        ParseErrorKind::UnexpectedTokenList
    );
    // "[  ]" discards the run and is an empty list
    assert_eq!(parse("[  ]").unwrap(), Value::List(vec![]));
    // two spaces between elements are discarded, leaving no separator
    assert_eq!(
        parse("[1  2]").unwrap_err().kind,
        ParseErrorKind::UnexpectedTokenList
    );
}

#[test]
fn comments_are_discarded() {
    assert_eq!(parse("// note\n42").unwrap(), Value::Integer(42));
    assert_eq!(
        parse("{a=1,//x\nb=2}").unwrap(),
        Value::AttrSet(vec![("a", Value::Integer(1)), ("b", Value::Integer(2))])
    );
}

#[test]
fn error_carries_source_text() {
    let err = parse("{a=1,}").unwrap_err();
    assert_eq!(err.src, "{a=1,}");
    assert_eq!(err.file_name, "input");
}

#[test]
fn mixed_list_of_values() {
    assert_eq!(
        parse("[null true 3 4.5 {a=null}]").unwrap(),
        Value::List(vec![
            Value::Null,
            Value::Bool(true),
            Value::Integer(3),
            Value::Float("4.5"),
            Value::AttrSet(vec![("a", Value::Null)]),
        ])
    );
}

#[test]
fn single_space_after_comma_is_rejected() {
    // one space lexes as a token the attrset machine does not accept
    let err = parse("{a=1, b=2}").unwrap_err();
    assert_eq!(err.kind, ParseErrorKind::UnexpectedTokenAttrSet);
    // a run of two spaces is discarded
    assert_eq!(
        parse("{a=1,  b=2}").unwrap(),
        Value::AttrSet(vec![("a", Value::Integer(1)), ("b", Value::Integer(2))])
    );
}

#[test]
fn space_before_equals_is_rejected() {
    let err = parse("{a =1}").unwrap_err();
    assert_eq!(err.kind, ParseErrorKind::ExpectedEquals);
}

#[test]
fn unsupported_literal_message() {
    let err = parse("0x1A").unwrap_err();
    assert_eq!(
        err.message(),
        "unsupported literal (context: value)".to_string()
    );
}

#[test]
fn trailing_input_is_not_read() {
    // the parser consumes exactly one value; what follows is never lexed
    assert_eq!(parse("[] @@@").unwrap(), Value::List(vec![]));
}
