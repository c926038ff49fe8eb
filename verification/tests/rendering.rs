use nixc::render::render;
use nixc::{Lexer, ParseError, Parser, Value};

fn parse(src: &str) -> Result<Value<'_>, ParseError> {
    let mut lexer = Lexer::new(src);
    let mut parser = Parser { file_name: "input" };
    parser.parse_value(&mut lexer)
}

#[test]
fn renders_scalars() {
    assert_eq!(render(&Value::Null), "null");
    assert_eq!(render(&Value::Bool(true)), "true");
    assert_eq!(render(&Value::Bool(false)), "false");
    assert_eq!(render(&Value::Integer(0)), "0");
    assert_eq!(render(&Value::Integer(10)), "10");
    assert_eq!(render(&Value::Integer(1234567890)), "1234567890");
    assert_eq!(render(&Value::Float("-1.5")), "-1.5");
}

#[test]
fn renders_collections() {
    let v = Value::List(vec![Value::Integer(1), Value::Integer(2), Value::Integer(3)]);
    assert_eq!(render(&v), "[1 2 3]");
    let v = Value::AttrSet(vec![("a", Value::Integer(1)), ("b", Value::Integer(2))]);
    assert_eq!(render(&v), "{a=1,b=2}");
    assert_eq!(render(&Value::List(vec![])), "[]");
    assert_eq!(render(&Value::AttrSet(vec![])), "{}");
}

#[test]
fn round_trip_list() {
    let v = Value::List(vec![
        Value::Integer(1),
        Value::Bool(true),
        Value::Null,
        Value::Float("2.5"),
    ]);
    let text = render(&v);
    assert_eq!(text, "[1 true null 2.5]");
    assert_eq!(parse(&text).unwrap(), v);
}

#[test]
fn round_trip_nested() {
    let v = Value::AttrSet(vec![
        ("size", Value::Integer(12)),
        ("flags", Value::List(vec![Value::Bool(false), Value::Bool(true)])),
        ("inner", Value::AttrSet(vec![("x", Value::Float("1e10"))])),
    ]);
    let text = render(&v);
    assert_eq!(text, "{size=12,flags=[false true],inner={x=1e10}}");
    let reparsed = parse(&text).unwrap();
    assert_eq!(reparsed, v);
}

#[test]
fn round_trip_empty_collections() {
    for v in [Value::List(vec![]), Value::AttrSet(vec![])] {
        let text = render(&v);
        assert_eq!(parse(&text).unwrap(), v);
    }
}

#[test]
fn round_trip_floats_compare_with_tolerance() {
    let v = Value::List(vec![Value::Float("0.1"), Value::Float("1e-3")]);
    let text = render(&v);
    match parse(&text).unwrap() {
        Value::List(items) => {
            let expected = [0.1f64, 1e-3f64];
            for (item, want) in items.iter().zip(expected) {
                match item {
                    Value::Float(t) => {
                        let got = t.parse::<f64>().unwrap();
                        assert!((got - want).abs() < 1e-12);
                    }
                    other => panic!("expected a float, got {:?}", other),
                }
            }
        }
        other => panic!("expected a list, got {:?}", other),
    }
}
