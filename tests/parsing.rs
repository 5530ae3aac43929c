use datalit::lexer::{Lexer, TokenKind};
use datalit::parser::{parse, ParseErrorKind, Parser};
use datalit::value::Value;

fn integer(n: i64) -> Value {
    Value::Integer(n)
}

fn obj(fields: Vec<(&str, Value)>) -> Value {
    Value::Object(fields.into_iter().map(|(k, v)| (k.to_string(), v)).collect())
}

#[test]
fn hello() {
    let mut lexer = Lexer::new(
        r#"
        (
            symbol "AAPL", # Apple Inc
            close_price 100.27,
            past_prices [99.80, 100.17, 110.17],
            delisted False,
            address None,
            financials (
                eps 0.27,
                revenue 100_000,
            )
        )
        "#,
    );
    let mut kinds = Vec::new();
    while let Some(token) = lexer.consume() {
        println!("Token: {:?}", token);
        kinds.push(token.kind);
    }
    assert!(!kinds.contains(&TokenKind::Invalid));
    assert_eq!(kinds.iter().filter(|k| **k == TokenKind::Comment).count(), 1);
}

#[test]
fn document_parses() {
    let src = r#"
        (
            symbol "AAPL", # Apple Inc
            close_price 100.27,
            past_prices [99.80, 100.17, 110.17],
            delisted False,
            address None,
            financials (
                eps 0.27,
                revenue 100_000,
            )
        )
    "#;
    let v = Parser::new(src).parse().unwrap();
    match v {
        Value::Object(fields) => {
            let names: Vec<&str> = fields.iter().map(|f| f.0.as_str()).collect();
            assert_eq!(
                names,
                vec!["address", "close_price", "delisted", "financials", "past_prices", "symbol"]
            );
            assert_eq!(fields[0].1, Value::Null);
            assert_eq!(fields[2].1, Value::Boolean(false));
            assert_eq!(fields[5].1, Value::String("AAPL".to_string()));
            assert_eq!(
                fields[3].1,
                obj(vec![("eps", Value::Float("0.27".to_string())), ("revenue", integer(100000))])
            );
        }
        other => panic!("not an object: {:?}", other),
    }
}

#[test]
fn fields_sorted_regardless_of_order() {
    let a = parse("(b 1, a 2)").unwrap();
    let b = parse("(a 2, b 1)").unwrap();
    assert_eq!(a, b);
    assert_eq!(a, obj(vec![("a", integer(2)), ("b", integer(1))]));
}

#[test]
fn duplicate_field_fails_at_second() {
    let e = parse("(a 1, a 2)").unwrap_err();
    assert_eq!(e.kind, ParseErrorKind::DuplicateField);
    assert_eq!(e.location, 6);
}

#[test]
fn non_snake_case_field_fails() {
    let e = parse("(Abc 1)").unwrap_err();
    // `Abc` starts with a capital, so it is read as a keyword where a field is due.
    assert_eq!(e.kind, ParseErrorKind::ExpectedField);
    assert_eq!(e.location, 1);
    assert!(e.message.contains("Abc"));
    let e = parse("(aBc 1)").unwrap_err();
    assert_eq!(e.kind, ParseErrorKind::FieldNotSnakeCase);
    assert_eq!(e.location, 1);
    assert!(e.message.contains("aBc"));
}

#[test]
fn separators_in_numbers() {
    assert_eq!(parse("100_000").unwrap(), integer(100000));
    assert_eq!(parse("100000").unwrap(), integer(100000));
    match parse("0.27").unwrap() {
        Value::Float(t) => assert_eq!(t.parse::<f64>().unwrap(), 0.27),
        other => panic!("not a float: {:?}", other),
    }
    assert_eq!(parse("1_0.5_0").unwrap(), Value::Float("10.50".to_string()));
    assert_eq!(parse("-42").unwrap(), integer(-42));
    assert_eq!(parse("-9223372036854775808").unwrap(), integer(i64::MIN));
    assert_eq!(parse("9223372036854775807").unwrap(), integer(i64::MAX));
}

#[test]
fn number_errors() {
    assert_eq!(parse("9223372036854775808").unwrap_err().kind, ParseErrorKind::InvalidInteger);
    assert_eq!(parse("-").unwrap_err().kind, ParseErrorKind::InvalidInteger);
    assert_eq!(parse(".").unwrap_err().kind, ParseErrorKind::InvalidFloat);
    let e = parse("[1, 2.3.4]").unwrap_err();
    assert_eq!(e.kind, ParseErrorKind::ExpectedValue);
    assert_eq!(e.location, 4);
    assert_eq!(parse("5-3").unwrap_err().kind, ParseErrorKind::ExpectedValue);
}

#[test]
fn keywords() {
    assert_eq!(parse("True").unwrap(), Value::Boolean(true));
    assert_eq!(parse("False").unwrap(), Value::Boolean(false));
    assert_eq!(parse("None").unwrap(), Value::Null);
    let e = parse("Badly").unwrap_err();
    assert_eq!(e.kind, ParseErrorKind::UnknownKeyword);
    assert_eq!(e.location, 0);
    assert_eq!(parse("TRUE").unwrap_err().kind, ParseErrorKind::UnknownKeyword);
}

#[test]
fn comments_are_transparent() {
    let a = parse("(a 1, # comment\n b 2)").unwrap();
    let b = parse("(a 1, b 2)").unwrap();
    assert_eq!(a, b);
    assert_eq!(parse("[1] # trailing comment").unwrap(), Value::List(vec![integer(1)]));
}

#[test]
fn trailing_tokens_fail() {
    let e = parse("(a 1) extra").unwrap_err();
    assert_eq!(e.kind, ParseErrorKind::TrailingInput);
    assert_eq!(e.location, 6);
}

#[test]
fn lists_and_empty_containers() {
    assert_eq!(parse("[]").unwrap(), Value::List(vec![]));
    assert_eq!(parse("()").unwrap(), Value::Object(vec![]));
    assert_eq!(parse("[1, 2,]").unwrap(), Value::List(vec![integer(1), integer(2)]));
    assert_eq!(parse("[\"x\"]").unwrap(), Value::List(vec![Value::String("x".to_string())]));
    let e = parse("[1 2]").unwrap_err();
    assert_eq!(e.kind, ParseErrorKind::ExpectedListEnd);
    assert_eq!(e.location, 3);
    let e = parse("[1,").unwrap_err();
    assert_eq!(e.kind, ParseErrorKind::ExpectedValue);
    assert_eq!(e.location, 3);
    let e = parse("(a 1 b 2)").unwrap_err();
    assert_eq!(e.kind, ParseErrorKind::ExpectedObjectEnd);
    assert_eq!(e.location, 5);
    let e = parse("").unwrap_err();
    assert_eq!(e.kind, ParseErrorKind::ExpectedValue);
    assert_eq!(e.location, 0);
}

#[test]
fn unterminated_string_fails() {
    let e = parse("\"abc").unwrap_err();
    assert_eq!(e.kind, ParseErrorKind::ExpectedValue);
    assert_eq!(e.location, 0);
}

#[test]
fn strings_keep_unicode() {
    assert_eq!(parse("\"AAPLğŸ’€\"").unwrap(), Value::String("AAPLğŸ’€".to_string()));
    let e = parse("(s \"ğŸ’€\", s 1)").unwrap_err();
    assert_eq!(e.kind, ParseErrorKind::DuplicateField);
    assert_eq!(e.location, 11);
}

#[test]
fn lexer_stops_after_invalid() {
    let mut lexer = Lexer::new("( @ )");
    assert_eq!(lexer.consume().unwrap().kind, TokenKind::ParenL);
    let t = lexer.consume().unwrap();
    assert_eq!(t.kind, TokenKind::Invalid);
    assert_eq!((t.start, t.end), (2, 5));
    assert!(lexer.consume().is_none());
}

#[test]
fn lexer_without_comments() {
    let mut lexer = Lexer::new("# only a comment\n1 # and another").no_comments();
    let t = lexer.next().unwrap();
    assert_eq!((t.kind, t.start, t.end), (TokenKind::Integer, 17, 18));
    assert!(lexer.next().is_none());
}
