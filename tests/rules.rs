use datalit::parser::parse;
use datalit::rule::{PathStep, Rule, ValidationErrorKind};
use datalit::value::Value;

fn schema() -> Rule {
    Rule::Object(vec![
        ("a".to_string(), Rule::Integer),
        ("b".to_string(), Rule::Default(Value::Null)),
    ])
}

fn field(e: &PathStep) -> Option<&str> {
    match e {
        PathStep::Field(n) => Some(n.as_str()),
        PathStep::Index(_) => None,
    }
}

#[test]
fn default_fills_absent_field() {
    let v = schema().validate(&parse("(a 1)").unwrap()).unwrap();
    assert_eq!(v, parse("(a 1, b None)").unwrap());
}

#[test]
fn unexpected_field_is_cited() {
    let e = schema().validate(&parse("(a 1, c 2)").unwrap()).unwrap_err();
    assert_eq!(e.kind, ValidationErrorKind::UnexpectedField);
    assert_eq!(e.path.len(), 1);
    assert_eq!(field(&e.path[0]), Some("c"));
}

#[test]
fn missing_field_is_cited() {
    let e = schema().validate(&parse("(b 2)").unwrap()).unwrap_err();
    assert_eq!(e.kind, ValidationErrorKind::MissingField);
    assert_eq!(e.path.len(), 1);
    assert_eq!(field(&e.path[0]), Some("a"));
}

#[test]
fn list_all_reports_index() {
    let rule = Rule::ListAll(Box::new(Rule::Integer));
    let e = rule.validate(&parse("[1, 2, \"x\"]").unwrap()).unwrap_err();
    assert_eq!(e.kind, ValidationErrorKind::TypeMismatch);
    assert_eq!(e.path.len(), 1);
    assert!(matches!(e.path[0], PathStep::Index(2)));
    assert!(rule.validate(&parse("[1, 2, 3]").unwrap()).is_ok());
}

#[test]
fn nested_error_path() {
    let rule = Rule::Object(vec![("xs".to_string(), Rule::ListAll(Box::new(Rule::String)))]);
    let e = rule.validate(&parse("(xs [\"a\", 1])").unwrap()).unwrap_err();
    assert_eq!(e.kind, ValidationErrorKind::TypeMismatch);
    assert_eq!(e.path.len(), 2);
    assert_eq!(field(&e.path[0]), Some("xs"));
    assert!(matches!(e.path[1], PathStep::Index(1)));
}

#[test]
fn primitive_rules() {
    assert!(Rule::Integer.validate(&Value::Float("1.0".to_string())).is_err());
    assert!(Rule::Number.validate(&Value::Float("1.0".to_string())).is_ok());
    assert!(Rule::Number.validate(&Value::Integer(3)).is_ok());
    assert!(Rule::Number.validate(&Value::Null).is_err());
    assert!(Rule::Any.validate(&Value::Boolean(true)).is_ok());
    assert!(Rule::Null.validate(&Value::Null).is_ok());
    assert!(Rule::List.validate(&Value::List(vec![])).is_ok());
    assert!(Rule::Boolean.validate(&Value::Integer(0)).is_err());
}

#[test]
fn string_shape_rules() {
    let s = |t: &str| Value::String(t.to_string());
    assert!(Rule::AllUppercase.validate(&s("ABC 1")).is_ok());
    assert_eq!(Rule::AllUppercase.validate(&s("AbC")).unwrap_err().kind, ValidationErrorKind::NotUppercase);
    assert!(Rule::AllLowercase.validate(&s("abc")).is_ok());
    assert_eq!(Rule::AllLowercase.validate(&s("aBc")).unwrap_err().kind, ValidationErrorKind::NotLowercase);
    assert!(Rule::Url.validate(&s("https://example.com/x")).is_ok());
    assert_eq!(Rule::Url.validate(&s("example.com")).unwrap_err().kind, ValidationErrorKind::NotUrl);
    assert_eq!(Rule::Url.validate(&s("http:///x")).unwrap_err().kind, ValidationErrorKind::NotUrl);
    assert!(Rule::Length(3).validate(&s("abc")).is_ok());
    assert_eq!(Rule::Length(2).validate(&s("abc")).unwrap_err().kind, ValidationErrorKind::WrongLength);
    assert_eq!(Rule::MinLength(4).validate(&s("abc")).unwrap_err().kind, ValidationErrorKind::TooShort);
    assert_eq!(Rule::MaxLength(2).validate(&s("abc")).unwrap_err().kind, ValidationErrorKind::TooLong);
    assert_eq!(Rule::Length(3).validate(&Value::Integer(3)).unwrap_err().kind, ValidationErrorKind::TypeMismatch);
}

#[test]
fn numeric_bounds() {
    let f = |t: &str| Value::Float(t.to_string());
    assert!(Rule::Min(5).validate(&Value::Integer(5)).is_ok());
    assert_eq!(Rule::Min(5).validate(&Value::Integer(4)).unwrap_err().kind, ValidationErrorKind::BelowMin);
    assert!(Rule::Max(5).validate(&Value::Integer(5)).is_ok());
    assert_eq!(Rule::Max(5).validate(&Value::Integer(6)).unwrap_err().kind, ValidationErrorKind::AboveMax);
    assert!(Rule::Min(5).validate(&f("5.0")).is_ok());
    assert_eq!(Rule::Min(5).validate(&f("4.99")).unwrap_err().kind, ValidationErrorKind::BelowMin);
    assert!(Rule::Max(5).validate(&f("5.00")).is_ok());
    assert_eq!(Rule::Max(5).validate(&f("5.01")).unwrap_err().kind, ValidationErrorKind::AboveMax);
    assert!(Rule::Min(-3).validate(&f("-2.5")).is_ok());
    assert_eq!(Rule::Min(-2).validate(&f("-2.5")).unwrap_err().kind, ValidationErrorKind::BelowMin);
    assert!(Rule::Max(-2).validate(&f("-2.5")).is_ok());
    assert!(Rule::Max(0).validate(&f("-.5")).is_ok());
    assert!(Rule::Min(i64::MAX).validate(&f("99999999999999999999999.5")).is_ok());
    assert_eq!(Rule::Min(0).validate(&Value::String("1".to_string())).unwrap_err().kind, ValidationErrorKind::TypeMismatch);
}

#[test]
fn union_and_list_rules() {
    let u = Rule::RuleUnion(vec![Rule::Integer, Rule::String]);
    assert!(u.validate(&Value::Integer(1)).is_ok());
    assert!(u.validate(&Value::String("x".to_string())).is_ok());
    assert_eq!(u.validate(&Value::Null).unwrap_err().kind, ValidationErrorKind::TypeMismatch);
    let last = Rule::RuleUnion(vec![Rule::Integer, Rule::MinLength(3)]);
    assert_eq!(last.validate(&Value::String("x".to_string())).unwrap_err().kind, ValidationErrorKind::TooShort);
    assert_eq!(Rule::RuleUnion(vec![]).validate(&Value::Null).unwrap_err().kind, ValidationErrorKind::NoAlternative);
    let all = Rule::RuleList(vec![Rule::Integer, Rule::Min(0), Rule::Max(10)]);
    assert!(all.validate(&Value::Integer(3)).is_ok());
    assert_eq!(all.validate(&Value::Integer(11)).unwrap_err().kind, ValidationErrorKind::AboveMax);
    assert!(Rule::RuleList(vec![]).validate(&Value::Null).is_ok());
}

#[test]
fn defaults_keep_fields_sorted() {
    let rule = Rule::Object(vec![
        ("z".to_string(), Rule::Default(Value::Integer(26))),
        ("m".to_string(), Rule::Integer),
        ("a".to_string(), Rule::Default(Value::Integer(1))),
    ]);
    let v = rule.validate(&parse("(m 13)").unwrap()).unwrap();
    assert_eq!(v, parse("(a 1, m 13, z 26)").unwrap());
    let v = rule.validate(&parse("(a 2, m 13)").unwrap()).unwrap();
    assert_eq!(v, parse("(a 2, m 13, z 26)").unwrap());
}
