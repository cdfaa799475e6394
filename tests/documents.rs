use json_parser::{parse, ParseError, TokenParseError, TokenizeError, Value};

fn parsed(text: &str) -> Result<Value, ParseError> {
    parse(text.to_string())
}

#[test]
fn scenario_null() {
    assert_eq!(parsed("null"), Ok(Value::Null));
}

#[test]
fn scenario_true() {
    assert_eq!(parsed("true"), Ok(Value::Boolean(true)));
}

#[test]
fn scenario_array_of_numbers() {
    let expected = Value::Array(vec![
        Value::Number("1".into()),
        Value::Number("2".into()),
        Value::Number("3".into()),
    ]);
    assert_eq!(parsed("[1,2,3]"), Ok(expected));
}

#[test]
fn scenario_object() {
    let expected = Value::Object(vec![("a".to_string(), Value::Number("1".into()))]);
    assert_eq!(parsed(r#"{"a":1}"#), Ok(expected));
}

#[test]
fn scenario_newline_escape() {
    assert_eq!(parsed(r#""hello\nworld""#), Ok(Value::String("hello\nworld".into())));
}

#[test]
fn scenario_unicode_escape() {
    assert_eq!(parsed(r#""\u0041""#), Ok(Value::String("A".into())));
}

#[test]
fn scenario_missing_bracket() {
    assert_eq!(parsed("[1,2"), Err(ParseError::Parse(TokenParseError::ExpectedComma)));
}

#[test]
fn scenario_missing_colon() {
    assert_eq!(parsed(r#"{"a" 1}"#), Err(ParseError::Parse(TokenParseError::ExpectedColon)));
}

#[test]
fn scenario_double_comma() {
    assert_eq!(parsed("[1,,2]"), Err(ParseError::Parse(TokenParseError::UnexpectedToken)));
}

#[test]
fn nested_document() {
    let text = r#" { "name" : "x\ty", "list" : [ true , false , null , -1.5e3 , { } , [ ] ] } "#;
    let expected = Value::Object(vec![
        ("name".to_string(), Value::String("x\ty".into())),
        (
            "list".to_string(),
            Value::Array(vec![
                Value::Boolean(true),
                Value::Boolean(false),
                Value::Null,
                Value::Number("-1.5e3".into()),
                Value::Object(vec![]),
                Value::Array(vec![]),
            ]),
        ),
    ]);
    assert_eq!(parsed(text), Ok(expected));
}

#[test]
fn lexical_errors_reach_caller() {
    assert_eq!(parsed("[nul]"), Err(ParseError::Tokenize(TokenizeError::UnfinishedLiteralValue)));
    assert_eq!(parsed("[01]"), Err(ParseError::Tokenize(TokenizeError::InvalidNumber)));
    assert_eq!(parsed("\"abc"), Err(ParseError::Tokenize(TokenizeError::UnterminatedString)));
    assert_eq!(parsed("@"), Err(ParseError::Tokenize(TokenizeError::UnexpectedCharacter('@'))));
}

#[test]
fn grammar_errors_reach_caller() {
    assert_eq!(parsed(""), Err(ParseError::Parse(TokenParseError::UnexpectedToken)));
    assert_eq!(parsed("true false"), Err(ParseError::Parse(TokenParseError::UnexpectedToken)));
    assert_eq!(parsed("[1 2]"), Err(ParseError::Parse(TokenParseError::ExpectedComma)));
    assert_eq!(parsed("{1:2}"), Err(ParseError::Parse(TokenParseError::ExpectedProperty)));
    assert_eq!(parsed(r#"{"a":1"#), Err(ParseError::Parse(TokenParseError::ExpectedComma)));
    assert_eq!(parsed(r#""\uD83D""#), Err(ParseError::Parse(TokenParseError::InvalidCodePointValue)));
    assert_eq!(parsed(r#""\u00G0""#), Err(ParseError::Parse(TokenParseError::InvalidHexValue)));
    assert_eq!(parsed(r#""\u00""#), Err(ParseError::Parse(TokenParseError::UnfinishedEscape)));
    assert_eq!(parsed("]"), Err(ParseError::Parse(TokenParseError::UnexpectedToken)));
}

#[test]
fn deeply_nested_arrays() {
    let depth = 200;
    let text = format!("{}{}", "[".repeat(depth), "]".repeat(depth));
    let mut expected = Value::Array(vec![]);
    for _ in 1..depth {
        expected = Value::Array(vec![expected]);
    }
    assert_eq!(parsed(&text), Ok(expected));
}

#[test]
fn canonical_text_parses_to_its_tree() {
    let tree = Value::Object(vec![
        ("k\\\"ey".to_string(), Value::String("q\"b\\s".into())),
        (
            "list".to_string(),
            Value::Array(vec![Value::Number("-0.5E+3".into()), Value::Null, Value::Array(vec![])]),
        ),
        ("empty".to_string(), Value::Object(vec![])),
    ]);
    let text = r#"{"k\"ey":"q\"b\\s","list":[-0.5E+3,null,[]],"empty":{}}"#;
    assert_eq!(parsed(text), Ok(tree));
}
