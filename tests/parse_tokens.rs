use json_parser::{parse_tokens, Token, TokenParseError, Value};

fn numeral_value(v: &Value) -> f64 {
    match v {
        Value::Number(n) => n.parse::<f64>().unwrap(),
        _ => panic!("not a number"),
    }
}

#[test]
fn parses_null() {
    let input = [Token::Null];
    let expected = Value::Null;

    let actual = parse_tokens(&input, &mut 0).unwrap();

    assert_eq!(actual, expected);
}

#[test]
fn parses_true() {
    let input = [Token::True];
    let expected = Value::Boolean(true);

    let actual = parse_tokens(&input, &mut 0).unwrap();

    assert_eq!(actual, expected);
}

#[test]
fn parses_false() {
    let input = [Token::False];
    let expected = Value::Boolean(false);

    let actual = parse_tokens(&input, &mut 0).unwrap();

    assert_eq!(actual, expected);
}

#[test]
fn parse_number() {
    let input = [Token::Number("10".into())];
    let expected = Value::Number("10".into());

    let actual = parse_tokens(&input, &mut 0).unwrap();

    assert_eq!(actual, expected);
    assert_eq!(numeral_value(&actual), 10.0);
}

#[test]
fn parses_string_no_escapes() {
    let input = [Token::String("hello world".into())];
    let expected = Value::String("hello world".into());

    let actual = parse_tokens(&input, &mut 0).unwrap();

    assert_eq!(actual, expected);
}

#[test]
fn parses_string_non_ascii() {
    let input = [Token::String(String::from("olá_こんにちは_नमस्ते_привіт"))];
    let expected = Value::String(String::from("olá_こんにちは_नमस्ते_привіт"));

    let actual = parse_tokens(&input, &mut 0).unwrap();

    assert_eq!(actual, expected);
}

#[test]
fn parses_string_with_emoji() {
    let input = [Token::String(String::from("hello 💩 world"))];
    let expected = Value::String(String::from("hello 💩 world"));

    let actual = parse_tokens(&input, &mut 0).unwrap();

    assert_eq!(actual, expected);
}

#[test]
fn parses_string_unescape_backslash() {
    let input = [Token::String(r#"hello\\world"#.into())];
    let expected = Value::String(r#"hello\world"#.into());

    let actual = parse_tokens(&input, &mut 0).unwrap();

    assert_eq!(actual, expected);
}

#[test]
fn parses_array_one_element() {
    // [true]
    let input = [Token::LeftBracket, Token::True, Token::RightBracket];
    let expected = Value::Array(vec![Value::Boolean(true)]);

    let actual = parse_tokens(&input, &mut 0).unwrap();

    assert_eq!(actual, expected);
}

#[test]
fn parses_array_two_elements() {
    // [null, 16]
    let input = [
        Token::LeftBracket,
        Token::Null,
        Token::Comma,
        Token::Number("16".into()),
        Token::RightBracket,
    ];
    let expected = Value::Array(vec![Value::Null, Value::Number("16".into())]);

    let actual = parse_tokens(&input, &mut 0).unwrap();

    assert_eq!(actual, expected);
}

#[test]
fn parses_empty_array() {
    // []
    let input = [Token::LeftBracket, Token::RightBracket];
    let expected = Value::Array(vec![]);

    let actual = parse_tokens(&input, &mut 0).unwrap();

    assert_eq!(actual, expected);
}

#[test]
fn parses_nested_array() {
    // [null, [null]]
    let input = [
        Token::LeftBracket,
        Token::Null,
        Token::Comma,
        Token::LeftBracket,
        Token::Null,
        Token::RightBracket,
        Token::RightBracket,
    ];
    let expected = Value::Array(vec![Value::Null, Value::Array(vec![Value::Null])]);

    let actual = parse_tokens(&input, &mut 0).unwrap();

    assert_eq!(actual, expected);
}

#[test]
fn parses_object_one_element() {
    // {"foo": true}
    let input = [
        Token::LeftBrace,
        Token::String("foo".into()),
        Token::Colon,
        Token::True,
        Token::RightBrace,
    ];

    let expected = Value::Object(vec![("foo".to_string(), Value::Boolean(true))]);

    let actual = parse_tokens(&input, &mut 0).unwrap();

    assert_eq!(actual, expected);
}

#[test]
fn parse_object_empty() {
    let input = [Token::LeftBrace, Token::RightBrace];
    let expected = Value::Object(vec![]);

    let actual = parse_tokens(&input, &mut 0).unwrap();

    assert_eq!(actual, expected);
}

#[test]
fn parses_object_nested_objects() {
    // {"foo": {"bar": true}}
    let input = [
        Token::LeftBrace,
        Token::String("foo".into()),
        Token::Colon,
        Token::LeftBrace,
        Token::String("bar".into()),
        Token::Colon,
        Token::True,
        Token::RightBrace,
        Token::RightBrace,
    ];

    let expected = Value::Object(vec![(
        "foo".to_string(),
        Value::Object(vec![("bar".to_string(), Value::Boolean(true))]),
    )]);

    let actual = parse_tokens(&input, &mut 0).unwrap();

    assert_eq!(actual, expected);
}

#[test]
fn cursor_moves_past_value() {
    let input = [
        Token::Comma,
        Token::LeftBracket,
        Token::Null,
        Token::RightBracket,
        Token::Colon,
    ];
    let mut index = 1;

    let actual = parse_tokens(&input, &mut index).unwrap();

    assert_eq!(actual, Value::Array(vec![Value::Null]));
    assert_eq!(index, 4);
}

#[test]
fn cursor_kept_on_error() {
    let input = [Token::LeftBracket, Token::Null, Token::Null];
    let mut index = 0;

    let actual = parse_tokens(&input, &mut index);

    assert_eq!(actual, Err(TokenParseError::ExpectedComma));
    assert_eq!(index, 0);
}

#[test]
fn cursor_past_end_is_unexpected_token() {
    let input = [Token::Null];

    assert_eq!(parse_tokens(&input, &mut 1), Err(TokenParseError::UnexpectedToken));
    assert_eq!(parse_tokens(&[], &mut 0), Err(TokenParseError::UnexpectedToken));
}

#[test]
fn duplicate_key_overwrites_in_place() {
    // {"a": 1, "b": 2, "a": 3}
    let input = [
        Token::LeftBrace,
        Token::String("a".into()),
        Token::Colon,
        Token::Number("1".into()),
        Token::Comma,
        Token::String("b".into()),
        Token::Colon,
        Token::Number("2".into()),
        Token::Comma,
        Token::String("a".into()),
        Token::Colon,
        Token::Number("3".into()),
        Token::RightBrace,
    ];
    let expected = Value::Object(vec![
        ("a".to_string(), Value::Number("3".into())),
        ("b".to_string(), Value::Number("2".into())),
    ]);

    let actual = parse_tokens(&input, &mut 0).unwrap();

    assert_eq!(actual, expected);
}

#[test]
fn string_escapes_decoded() {
    let input = [Token::String(r#"a\"b\/c\bd\fe\nf\rg\thé\q"#.into())];
    let expected = Value::String("a\"b/c\u{8}d\u{c}e\nf\rg\th\u{e9}q".into());

    assert_eq!(parse_tokens(&input, &mut 0).unwrap(), expected);
}

#[test]
fn escape_errors() {
    let cases = [
        (r#"\u12"#, TokenParseError::UnfinishedEscape),
        (r#"\u12G4"#, TokenParseError::InvalidHexValue),
        (r#"\uZ1"#, TokenParseError::InvalidHexValue),
        (r#"\uD800"#, TokenParseError::InvalidCodePointValue),
        (r#"abc\"#, TokenParseError::UnfinishedEscape),
    ];
    for (raw, err) in cases {
        let input = [Token::String(raw.into())];
        assert_eq!(parse_tokens(&input, &mut 0), Err(err), "{}", raw);
    }
}

#[test]
fn uppercase_hex_escape() {
    let input = [Token::String(r#"\u004A\u004a\u00e9"#.into())];
    assert_eq!(parse_tokens(&input, &mut 0).unwrap(), Value::String("JJ\u{e9}".into()));
}

#[test]
fn grammar_errors() {
    let missing_colon = [Token::LeftBrace, Token::String("a".into()), Token::True];
    assert_eq!(parse_tokens(&missing_colon, &mut 0), Err(TokenParseError::ExpectedColon));

    let missing_key = [Token::LeftBrace, Token::True, Token::RightBrace];
    assert_eq!(parse_tokens(&missing_key, &mut 0), Err(TokenParseError::ExpectedProperty));

    let trailing_comma = [Token::LeftBracket, Token::True, Token::Comma, Token::RightBracket];
    assert_eq!(parse_tokens(&trailing_comma, &mut 0), Err(TokenParseError::UnexpectedToken));

    let object_trailing_comma = [
        Token::LeftBrace,
        Token::String("a".into()),
        Token::Colon,
        Token::True,
        Token::Comma,
        Token::RightBrace,
    ];
    assert_eq!(
        parse_tokens(&object_trailing_comma, &mut 0),
        Err(TokenParseError::ExpectedProperty)
    );

    let truncated_object = [Token::LeftBrace, Token::String("a".into()), Token::Colon, Token::True];
    assert_eq!(parse_tokens(&truncated_object, &mut 0), Err(TokenParseError::ExpectedComma));

    let bare_close = [Token::RightBracket];
    assert_eq!(parse_tokens(&bare_close, &mut 0), Err(TokenParseError::UnexpectedToken));
}
