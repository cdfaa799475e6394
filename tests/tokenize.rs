use json_parser::{tokenize, Token, TokenizeError};

#[test]
fn just_comma() {
    let input = String::from(",");
    let expected = [Token::Comma];

    let actual = tokenize(input).unwrap();

    assert_eq!(actual, expected);
}

#[test]
fn all_punctuation1() {
    let input = String::from("[{]},:");
    let expected = [
        Token::LeftBracket,
        Token::LeftBrace,
        Token::RightBracket,
        Token::RightBrace,
        Token::Comma,
        Token::Colon,
    ];

    let actual = tokenize(input).unwrap();

    assert_eq!(actual, expected);
}

#[test]
fn all_punctuation2() {
    let input = String::from("[{,:]},:");
    let expected = [
        Token::LeftBracket,
        Token::LeftBrace,
        Token::Comma,
        Token::Colon,
        Token::RightBracket,
        Token::RightBrace,
        Token::Comma,
        Token::Colon,
    ];

    let actual = tokenize(input).unwrap();

    assert_eq!(actual, expected);
}

#[test]
fn just_null() {
    let input = String::from("null");
    let expected = [Token::Null];

    let actual = tokenize(input).unwrap();

    assert_eq!(actual, expected)
}

#[test]
fn just_false() {
    let input = String::from("false");
    let expected = [Token::False];

    let actual = tokenize(input).unwrap();

    assert_eq!(actual, expected);
}

#[test]
fn just_true() {
    let input = String::from("true");
    let expected = [Token::True];

    let actual = tokenize(input).unwrap();

    assert_eq!(actual, expected);
}

#[test]
fn true_colon() {
    let input = String::from("true:");
    let expected = [Token::True, Token::Colon];

    let actual = tokenize(input).unwrap();

    assert_eq!(actual, expected);
}

#[test]
fn whitespace_skipped() {
    let input = String::from(" \t[\r\n null ,\n1 ]  ");
    let expected = [
        Token::LeftBracket,
        Token::Null,
        Token::Comma,
        Token::Number("1".into()),
        Token::RightBracket,
    ];

    assert_eq!(tokenize(input).unwrap(), expected);
}

#[test]
fn empty_text_has_no_tokens() {
    assert_eq!(tokenize(String::new()).unwrap(), []);
    assert_eq!(tokenize(String::from(" \n\t ")).unwrap(), []);
}

#[test]
fn numerals_kept_as_written() {
    for numeral in ["0", "-0", "7", "-12", "3.25", "0.5", "1e10", "2E-3", "-4.5e+2", "10"] {
        let actual = tokenize(numeral.to_string()).unwrap();
        assert_eq!(actual, [Token::Number(numeral.to_string())], "{}", numeral);
    }
    let value = match &tokenize("-4.5e+2".to_string()).unwrap()[0] {
        Token::Number(n) => n.parse::<f64>().unwrap(),
        _ => panic!("not a number"),
    };
    assert_eq!(value, -450.0);
}

#[test]
fn numeral_followed_by_punctuation() {
    let expected = [
        Token::LeftBracket,
        Token::Number("1".into()),
        Token::Comma,
        Token::Number("-2.5".into()),
        Token::RightBracket,
    ];
    assert_eq!(tokenize("[1,-2.5]".to_string()).unwrap(), expected);
}

#[test]
fn invalid_numbers() {
    for numeral in ["01", "-", "-a", "1.", "1.e5", "1e", "1e+", "-01", "-.5"] {
        assert_eq!(
            tokenize(numeral.to_string()),
            Err(TokenizeError::InvalidNumber),
            "{}",
            numeral
        );
    }
}

#[test]
fn string_body_kept_raw() {
    let input = String::from(r#""a\"b\\" "x""#);
    let expected = [
        Token::String(r#"a\"b\\"#.into()),
        Token::String("x".into()),
    ];
    assert_eq!(tokenize(input).unwrap(), expected);
}

#[test]
fn string_non_ascii_body() {
    let input = String::from("\"olá 💩\"");
    assert_eq!(tokenize(input).unwrap(), [Token::String("olá 💩".into())]);
}

#[test]
fn unterminated_strings() {
    for text in ["\"abc", "\"abc\\\"", "\""] {
        assert_eq!(
            tokenize(text.to_string()),
            Err(TokenizeError::UnterminatedString),
            "{}",
            text
        );
    }
}

#[test]
fn unfinished_literals() {
    for text in ["nul", "nulL", "tru", "fals", "fale", "n"] {
        assert_eq!(
            tokenize(text.to_string()),
            Err(TokenizeError::UnfinishedLiteralValue),
            "{}",
            text
        );
    }
}

#[test]
fn unexpected_characters() {
    assert_eq!(tokenize("x".to_string()), Err(TokenizeError::UnexpectedCharacter('x')));
    assert_eq!(tokenize("nulll".to_string()), Err(TokenizeError::UnexpectedCharacter('l')));
    assert_eq!(tokenize("[1a]".to_string()), Err(TokenizeError::UnexpectedCharacter('a')));
    assert_eq!(tokenize(".5".to_string()), Err(TokenizeError::UnexpectedCharacter('.')));
    assert_eq!(tokenize("é".to_string()), Err(TokenizeError::UnexpectedCharacter('é')));
}
