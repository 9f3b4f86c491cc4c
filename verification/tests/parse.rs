use json_parser::number::Number;
use json_parser::parse::{parse_array, parse_object, parse_string, parse_tokens, TokenParseError};
use json_parser::tokenize::Token;
use json_parser::value::{Object, Value};

fn check(input: &[Token], expected: Value) {
    let actual = parse_tokens(&input, &mut 0).unwrap();
    assert_eq!(actual, expected);
}

fn number_token(literal: &str) -> Token {
    Token::Number(Number::new(literal).unwrap())
}

fn number_value(literal: &str) -> Value {
    Value::Number(Number::new(literal).unwrap())
}

fn float_of(value: &Value) -> f64 {
    match value {
        Value::Number(n) => n.as_str().parse::<f64>().unwrap(),
        other => panic!("not a number: {:?}", other),
    }
}

fn object(members: Vec<(&str, Value)>) -> Value {
    let mut object = Object::new();
    for (key, value) in members {
        object.insert(String::from(key), value);
    }
    Value::Object(object)
}

#[test]
fn parses_null() {
    let input = [Token::Null];
    let expected = Value::Null;
    check(&input, expected);
}

#[test]
fn parses_true() {
    let input = [Token::True];
    let expected = Value::Boolean(true);

    check(&input, expected);
}

#[test]
fn parses_false() {
    let input = [Token::False];
    let expected = Value::Boolean(false);

    check(&input, expected);
}

#[test]
fn parses_number() {
    let input = [number_token("10")];
    let expected = number_value("10");

    assert_eq!(float_of(&parse_tokens(&input, &mut 0).unwrap()), 10_f64);
    check(&input, expected);
}

#[test]
fn parses_string() {
    let input = [Token::string("test")];
    let expected = Value::string("test");

    check(&input, expected);
}

#[test]
fn parses_string_with_escapes() {
    let input = [Token::string(r#""test \" ""#)];
    let expected = Value::string(r#""test " ""#);

    check(&input, expected);
}

#[test]
fn parses_string_with_unicodes() {
    let input = [Token::string(r#""test \u002F ""#)];
    let expected = Value::string(r#""test / ""#);

    check(&input, expected);
}

#[test]
fn parses_array_simple() {
    let input = [Token::SLeftBracket, Token::False, Token::SRightBracket];
    let expected = Value::Array(vec![Value::Boolean(false)]);

    check(&input, expected);
}

#[test]
fn parses_array() {
    let input = [
        Token::SLeftBracket,
        Token::False,
        Token::Comma,
        number_token("20"),
        Token::SRightBracket,
    ];
    let expected = Value::Array(vec![Value::Boolean(false), number_value("20")]);

    match parse_tokens(&input, &mut 0).unwrap() {
        Value::Array(items) => assert_eq!(float_of(&items[1]), 20_f64),
        other => panic!("not an array: {:?}", other),
    }
    check(&input, expected);
}

#[test]
fn parses_empty_array() {
    let input = [Token::SLeftBracket, Token::SRightBracket];
    let expected = Value::Array(vec![]);

    check(&input, expected);
}

#[test]
fn parses_array_in_array() {
    let input = [
        Token::SLeftBracket,
        Token::SLeftBracket,
        Token::False,
        Token::Comma,
        number_token("20"),
        Token::SRightBracket,
        Token::SRightBracket,
    ];
    let expected = Value::Array(vec![Value::Array(vec![
        Value::Boolean(false),
        number_value("20"),
    ])]);

    check(&input, expected);
}

#[test]
fn parses_empty_obj() {
    let input = [Token::CLeftBracket, Token::CRightBracket];
    let expected = Value::Object(Object::new());

    check(&input, expected);
}

#[test]
fn parses_obj() {
    let input = [
        Token::CLeftBracket,
        Token::string("test_key"),
        Token::Colon,
        Token::Null,
        Token::CRightBracket,
    ];
    let expected = object(vec![("test_key", Value::Null)]);

    check(&input, expected);
}

#[test]
fn parses_obj_in_obj() {
    let input = [
        Token::CLeftBracket,
        Token::string("test_key"),
        Token::Colon,
        Token::CLeftBracket,
        Token::string("test_key"),
        Token::Colon,
        Token::string("test_value_inside"),
        Token::CRightBracket,
        Token::CRightBracket,
    ];

    let expected_inside = object(vec![("test_key", Value::string("test_value_inside"))]);
    let expected = object(vec![("test_key", expected_inside)]);

    check(&input, expected);
}

#[test]
fn cursor_ends_after_the_value() {
    let input = [
        Token::SLeftBracket,
        Token::SLeftBracket,
        Token::Null,
        Token::SRightBracket,
        Token::Comma,
        Token::True,
        Token::SRightBracket,
        Token::Comma,
    ];
    let mut index = 0;
    assert!(parse_tokens(&input, &mut index).is_ok());
    assert_eq!(index, 7);

    let mut index = 1;
    assert_eq!(parse_tokens(&input, &mut index), Ok(Value::Array(vec![Value::Null])));
    assert_eq!(index, 4);

    let mut index = 5;
    assert_eq!(parse_tokens(&input, &mut index), Ok(Value::Boolean(true)));
    assert_eq!(index, 6);
}

#[test]
fn cursor_stays_on_failure() {
    let input = [Token::SLeftBracket, Token::Null, Token::Null];
    let mut index = 0;
    assert_eq!(parse_tokens(&input, &mut index), Err(TokenParseError::ExpectedComma));
    assert_eq!(index, 0);
}

#[test]
fn tokens_that_begin_no_value() {
    for token in [Token::Comma, Token::Colon, Token::SRightBracket, Token::CRightBracket] {
        assert_eq!(parse_tokens(&[token], &mut 0), Err(TokenParseError::UnexpectedToken));
    }
    assert_eq!(
        parse_tokens(&[Token::SLeftBracket, Token::Comma], &mut 0),
        Err(TokenParseError::UnexpectedToken)
    );
    assert_eq!(
        parse_tokens(
            &[Token::CLeftBracket, Token::string("a"), Token::Colon, Token::CRightBracket],
            &mut 0
        ),
        Err(TokenParseError::UnexpectedToken)
    );
}

#[test]
fn missing_tokens() {
    assert_eq!(parse_tokens(&[], &mut 0), Err(TokenParseError::UnexpectedToken));
    assert_eq!(parse_tokens(&[Token::Null], &mut 1), Err(TokenParseError::UnexpectedToken));
    assert_eq!(parse_tokens(&[Token::Null], &mut 7), Err(TokenParseError::UnexpectedToken));
    assert_eq!(parse_tokens(&[Token::SLeftBracket], &mut 0), Err(TokenParseError::UnexpectedToken));
    assert_eq!(
        parse_tokens(&[Token::SLeftBracket, Token::Null], &mut 0),
        Err(TokenParseError::ExpectedComma)
    );
    assert_eq!(
        parse_tokens(&[Token::SLeftBracket, Token::Null, Token::Comma], &mut 0),
        Err(TokenParseError::UnexpectedToken)
    );
    assert_eq!(parse_tokens(&[Token::CLeftBracket], &mut 0), Err(TokenParseError::ExpectedProperty));
    assert_eq!(
        parse_tokens(&[Token::CLeftBracket, Token::string("a")], &mut 0),
        Err(TokenParseError::ExpectedColon)
    );
    assert_eq!(
        parse_tokens(&[Token::CLeftBracket, Token::string("a"), Token::Colon], &mut 0),
        Err(TokenParseError::UnexpectedToken)
    );
    assert_eq!(
        parse_tokens(&[Token::CLeftBracket, Token::string("a"), Token::Colon, Token::Null], &mut 0),
        Err(TokenParseError::ExpectedComma)
    );
}

#[test]
fn array_separators() {
    assert_eq!(
        parse_tokens(&[Token::SLeftBracket, Token::Null, Token::Colon, Token::SRightBracket], &mut 0),
        Err(TokenParseError::ExpectedComma)
    );
    assert_eq!(
        parse_tokens(&[Token::SLeftBracket, Token::Null, Token::CRightBracket], &mut 0),
        Err(TokenParseError::ExpectedComma)
    );
    check(
        &[Token::SLeftBracket, Token::Null, Token::Comma, Token::SRightBracket],
        Value::Array(vec![Value::Null]),
    );
}

#[test]
fn object_separators() {
    assert_eq!(
        parse_tokens(&[Token::CLeftBracket, Token::Null, Token::CRightBracket], &mut 0),
        Err(TokenParseError::ExpectedProperty)
    );
    assert_eq!(
        parse_tokens(&[Token::CLeftBracket, Token::Comma, Token::CRightBracket], &mut 0),
        Err(TokenParseError::ExpectedProperty)
    );
    assert_eq!(
        parse_tokens(
            &[Token::CLeftBracket, Token::string("a"), Token::Comma, Token::Null, Token::CRightBracket],
            &mut 0
        ),
        Err(TokenParseError::ExpectedColon)
    );
    assert_eq!(
        parse_tokens(
            &[
                Token::CLeftBracket,
                Token::string("a"),
                Token::Colon,
                Token::Null,
                Token::SRightBracket,
            ],
            &mut 0
        ),
        Err(TokenParseError::ExpectedComma)
    );
    check(
        &[
            Token::CLeftBracket,
            Token::string("a"),
            Token::Colon,
            Token::Null,
            Token::Comma,
            Token::CRightBracket,
        ],
        object(vec![("a", Value::Null)]),
    );
}

#[test]
fn keys_keep_their_escapes() {
    let input = [
        Token::CLeftBracket,
        Token::string(r#"a\nb"#),
        Token::Colon,
        Token::string(r#"a\nb"#),
        Token::CRightBracket,
    ];
    check(&input, object(vec![(r#"a\nb"#, Value::string("a\nb"))]));
}

#[test]
fn a_failure_inside_ends_the_whole_parse() {
    let input = [
        Token::SLeftBracket,
        Token::CLeftBracket,
        Token::string("k"),
        Token::Colon,
        Token::string(r#"\u12"#),
        Token::CRightBracket,
        Token::SRightBracket,
    ];
    assert_eq!(parse_tokens(&input, &mut 0), Err(TokenParseError::UnfinishedEscape));
}

#[test]
fn named_escapes() {
    assert_eq!(parse_string(r#"\"\\\/"#), Ok(Value::string("\"\\/")));
    assert_eq!(parse_string(r#"\b"#), Ok(Value::string("\u{8}")));
    assert_eq!(parse_string(r#"\f"#), Ok(Value::string("\u{c}")));
    assert_eq!(parse_string(r#"\n"#), Ok(Value::string("\n")));
    assert_eq!(parse_string(r#"\r"#), Ok(Value::string("\r")));
    assert_eq!(parse_string(r#"\t"#), Ok(Value::string("\t")));
    assert_eq!(parse_string(r#"a\nb\tc"#), Ok(Value::string("a\nb\tc")));
}

#[test]
fn other_escaped_characters_stand_for_themselves() {
    assert_eq!(parse_string(r#"\q\x\ \U"#), Ok(Value::string("qx U")));
    assert_eq!(parse_string("\\\u{e9}"), Ok(Value::string("\u{e9}")));
}

#[test]
fn backslash_at_the_end_is_an_unfinished_escape() {
    assert_eq!(parse_string("abc\\"), Err(TokenParseError::UnfinishedEscape));
    assert_eq!(parse_string("\\"), Err(TokenParseError::UnfinishedEscape));
    assert_eq!(parse_string("\\\\"), Ok(Value::string("\\")));
    assert_eq!(parse_string("\\\\\\"), Err(TokenParseError::UnfinishedEscape));
}

#[test]
fn code_point_escapes() {
    assert_eq!(parse_string(r#"\u0041"#), Ok(Value::string("A")));
    assert_eq!(parse_string(r#"\u00e9\u00E9"#), Ok(Value::string("\u{e9}\u{e9}")));
    assert_eq!(parse_string(r#"\uAbCd"#), Ok(Value::string("\u{abcd}")));
    assert_eq!(parse_string(r#"\u0000"#), Ok(Value::string("\u{0}")));
    assert_eq!(parse_string(r#"\uFFFF"#), Ok(Value::string("\u{ffff}")));
    assert_eq!(parse_string(r#"\uD7FF\uE000"#), Ok(Value::string("\u{d7ff}\u{e000}")));
    assert_eq!(parse_string(r#"x\u00412"#), Ok(Value::string("xA2")));
}

#[test]
fn code_point_failures() {
    assert_eq!(parse_string(r#"\u"#), Err(TokenParseError::UnfinishedEscape));
    assert_eq!(parse_string(r#"\u004"#), Err(TokenParseError::UnfinishedEscape));
    assert_eq!(parse_string(r#"\u00G1"#), Err(TokenParseError::InvalidHexDigit));
    assert_eq!(parse_string(r#"\u-001"#), Err(TokenParseError::InvalidHexDigit));
    assert_eq!(parse_string(r#"\uG"#), Err(TokenParseError::InvalidHexDigit));
    assert_eq!(parse_string(r#"\u0G"#), Err(TokenParseError::InvalidHexDigit));
    assert_eq!(parse_string(r#"\uD800"#), Err(TokenParseError::InvalidCodePointValue));
    assert_eq!(parse_string(r#"\uDFFF"#), Err(TokenParseError::InvalidCodePointValue));
    assert_eq!(parse_string(r#"\uD83D\uDE00"#), Err(TokenParseError::InvalidCodePointValue));
    assert_eq!(parse_string(r#"ok\u0041\uD800\u00G1"#), Err(TokenParseError::InvalidCodePointValue));
}

#[test]
fn arrays_and_objects_from_their_bracket() {
    let input = [
        Token::Null,
        Token::SLeftBracket,
        Token::True,
        Token::SRightBracket,
        Token::CLeftBracket,
        Token::CRightBracket,
    ];
    let mut index = 1;
    assert_eq!(parse_array(&input, &mut index), Ok(Value::Array(vec![Value::Boolean(true)])));
    assert_eq!(index, 4);
    assert_eq!(parse_object(&input, &mut index), Ok(Value::Object(Object::new())));
    assert_eq!(index, 6);
}

#[test]
fn error_names() {
    assert_eq!(TokenParseError::UnfinishedEscape.as_str(), "UnfinishedEscape");
    assert_eq!(TokenParseError::InvalidHexDigit.as_str(), "InvalidHexDigit");
    assert_eq!(TokenParseError::InvalidCodePointValue.as_str(), "InvalidCodePointValue");
    assert_eq!(TokenParseError::ExpectedComma.as_str(), "ExpectedComma");
    assert_eq!(TokenParseError::ExpectedColon.as_str(), "ExpectedColon");
    assert_eq!(TokenParseError::ExpectedProperty.as_str(), "ExpectedProperty");
    assert_eq!(TokenParseError::UnexpectedToken.as_str(), "UnexpectedToken");
}

#[test]
fn arrays_and_objects_past_the_end() {
    let input = [Token::SLeftBracket, Token::SRightBracket];
    let mut index = 2;
    assert_eq!(parse_array(&input, &mut index), Err(TokenParseError::UnexpectedToken));
    assert_eq!(index, 2);
    assert_eq!(parse_object(&input, &mut index), Err(TokenParseError::ExpectedProperty));
    assert_eq!(index, 2);
    let mut index = 1;
    assert_eq!(parse_array(&input, &mut index), Err(TokenParseError::UnexpectedToken));
    assert_eq!(index, 1);
    assert_eq!(parse_object(&input, &mut index), Err(TokenParseError::ExpectedProperty));
    assert_eq!(index, 1);
}
