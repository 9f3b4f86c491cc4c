use json_parser::number::Number;
use json_parser::parse::TokenParseError;
use json_parser::tokenize::TokenizeError;
use json_parser::value::{Object, Value};
use json_parser::{parse, Config, ParseError};

fn number(literal: &str) -> Value {
    Value::Number(Number::new(literal).unwrap())
}

fn float_of(value: &Value) -> f64 {
    match value {
        Value::Number(n) => n.as_str().parse::<f64>().unwrap(),
        other => panic!("not a number: {:?}", other),
    }
}

fn object(members: Vec<(&str, Value)>) -> Value {
    let mut object = Object::new();
    for (key, value) in members {
        object.insert(String::from(key), value);
    }
    Value::Object(object)
}

fn members_of(value: &Value) -> &Object {
    match value {
        Value::Object(object) => object,
        other => panic!("not an object: {:?}", other),
    }
}

#[test]
fn scalar_documents() {
    assert_eq!(parse("null"), Ok(Value::Null));
    assert_eq!(parse("true"), Ok(Value::Boolean(true)));
    assert_eq!(parse("false"), Ok(Value::Boolean(false)));
    assert_eq!(parse("123.5"), Ok(number("123.5")));
    assert_eq!(parse("-12"), Ok(number("-12")));
    assert_eq!(float_of(&parse("123.5").unwrap()), 123.5);
    assert_eq!(float_of(&parse("-12").unwrap()), -12.0);
    assert_eq!(parse("\"text\""), Ok(Value::string("text")));
}

#[test]
fn array_documents() {
    let parsed = parse("[1,2,3]").unwrap();
    assert_eq!(parsed, Value::Array(vec![number("1"), number("2"), number("3")]));
    match &parsed {
        Value::Array(items) => {
            let floats: Vec<f64> = items.iter().map(float_of).collect();
            assert_eq!(floats, vec![1.0, 2.0, 3.0]);
        },
        other => panic!("not an array: {:?}", other),
    }
    assert_eq!(parse("[]"), Ok(Value::Array(vec![])));
    assert_eq!(
        parse("[ [], [null] ,\"x\"]"),
        Ok(Value::Array(vec![
            Value::Array(vec![]),
            Value::Array(vec![Value::Null]),
            Value::string("x"),
        ]))
    );
}

#[test]
fn object_documents() {
    let parsed = parse("{\"a\":1,\"b\":2}").unwrap();
    let members = members_of(&parsed);
    assert_eq!(members.len(), 2);
    assert_eq!(members.get("a"), Some(&number("1")));
    assert_eq!(members.get("b"), Some(&number("2")));
    assert_eq!(float_of(members.get("a").unwrap()), 1.0);
    assert_eq!(float_of(members.get("b").unwrap()), 2.0);
    assert_eq!(members.get("c"), None);
    assert!(members.contains_key("a"));
    assert!(!members.contains_key("c"));

    let empty = parse("{}").unwrap();
    assert_eq!(empty, Value::Object(Object::new()));
    assert!(members_of(&empty).is_empty());
    assert_eq!(members_of(&empty).len(), 0);
}

#[test]
fn escapes_in_documents() {
    assert_eq!(parse("\"a\\nb\""), Ok(Value::string("a\nb")));
    assert_eq!(parse("\"\\u0041\""), Ok(Value::string("A")));
    assert_eq!(parse("\"say \\\"hi\\\"\""), Ok(Value::string("say \"hi\"")));
}

#[test]
fn failing_documents() {
    assert_eq!(parse("tru"), Err(ParseError::Tokenize(TokenizeError::UnfinishedLiteralValue)));
    assert_eq!(parse("\"ab"), Err(ParseError::Tokenize(TokenizeError::UnclosedQuotes)));
    assert_eq!(parse("&"), Err(ParseError::Tokenize(TokenizeError::CharNotRecognized('&'))));
    assert_eq!(parse("{\"a\" 1}"), Err(ParseError::Parse(TokenParseError::ExpectedColon)));
    assert_eq!(parse("[1 2]"), Err(ParseError::Parse(TokenParseError::ExpectedComma)));
    assert_eq!(parse("{1:2}"), Err(ParseError::Parse(TokenParseError::ExpectedProperty)));
    assert_eq!(parse(","), Err(ParseError::Parse(TokenParseError::UnexpectedToken)));
    assert_eq!(parse(""), Err(ParseError::Parse(TokenParseError::UnexpectedToken)));
    assert_eq!(parse("["), Err(ParseError::Parse(TokenParseError::UnexpectedToken)));
    assert_eq!(parse("1 "), Err(ParseError::Tokenize(TokenizeError::UnexpectedEof)));
    assert_eq!(
        parse("[-]"),
        Err(ParseError::Tokenize(TokenizeError::ParseNumberError(String::from("-"))))
    );
    assert_eq!(parse("\"\\u12\""), Err(ParseError::Parse(TokenParseError::UnfinishedEscape)));
    assert_eq!(parse("\"\\u12G4\""), Err(ParseError::Parse(TokenParseError::InvalidHexDigit)));
    assert_eq!(parse("\"\\uDC00\""), Err(ParseError::Parse(TokenParseError::InvalidCodePointValue)));
}

#[test]
fn tokenizing_fails_before_parsing() {
    assert_eq!(parse("[1 2] &"), Err(ParseError::Tokenize(TokenizeError::CharNotRecognized('&'))));
}

#[test]
fn tokens_after_the_value_are_not_read() {
    assert_eq!(parse("1 2"), Ok(number("1")));
    assert_eq!(parse("[],]"), Ok(Value::Array(vec![])));
}

#[test]
fn duplicate_keys_last_write_wins() {
    let parsed = parse("{\"a\":1,\"a\":2}").unwrap();
    let members = members_of(&parsed);
    assert_eq!(members.len(), 1);
    assert_eq!(members.get("a"), Some(&number("2")));
    assert_eq!(float_of(members.get("a").unwrap()), 2.0);
    assert_eq!(parsed, object(vec![("a", number("2"))]));
}

#[test]
fn members_keep_the_order_of_their_first_appearance() {
    let parsed = parse("{\"b\":1,\"a\":2,\"b\":3}").unwrap();
    let members = members_of(&parsed);
    assert_eq!(members.len(), 2);
    assert_eq!(members.entry(0), ("b", &number("3")));
    assert_eq!(members.entry(1), ("a", &number("2")));
}

#[test]
fn insert_replaces_and_appends() {
    let mut members = Object::new();
    assert!(members.is_empty());
    members.insert(String::from("x"), Value::Null);
    members.insert(String::from("y"), Value::Boolean(true));
    members.insert(String::from("x"), Value::Boolean(false));
    assert_eq!(members.len(), 2);
    assert_eq!(members.get("x"), Some(&Value::Boolean(false)));
    assert_eq!(members.get("y"), Some(&Value::Boolean(true)));
    assert_eq!(members.get(""), None);
    assert_eq!(members.entry(0), ("x", &Value::Boolean(false)));
}

#[test]
fn nested_document() {
    let parsed = parse("{\"list\":[1,{\"deep\":[]}],\"flag\":false}").unwrap();
    let expected = object(vec![
        (
            "list",
            Value::Array(vec![number("1"), object(vec![("deep", Value::Array(vec![]))])]),
        ),
        ("flag", Value::Boolean(false)),
    ]);
    assert_eq!(parsed, expected);
}

#[test]
fn config_needs_a_path() {
    assert_eq!(Config::build(&[]).err(), Some("Not enough arguments"));
    assert_eq!(Config::build(&[String::from("program")]).err(), Some("Not enough arguments"));
    let config = Config::build(&[String::from("program"), String::from("doc.json")]).unwrap();
    assert_eq!(config.file_path(), "doc.json");
    let config = Config::build(&[
        String::from("program"),
        String::from("first"),
        String::from("second"),
    ])
    .unwrap();
    assert_eq!(config.file_path(), "first");
}

#[test]
fn parse_error_message() {
    let error = parse("&").unwrap_err();
    assert_eq!(error.message(), "Error while parsing JSON Value");
}

fn brackets_open_at_once(text: &str) -> usize {
    let mut open: usize = 0;
    let mut most: usize = 0;
    for c in text.chars() {
        if c == '[' || c == '{' {
            open += 1;
            most = most.max(open);
        } else if c == ']' || c == '}' {
            open -= 1;
        }
    }
    most
}

#[test]
fn depth_is_the_nesting_of_the_brackets() {
    for text in [
        "null",
        "12",
        "\"x\"",
        "[]",
        "{}",
        "[[]]",
        "[1,[2,[3,[4]]],5]",
        "{\"a\":{\"b\":{\"c\":[]}},\"d\":[[1],2]}",
        "[{\"a\":[{\"b\":[]}]},[[[[]]]]]",
        "[[],[[]],[[[]]],[[]],[]]",
    ] {
        let value = parse(text).unwrap();
        assert_eq!(value.depth(), brackets_open_at_once(text), "{}", text);
    }
    assert_eq!(parse("null").unwrap().depth(), 0);
    assert_eq!(parse("[]").unwrap().depth(), 1);
    assert_eq!(parse("{\"a\":[[]]}").unwrap().depth(), 3);
}

#[test]
fn a_repeated_key_loses_the_depth_of_its_first_value() {
    let text = "{\"a\":[[1]],\"a\":2}";
    let value = parse(text).unwrap();
    assert_eq!(brackets_open_at_once(text), 3);
    assert_eq!(value.depth(), 1);
}

#[test]
fn deep_nesting() {
    let mut text = String::new();
    for _ in 0..200 {
        text.push('[');
    }
    for _ in 0..200 {
        text.push(']');
    }
    assert_eq!(parse(&text).unwrap().depth(), 200);
}

#[test]
fn objects_are_equal_in_any_order() {
    let parsed = parse("{\"a\":1,\"b\":{\"c\":[true],\"d\":null}}").unwrap();
    let expected = object(vec![
        ("b", object(vec![("d", Value::Null), ("c", Value::Array(vec![Value::Boolean(true)]))])),
        ("a", number("1")),
    ]);
    assert_eq!(parsed, expected);
    assert_eq!(expected, parsed);
    assert_eq!(parse("{\"x\":1,\"y\":2}"), parse("{\"y\":2,\"x\":1}"));
}

#[test]
fn objects_with_other_members_differ() {
    assert_ne!(parse("{\"x\":1,\"y\":2}"), parse("{\"x\":1}"));
    assert_ne!(parse("{\"x\":1}"), parse("{\"x\":1,\"y\":2}"));
    assert_ne!(parse("{\"x\":1,\"y\":2}"), parse("{\"x\":1,\"z\":2}"));
    assert_ne!(parse("{\"x\":1,\"y\":2}"), parse("{\"x\":1,\"y\":3}"));
    assert_ne!(parse("{\"x\":[]}"), parse("{\"x\":{}}"));
    assert_ne!(parse("{}"), parse("[]"));
}

#[test]
fn arrays_are_equal_in_their_order_only() {
    assert_eq!(parse("[1,2]"), parse("[1, 2]"));
    assert_ne!(parse("[1,2]"), parse("[2,1]"));
    assert_ne!(parse("[1,2]"), parse("[1]"));
    assert_ne!(parse("[1]"), parse("[1,2]"));
    assert_eq!(parse("[{\"x\":1,\"y\":2}]"), parse("[{\"y\":2,\"x\":1}]"));
}

#[test]
fn scalars_are_equal_when_they_hold_the_same() {
    assert_eq!(parse("null"), parse("null"));
    assert_ne!(parse("null"), parse("false"));
    assert_ne!(parse("true"), parse("false"));
    assert_ne!(parse("\"a\""), parse("\"b\""));
    assert_eq!(parse("\"\\u0041\""), parse("\"A\""));
    assert_ne!(parse("1"), parse("2"));
    assert_ne!(parse("\"1\""), parse("1"));
}

#[test]
fn numbers_are_equal_when_their_literals_are() {
    assert_eq!(parse("1.50"), parse("1.50"));
    assert_ne!(parse("1.5"), parse("1.50"));
    assert_eq!(float_of(&parse("1.5").unwrap()), float_of(&parse("1.50").unwrap()));
}
