use json_parser::number::Number;
use json_parser::tokenize::{
    make_token, tokenize, tokenize_float, tokenize_literal, tokenize_string, Token, TokenizeError,
};

fn number(literal: &str) -> Token {
    Token::Number(Number::new(literal).unwrap())
}

fn float_of(token: &Token) -> f64 {
    match token {
        Token::Number(n) => n.as_str().parse::<f64>().unwrap(),
        other => panic!("not a number: {:?}", other),
    }
}

#[test]
fn just_comma() {
    let input = String::from(",");
    let expected = [Token::Comma];

    let actual = tokenize(input).unwrap();
    assert_eq!(actual, expected);
}

#[test]
fn true_comma() {
    let input = String::from("true,");
    let expected = [Token::True, Token::Comma];

    let actual = tokenize(input).unwrap();
    assert_eq!(actual, expected);
}

#[test]
fn just_null() {
    let input = String::from("null");
    let expected = [Token::Null];

    let actual = tokenize(input).unwrap();
    assert_eq!(actual, expected);
}

#[test]
fn just_true() {
    let input = String::from("true");
    let expected = [Token::True];

    let actual = tokenize(input).unwrap();
    assert_eq!(actual, expected);
}

#[test]
fn just_false() {
    let input = String::from("false");
    let expected = [Token::False];

    let actual = tokenize(input).unwrap();
    assert_eq!(actual, expected);
}

#[test]
fn integer() {
    let input = String::from("123");
    let expected = [number("123")];

    let actual = tokenize(input).unwrap();
    assert_eq!(actual, expected);
    assert_eq!(actual.len(), 1);
    assert_eq!(float_of(&actual[0]), 123.0);
}

#[test]
fn floating_point() {
    let input = String::from("123.123");
    let expected = [number("123.123")];

    let actual = tokenize(input).unwrap();
    assert_eq!(actual, expected);
    assert_eq!(actual.len(), 1);
    assert_eq!(float_of(&actual[0]), 123.123);
}

#[test]
fn negative_number() {
    let input = String::from("-12");

    let expected = [number("-12")];

    let actual = tokenize(input).unwrap();
    assert_eq!(actual, expected);
    assert_eq!(actual.len(), 1);
    assert_eq!(float_of(&actual[0]), -12.0);
}

#[test]
fn just_ken() {
    let input = String::from("\"ken\"");

    let expected = [Token::string("ken")];

    let actual = tokenize(input).unwrap();
    assert_eq!(actual, expected);
}

#[test]
fn just_ken_bad() {
    let input = String::from("\"ken");
    let expected = Err(TokenizeError::UnclosedQuotes);

    let actual = tokenize(input);
    assert_eq!(actual, expected)
}

#[test]
fn escaped_quote() {
    let input = String::from(r#""this is \" escaped""#);
    let expected = [Token::string(r#"this is \" escaped"#)];

    let actual = tokenize(input).unwrap();
    assert_eq!(actual, expected)
}

#[test]
fn unkown_char() {
    let input = String::from(r#"&"#);
    let expected = Err(TokenizeError::CharNotRecognized('&'));

    let actual = tokenize(input);
    assert_eq!(actual, expected)
}

#[test]
fn empty_text_has_no_tokens() {
    assert_eq!(tokenize(String::new()), Ok(vec![]));
}

#[test]
fn punctuation_tokens() {
    let actual = tokenize(String::from("{}[],:")).unwrap();
    let expected = [
        Token::CLeftBracket,
        Token::CRightBracket,
        Token::SLeftBracket,
        Token::SRightBracket,
        Token::Comma,
        Token::Colon,
    ];
    assert_eq!(actual, expected);
}

#[test]
fn blanks_between_tokens_are_skipped() {
    let actual = tokenize(String::from(" \t\n\r[ 1 ,\n true ]")).unwrap();
    let expected = [
        Token::SLeftBracket,
        number("1"),
        Token::Comma,
        Token::True,
        Token::SRightBracket,
    ];
    assert_eq!(actual, expected);
}

#[test]
fn blanks_at_the_end_are_an_error() {
    assert_eq!(tokenize(String::from("true ")), Err(TokenizeError::UnexpectedEof));
    assert_eq!(tokenize(String::from(" ")), Err(TokenizeError::UnexpectedEof));
    assert_eq!(tokenize(String::from("[1]\n")), Err(TokenizeError::UnexpectedEof));
}

#[test]
fn form_feed_is_no_blank() {
    assert_eq!(tokenize(String::from("\u{c}1")), Err(TokenizeError::CharNotRecognized('\u{c}')));
}

#[test]
fn unfinished_keywords() {
    assert_eq!(tokenize(String::from("tru")), Err(TokenizeError::UnfinishedLiteralValue));
    assert_eq!(tokenize(String::from("nul")), Err(TokenizeError::UnfinishedLiteralValue));
    assert_eq!(tokenize(String::from("fals")), Err(TokenizeError::UnfinishedLiteralValue));
    assert_eq!(tokenize(String::from("nule")), Err(TokenizeError::UnfinishedLiteralValue));
    assert_eq!(tokenize(String::from("t")), Err(TokenizeError::UnfinishedLiteralValue));
    assert_eq!(tokenize(String::from("[tr,1]")), Err(TokenizeError::UnfinishedLiteralValue));
}

#[test]
fn keywords_need_no_separator() {
    let actual = tokenize(String::from("truefalsenull")).unwrap();
    assert_eq!(actual, [Token::True, Token::False, Token::Null]);
}

#[test]
fn string_keeps_its_escapes() {
    let actual = tokenize(String::from(r#""a\\" "b\n" """#)).unwrap();
    let expected = [Token::string(r#"a\\"#), Token::string(r#"b\n"#), Token::string("")];
    assert_eq!(actual, expected);
}

#[test]
fn escaped_quote_at_the_end_leaves_the_string_open() {
    assert_eq!(tokenize(String::from(r#""abc\""#)), Err(TokenizeError::UnclosedQuotes));
    assert_eq!(tokenize(String::from("\"")), Err(TokenizeError::UnclosedQuotes));
}

#[test]
fn string_may_hold_any_character() {
    let actual = tokenize(String::from("\"h\u{e9}llo {[\u{1F600}]}\"")).unwrap();
    assert_eq!(actual, [Token::string("h\u{e9}llo {[\u{1F600}]}")]);
}

#[test]
fn number_forms() {
    assert_eq!(tokenize(String::from("5.")).unwrap(), [number("5.")]);
    assert_eq!(tokenize(String::from("-.5")).unwrap(), [number("-.5")]);
    assert_eq!(tokenize(String::from("-0.25")).unwrap(), [number("-0.25")]);
    assert_eq!(tokenize(String::from("007")).unwrap(), [number("007")]);
    assert_eq!(float_of(&tokenize(String::from("5.")).unwrap()[0]), 5.0);
    assert_eq!(float_of(&tokenize(String::from("-.5")).unwrap()[0]), -0.5);
}

#[test]
fn second_point_ends_the_number() {
    assert_eq!(tokenize(String::from("1.2.3")), Err(TokenizeError::CharNotRecognized('.')));
    assert_eq!(tokenize(String::from("1.2,3")).unwrap(), [number("1.2"), Token::Comma, number("3")]);
}

#[test]
fn runs_that_spell_no_number() {
    assert_eq!(
        tokenize(String::from("-")),
        Err(TokenizeError::ParseNumberError(String::from("-")))
    );
    assert_eq!(
        tokenize(String::from("-.")),
        Err(TokenizeError::ParseNumberError(String::from("-.")))
    );
    assert_eq!(
        tokenize(String::from("[-]")),
        Err(TokenizeError::ParseNumberError(String::from("-")))
    );
    assert!("-".parse::<f64>().is_err());
    assert!("-.".parse::<f64>().is_err());
}

#[test]
fn exponents_are_not_numbers() {
    assert_eq!(tokenize(String::from("1e5")), Err(TokenizeError::CharNotRecognized('e')));
    assert_eq!(tokenize(String::from("+1")), Err(TokenizeError::CharNotRecognized('+')));
    assert_eq!(tokenize(String::from(".5")), Err(TokenizeError::CharNotRecognized('.')));
}

#[test]
fn minus_inside_a_number_starts_a_new_one() {
    assert_eq!(tokenize(String::from("1-2")).unwrap(), [number("1"), number("-2")]);
}

#[test]
fn first_failure_wins() {
    assert_eq!(tokenize(String::from("[1, & \"x")), Err(TokenizeError::CharNotRecognized('&')));
    assert_eq!(tokenize(String::from("[\"x, &")), Err(TokenizeError::UnclosedQuotes));
}

#[test]
fn make_token_moves_past_the_token() {
    let chars: Vec<char> = "  true,".chars().collect();
    let mut index = 0;
    assert_eq!(make_token(&chars, &mut index), Ok(Token::True));
    assert_eq!(index, 6);
    assert_eq!(make_token(&chars, &mut index), Ok(Token::Comma));
    assert_eq!(index, 7);
    assert_eq!(make_token(&chars, &mut index), Err(TokenizeError::UnexpectedEof));
    assert_eq!(index, 7);
}

#[test]
fn make_token_leaves_the_index_on_failure() {
    let chars: Vec<char> = " nul".chars().collect();
    let mut index = 0;
    assert_eq!(make_token(&chars, &mut index), Err(TokenizeError::UnfinishedLiteralValue));
    assert_eq!(index, 0);
}

#[test]
fn keyword_spelling() {
    assert_eq!(Token::Null.keyword(), Some("null"));
    assert_eq!(Token::True.keyword(), Some("true"));
    assert_eq!(Token::False.keyword(), Some("false"));
    assert_eq!(Token::Comma.keyword(), None);
    assert_eq!(Token::string("null").keyword(), None);
}

#[test]
fn number_literals() {
    assert!(Number::new("12").is_some());
    assert!(Number::new("-12.5").is_some());
    assert!(Number::new("12.").is_some());
    assert!(Number::new(".5").is_some());
    assert!(Number::new("").is_none());
    assert!(Number::new("-").is_none());
    assert!(Number::new(".").is_none());
    assert!(Number::new("1.2.3").is_none());
    assert!(Number::new("1-2").is_none());
    assert!(Number::new("--1").is_none());
    assert!(Number::new("1e5").is_none());
    assert!(Number::new(" 1").is_none());
    assert_eq!(Number::new("-12.5").unwrap().as_str(), "-12.5");
    assert!(Number::new("-12.5").unwrap().is_negative());
    assert!(!Number::new("12.5").unwrap().is_negative());
    assert_eq!(Number::from_string(String::from("x")), Err(String::from("x")));
    assert_eq!(Number::from_string(String::from("7")).unwrap().as_str(), "7");
    let seven = Number::new("7").unwrap();
    assert_eq!(seven.clone(), seven);
}

#[test]
fn every_number_literal_is_a_float() {
    for literal in ["0", "12", "-12", "1.5", "5.", ".5", "-.5", "-0", "000.000", "99999999999999999999999999"] {
        let n = Number::new(literal).unwrap();
        assert!(n.as_str().parse::<f64>().is_ok());
    }
}

#[test]
fn make_token_past_the_end() {
    let chars: Vec<char> = "1".chars().collect();
    let mut index = 1;
    assert_eq!(make_token(&chars, &mut index), Err(TokenizeError::UnexpectedEof));
    assert_eq!(index, 1);
    let mut index = 9;
    assert_eq!(make_token(&chars, &mut index), Err(TokenizeError::UnexpectedEof));
    assert_eq!(index, 9);
}

#[test]
fn keyword_from_its_first_character() {
    let chars: Vec<char> = "[false]".chars().collect();
    let mut index = 1;
    assert_eq!(tokenize_literal(&chars, &mut index, Token::False), Ok(Token::False));
    assert_eq!(index, 6);
    let mut index = 1;
    assert_eq!(
        tokenize_literal(&chars, &mut index, Token::True),
        Err(TokenizeError::UnfinishedLiteralValue)
    );
    assert_eq!(index, 1);
    let mut index = 3;
    assert_eq!(
        tokenize_literal(&chars, &mut index, Token::Null),
        Err(TokenizeError::UnfinishedLiteralValue)
    );
    assert_eq!(index, 3);
    let mut index = 20;
    assert_eq!(
        tokenize_literal(&chars, &mut index, Token::Null),
        Err(TokenizeError::UnfinishedLiteralValue)
    );
    assert_eq!(index, 20);
}

#[test]
fn string_from_its_opening_quote() {
    let chars: Vec<char> = r#"["a\\\"b" ,"c"#.chars().collect();
    let mut index = 1;
    assert_eq!(tokenize_string(&chars, &mut index), Ok(Token::string(r#"a\\\"b"#)));
    assert_eq!(index, 9);
    let mut index = 11;
    assert_eq!(tokenize_string(&chars, &mut index), Err(TokenizeError::UnclosedQuotes));
    assert_eq!(index, 11);
    let mut index = 13;
    assert_eq!(tokenize_string(&chars, &mut index), Err(TokenizeError::UnclosedQuotes));
    assert_eq!(index, 13);
    let mut index = 99;
    assert_eq!(tokenize_string(&chars, &mut index), Err(TokenizeError::UnclosedQuotes));
    assert_eq!(index, 99);
}

#[test]
fn number_from_its_first_character() {
    let chars: Vec<char> = "[-12.5.7,-]".chars().collect();
    let mut index = 1;
    assert_eq!(tokenize_float(&chars, &mut index), Ok(number("-12.5")));
    assert_eq!(index, 6);
    let mut index = 3;
    assert_eq!(tokenize_float(&chars, &mut index), Ok(number("2.5")));
    assert_eq!(index, 6);
    let mut index = 9;
    assert_eq!(
        tokenize_float(&chars, &mut index),
        Err(TokenizeError::ParseNumberError(String::from("-")))
    );
    assert_eq!(index, 9);
}
