use json_parser::tokenize::{
    make_token, tokenize, tokenize_false, tokenize_float, tokenize_null, tokenize_string,
    tokenize_true, Token, TokenizeError,
};
use json_parser::number::Number;

fn number(text: &str) -> Token {
    Token::Number(Number::new(text).unwrap())
}

fn as_floats(tokens: &[Token]) -> Vec<f64> {
    tokens
        .iter()
        .map(|token| match token {
            Token::Number(n) => n.as_str().parse().unwrap(),
            other => panic!("no number: {:?}", other),
        })
        .collect()
}

#[test]
fn just_comma() {
    let input = String::from(",");
    let expected = [Token::Comma];

    let actual = tokenize(input).unwrap();

    assert_eq!(actual, expected);
}

#[test]
fn all_punctuation() {
    let input = String::from("[{]},:");
    let expected = [
        Token::LeftBracket,
        Token::LeftBrace,
        Token::RightBracket,
        Token::RightBrace,
        Token::Comma,
        Token::Colon,
    ];

    let actual = tokenize(input).unwrap();

    assert_eq!(actual, expected);
}

#[test]
fn just_null() {
    let input = String::from("null");
    let expected = [Token::Null];

    let actual = tokenize(input).unwrap();

    assert_eq!(actual, expected);
}

#[test]
fn just_false() {
    let input = String::from("false");
    let expected = [Token::False];

    let actual = tokenize(input).unwrap();

    assert_eq!(actual, expected);
}

#[test]
fn just_true() {
    let input = String::from("true");
    let expected = [Token::True];

    let actual = tokenize(input).unwrap();

    assert_eq!(actual, expected);
}

#[test]
fn true_comma() {
    let input = String::from("true,");
    let expected = [Token::True, Token::Comma];

    let actual = tokenize(input).unwrap();

    assert_eq!(actual, expected);
}

#[test]
fn integer() {
    let input = String::from("123");
    let expected = [123.0];

    let actual = tokenize(input).unwrap();

    assert_eq!(as_floats(&actual), expected);
    assert_eq!(actual, [number("123")]);
}

#[test]
fn float() {
    let input = String::from("123.456");
    let expected = [123.456];

    let actual = tokenize(input).unwrap();

    assert_eq!(as_floats(&actual), expected);
    assert_eq!(actual, [number("123.456")]);
}

#[test]
fn negative_integer() {
    let input = String::from("-123");
    let expected = [-123.0];

    let actual = tokenize(input).unwrap();

    assert_eq!(as_floats(&actual), expected);
    assert_eq!(actual, [number("-123")]);
}

#[test]
fn negative_float() {
    let input = String::from("-123.456");
    let expected = [-123.456];

    let actual = tokenize(input).unwrap();

    assert_eq!(as_floats(&actual), expected);
    assert_eq!(actual, [number("-123.456")]);
}

#[test]
fn negative_float_with_exponent() {
    let input = String::from("-123.456e+2");
    let expected = [-123.456e2];

    let actual = tokenize(input).unwrap();

    assert_eq!(as_floats(&actual), expected);
    assert_eq!(actual, [number("-123.456e+2")]);
}

#[test]
fn negative_float_with_exponent_and_sign() {
    let input = String::from("-123.456e-2");
    let expected = [-123.456e-2];

    let actual = tokenize(input).unwrap();

    assert_eq!(as_floats(&actual), expected);
    assert_eq!(as_floats(&actual), [-1.23456]);
    assert_eq!(actual, [number("-123.456e-2")]);
}

#[test]
fn just_ken() {
    let input = String::from("\"ken\"");
    let expected = [Token::string("ken")];

    let actual = tokenize(input).unwrap();

    assert_eq!(actual, expected);
}

#[test]
fn unclosed_string() {
    let input = String::from("\"unclosed");
    let expected = Err(TokenizeError::UnclosedQuotes);

    let actual = tokenize(input);

    assert_eq!(actual, expected);
}

#[test]
fn escaped_quote() {
    let input = String::from(r#""the \" is OK""#);
    let expected = [Token::string(r#"the \" is OK"#)];

    let actual = tokenize(input).unwrap();

    assert_eq!(actual, expected);
}

#[test]
fn empty_input_has_no_tokens() {
    assert_eq!(tokenize(String::new()), Ok(vec![]));
}

#[test]
fn skips_whitespace_before_a_token() {
    let actual = tokenize(String::from(" \t\n\u{c}\r[ \n null ,\ttrue\r]")).unwrap();

    assert_eq!(
        actual,
        [Token::LeftBracket, Token::Null, Token::Comma, Token::True, Token::RightBracket]
    );
}

#[test]
fn whitespace_at_the_end_is_unexpected_eof() {
    assert_eq!(tokenize(String::from("null ")), Err(TokenizeError::UnexpectedEof));
    assert_eq!(tokenize(String::from(" ")), Err(TokenizeError::UnexpectedEof));
    assert_eq!(tokenize(String::from("[1]\n")), Err(TokenizeError::UnexpectedEof));
}

#[test]
fn other_whitespace_is_not_skipped() {
    assert_eq!(
        tokenize(String::from("\u{b}null")),
        Err(TokenizeError::CharNotRecognized('\u{b}'))
    );
    assert_eq!(
        tokenize(String::from("\u{a0}null")),
        Err(TokenizeError::CharNotRecognized('\u{a0}'))
    );
}

#[test]
fn unfinished_literal_names() {
    for input in ["tru", "t", "nul", "nulL", "n", "fals", "falsy", "f", "truE"] {
        assert_eq!(
            tokenize(String::from(input)),
            Err(TokenizeError::UnfinishedLiteralValue),
            "{input}"
        );
    }
    assert_eq!(tokenize(String::from("[nul]")), Err(TokenizeError::UnfinishedLiteralValue));
}

#[test]
fn literal_name_ends_with_its_last_letter() {
    assert_eq!(tokenize(String::from("nulltrue")), Ok(vec![Token::Null, Token::True]));
    assert_eq!(
        tokenize(String::from("falsey")),
        Err(TokenizeError::CharNotRecognized('y'))
    );
}

#[test]
fn character_that_begins_no_token() {
    assert_eq!(tokenize(String::from("@")), Err(TokenizeError::CharNotRecognized('@')));
    assert_eq!(tokenize(String::from("[x]")), Err(TokenizeError::CharNotRecognized('x')));
    assert_eq!(tokenize(String::from(".5")), Err(TokenizeError::CharNotRecognized('.')));
    assert_eq!(tokenize(String::from("+1")), Err(TokenizeError::CharNotRecognized('+')));
    assert_eq!(tokenize(String::from("N")), Err(TokenizeError::CharNotRecognized('N')));
    assert_eq!(tokenize(String::from("\u{e9}")), Err(TokenizeError::CharNotRecognized('\u{e9}')));
}

#[test]
fn token_after_a_number_is_kept() {
    let actual = tokenize(String::from("[1,2.5]")).unwrap();

    assert_eq!(
        actual,
        [Token::LeftBracket, number("1"), Token::Comma, number("2.5"), Token::RightBracket]
    );
}

#[test]
fn number_forms() {
    for (input, expected) in [
        ("0", 0.0),
        ("-0", 0.0),
        ("007", 7.0),
        ("1.", 1.0),
        ("-.5", -0.5),
        ("1e3", 1000.0),
        ("1E3", 1000.0),
        ("1e+3", 1000.0),
        ("25e-1", 2.5),
        ("1.e2", 100.0),
        ("0.1", 0.1),
        ("1.7976931348623157e308", f64::MAX),
        ("5e-324", 5e-324),
        ("9007199254740993", 9007199254740992.0),
        ("0.30000000000000004", 0.1 + 0.2),
    ] {
        let actual = tokenize(String::from(input)).unwrap();
        assert_eq!(actual, [number(input)], "{input}");
        assert_eq!(as_floats(&actual), [expected], "{input}");
    }
}

#[test]
fn number_round_trips_through_its_literal() {
    for value in [0.5, -2.25, 1e21, 123456789.125, 2.2250738585072014e-308, 1.0 / 3.0] {
        let text = format!("{:e}", value);
        let actual = tokenize(text).unwrap();
        assert_eq!(as_floats(&actual), [value]);
    }
}

#[test]
fn malformed_numbers() {
    for input in ["-", "-.", "1e", "1e+", "1E-", "-e5", "1.5e", "-.e1"] {
        assert_eq!(
            tokenize(String::from(input)),
            Err(TokenizeError::ParseNumberError(String::from(input))),
            "{input}"
        );
    }
}

#[test]
fn malformed_number_holds_the_text_read() {
    assert_eq!(
        tokenize(String::from("[1e,2]")),
        Err(TokenizeError::ParseNumberError(String::from("1e")))
    );
    assert_eq!(
        tokenize(String::from("-x")),
        Err(TokenizeError::ParseNumberError(String::from("-")))
    );
}

#[test]
fn number_stops_where_its_shape_ends() {
    assert_eq!(tokenize(String::from("1-2")), Ok(vec![number("1"), number("-2")]));
    assert_eq!(
        tokenize(String::from("1.2.3")),
        Err(TokenizeError::CharNotRecognized('.'))
    );
    assert_eq!(
        tokenize(String::from("1e5e3")),
        Err(TokenizeError::CharNotRecognized('e'))
    );
    assert_eq!(
        tokenize(String::from("1e5.3")),
        Err(TokenizeError::CharNotRecognized('.'))
    );
    assert_eq!(tokenize(String::from("1e2-3")), Ok(vec![number("1e2"), number("-3")]));
}

#[test]
fn string_keeps_escapes_unresolved() {
    let actual = tokenize(String::from(r#""a\nb\u0041\\""#)).unwrap();

    assert_eq!(actual, [Token::string(r#"a\nb\u0041\\"#)]);
}

#[test]
fn escaped_backslash_does_not_escape_the_quote() {
    let actual = tokenize(String::from(r#""a\\",null"#)).unwrap();

    assert_eq!(actual, [Token::string(r#"a\\"#), Token::Comma, Token::Null]);
}

#[test]
fn empty_string() {
    assert_eq!(tokenize(String::from("\"\"")), Ok(vec![Token::string("")]));
}

#[test]
fn string_may_hold_any_character() {
    let actual = tokenize(String::from("\"[1, {\u{e9}}\n\ttrue\"")).unwrap();

    assert_eq!(actual, [Token::string("[1, {\u{e9}}\n\ttrue")]);
}

#[test]
fn unclosed_strings() {
    for input in ["\"", "\"abc", r#""abc\""#, r#""\\\""#] {
        assert_eq!(
            tokenize(String::from(input)),
            Err(TokenizeError::UnclosedQuotes),
            "{input}"
        );
    }
}

#[test]
fn first_error_is_reported() {
    assert_eq!(
        tokenize(String::from("tru \"unclosed")),
        Err(TokenizeError::UnfinishedLiteralValue)
    );
    assert_eq!(
        tokenize(String::from("- \"unclosed")),
        Err(TokenizeError::ParseNumberError(String::from("-")))
    );
    assert_eq!(tokenize(String::from("\"unclosed tru")), Err(TokenizeError::UnclosedQuotes));
}

#[test]
fn string_token_from_text() {
    assert_eq!(Token::string("ken"), Token::String(String::from("ken")));
}

fn chars(text: &str) -> Vec<char> {
    text.chars().collect()
}

fn next_token(text: &str, from: usize) -> (Result<Token, TokenizeError>, usize) {
    let mut index = from;
    let result = make_token(&chars(text), &mut index);
    (result, index)
}

#[test]
fn make_token_leaves_cursor_after_the_token() {
    assert_eq!(next_token("[1]", 0), (Ok(Token::LeftBracket), 1));
    assert_eq!(next_token("[1]", 1), (Ok(number("1")), 2));
    assert_eq!(next_token("[1]", 2), (Ok(Token::RightBracket), 3));
    assert_eq!(next_token("  true,", 0), (Ok(Token::True), 6));
    assert_eq!(next_token("\t\"a b\" :", 0), (Ok(Token::string("a b")), 6));
    assert_eq!(next_token("x -2.5e1}", 1), (Ok(number("-2.5e1")), 8));
}

#[test]
fn make_token_leaves_cursor_after_the_whitespace_on_failure() {
    assert_eq!(next_token(" @", 0), (Err(TokenizeError::CharNotRecognized('@')), 1));
    assert_eq!(next_token("@", 0), (Err(TokenizeError::CharNotRecognized('@')), 0));
    assert_eq!(next_token(" \n tru", 0), (Err(TokenizeError::UnfinishedLiteralValue), 3));
    assert_eq!(next_token("\t\"abc", 0), (Err(TokenizeError::UnclosedQuotes), 1));
    assert_eq!(
        next_token("  -e", 0),
        (Err(TokenizeError::ParseNumberError(String::from("-e"))), 2)
    );
    assert_eq!(next_token("[ \r\n", 1), (Err(TokenizeError::UnexpectedEof), 4));
}

#[test]
fn make_token_at_or_past_the_end() {
    assert_eq!(next_token("", 0), (Err(TokenizeError::UnexpectedEof), 0));
    assert_eq!(next_token("null", 4), (Err(TokenizeError::UnexpectedEof), 4));
    assert_eq!(next_token("null", 9), (Err(TokenizeError::UnexpectedEof), 9));
}

#[test]
fn leading_whitespace_changes_no_token_and_no_error() {
    let gaps = [" ", "\n", "\t \r\n", "  \u{c} "];
    let rests = [
        "null", "nul", "false,", "fals", "true]", "tr", "12", "-0.5e3,", "-", "1e+", "\"a\"",
        "\"a\\\"b\" ", "\"open", "{", "}", "[", "]", ",", ":", "@", "\u{e9}",
    ];
    for gap in gaps {
        for rest in rests {
            let (plain, after_plain) = next_token(rest, 0);
            let (spaced, after_spaced) = next_token(&format!("{gap}{rest}"), 0);
            assert_eq!(spaced, plain, "{rest}");
            assert_eq!(after_spaced, gap.chars().count() + after_plain, "{rest}");
        }
    }
}

#[test]
fn literal_name_steps() {
    let text = chars("[null,false,true]");
    let mut index = 1;
    assert_eq!(tokenize_null(&text, &mut index), Ok(Token::Null));
    assert_eq!(index, 5);
    index = 6;
    assert_eq!(tokenize_false(&text, &mut index), Ok(Token::False));
    assert_eq!(index, 11);
    index = 12;
    assert_eq!(tokenize_true(&text, &mut index), Ok(Token::True));
    assert_eq!(index, 16);
}

#[test]
fn literal_name_steps_fail_where_a_letter_is_missing() {
    for (text, from) in [
        ("nul", 0), ("nulL", 0), ("n", 0), ("xnull", 0), ("null", 1), ("null", 4), ("null", 7),
        ("", 0), ("nul l", 0), ("true", 0),
    ] {
        let mut index = from;
        assert_eq!(
            tokenize_null(&chars(text), &mut index),
            Err(TokenizeError::UnfinishedLiteralValue),
            "{text}"
        );
        assert_eq!(index, from, "{text}");
    }
    for (text, from) in [("fals", 0), ("falsE", 0), ("false", 2), ("", 0), ("null", 0)] {
        let mut index = from;
        assert_eq!(
            tokenize_false(&chars(text), &mut index),
            Err(TokenizeError::UnfinishedLiteralValue),
            "{text}"
        );
        assert_eq!(index, from, "{text}");
    }
    for (text, from) in [("tru", 0), ("trUe", 0), ("true", 1), ("", 0), ("false", 0)] {
        let mut index = from;
        assert_eq!(
            tokenize_true(&chars(text), &mut index),
            Err(TokenizeError::UnfinishedLiteralValue),
            "{text}"
        );
        assert_eq!(index, from, "{text}");
    }
}

#[test]
fn number_step() {
    let text = chars("[12.5e-1,3]");
    let mut index = 1;
    assert_eq!(tokenize_float(&text, &mut index), Ok(number("12.5e-1")));
    assert_eq!(index, 8);
    index = 9;
    assert_eq!(tokenize_float(&text, &mut index), Ok(number("3")));
    assert_eq!(index, 10);

    let text = chars("a-.e1b");
    index = 1;
    assert_eq!(
        tokenize_float(&text, &mut index),
        Err(TokenizeError::ParseNumberError(String::from("-.e1")))
    );
    assert_eq!(index, 1);

    let text = chars("]");
    index = 0;
    assert_eq!(
        tokenize_float(&text, &mut index),
        Err(TokenizeError::ParseNumberError(String::new()))
    );
    assert_eq!(index, 0);
}

#[test]
fn string_step() {
    let text = chars("x\"a\\\"b\"c");
    let mut index = 1;
    assert_eq!(tokenize_string(&text, &mut index), Ok(Token::string("a\\\"b")));
    assert_eq!(index, 7);

    for (text, from) in [("\"abc", 0), ("\"", 0), ("\"a\\\"", 0), ("ab\"", 2), ("", 0), ("ab", 5)] {
        let mut index = from;
        assert_eq!(
            tokenize_string(&chars(text), &mut index),
            Err(TokenizeError::UnclosedQuotes),
            "{text}"
        );
        assert_eq!(index, from, "{text}");
    }
}
