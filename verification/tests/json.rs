use cli_tools::lexer::{LexError, Lexer, Token};
use cli_tools::parser::{JsonValue, ParseError, Parser};

fn s(x: &str) -> String {
    String::from(x)
}

fn parse_text(input: &str) -> Result<JsonValue, ParseError> {
    let mut lexer = Lexer::new(input);
    let tokens = lexer.process_tokens().unwrap();
    let mut parser = Parser::new(tokens);
    parser.parse()
}

#[test]
fn test_process_tokens_structural_chars() {
    let input = "{}[],:";
    let output = Lexer::new(input).process_tokens().unwrap();
    let expected: Vec<Token> = vec![
        Token::LeftBrace,
        Token::RightBrace,
        Token::LeftBracket,
        Token::RightBracket,
        Token::Comma,
        Token::Colon,
    ];
    assert_eq!(output, expected);
}

#[test]
fn test_process_token_strings() {
    let input: &str = "{\"key\":\"value\"}";
    let output = Lexer::new(input).process_tokens().unwrap();
    let expected: Vec<Token> = vec![
        Token::LeftBrace,
        Token::String(String::from("key")),
        Token::Colon,
        Token::String(String::from("value")),
        Token::RightBrace,
    ];

    assert_eq!(output, expected);
}

#[test]
fn test_process_tokens_number() {
    let input: &str = "123";
    let output = Lexer::new(input).process_tokens().unwrap();
    let expected: Vec<Token> = vec![Token::Number(s("123"))];

    assert_eq!(output, expected);
}

#[test]
fn test_process_token_literals() {
    let input: &str = "[true, false, null]";
    let output = Lexer::new(input).process_tokens().unwrap();
    let expected: Vec<Token> = vec![
        Token::LeftBracket,
        Token::Bool(true),
        Token::Comma,
        Token::Bool(false),
        Token::Comma,
        Token::Null,
        Token::RightBracket,
    ];

    assert_eq!(output, expected);
}

#[test]
fn test_process_tokens_trailing_whitespace() {
    let input = "{} ";
    let output = Lexer::new(input).process_tokens().unwrap();
    let expected: Vec<Token> = vec![Token::LeftBrace, Token::RightBrace];

    assert_eq!(output, expected);
}

#[test]
fn test_process_tokens_invalid_character() {
    let input = "!";
    let output = Lexer::new(input).process_tokens();

    assert!(output.is_err());
}

#[test]
fn test_parse_empty_object() {
    let expected = JsonValue::Object(Vec::new());
    assert_eq!(parse_text("{}").unwrap(), expected);
}

#[test]
fn test_parse_single_pair() {
    let expected = JsonValue::Object(vec![(s("key"), JsonValue::String(s("value")))]);
    assert_eq!(parse_text("{\"key\":\"value\"}").unwrap(), expected);
}

#[test]
fn test_parse_multiple_pairs() {
    let expected = JsonValue::Object(vec![
        (s("a"), JsonValue::String(s("1"))),
        (s("b"), JsonValue::String(s("2"))),
    ]);
    assert_eq!(parse_text("{\"a\":\"1\", \"b\":\"2\"}").unwrap(), expected);
}

#[test]
fn test_parse_all_value_types() {
    let expected = JsonValue::Object(vec![
        (s("s"), JsonValue::String(s("x"))),
        (s("n"), JsonValue::Number(s("1"))),
        (s("b"), JsonValue::Bool(true)),
        (s("z"), JsonValue::Null),
    ]);
    assert_eq!(parse_text("{\"s\":\"x\", \"n\":1, \"b\":true, \"z\":null}").unwrap(), expected);
}

#[test]
fn test_parse_nested_object_and_array() {
    let inner = JsonValue::Object(vec![(s("inner"), JsonValue::Number(s("1")))]);
    let expected = JsonValue::Object(vec![
        (s("o"), inner),
        (s("a"), JsonValue::Array(vec![JsonValue::Number(s("1")), JsonValue::Number(s("2"))])),
    ]);
    assert_eq!(parse_text("{\"o\":{\"inner\":1},\"a\":[1,2]}").unwrap(), expected);
}

#[test]
fn test_parse_empty_array() {
    assert_eq!(parse_text("[]").unwrap(), JsonValue::Array(Vec::new()));
}

#[test]
fn test_parse_invalid_json_returns_err() {
    let output = parse_text("{\"a\":}");
    assert!(output.is_err());
}

#[test]
fn lexer_reports_each_error() {
    assert_eq!(Lexer::new("tru").process_tokens(), Err(LexError::InvalidLiteral));
    assert_eq!(Lexer::new("[1, x]").process_tokens(), Err(LexError::InvalidJson));
    assert_eq!(Lexer::new("-1").process_tokens(), Err(LexError::InvalidJson));
}

#[test]
fn lexer_keeps_digits_and_string_contents() {
    let output = Lexer::new("[007, \"a b\"]").process_tokens().unwrap();
    assert_eq!(
        output,
        vec![Token::LeftBracket, Token::Number(s("007")), Token::Comma, Token::String(s("a b")), Token::RightBracket]
    );
}

#[test]
fn lexer_runs_an_unclosed_string_to_the_end() {
    let output = Lexer::new("\"abc").process_tokens().unwrap();
    assert_eq!(output, vec![Token::String(s("abc"))]);
}

#[test]
fn token_text_writes_each_token() {
    assert_eq!(Token::LeftBrace.to_text(), "{");
    assert_eq!(Token::RightBracket.to_text(), "]");
    assert_eq!(Token::String(s("key")).to_text(), "key");
    assert_eq!(Token::Number(s("007")).to_text(), "7");
    assert_eq!(Token::Number(s("000")).to_text(), "0");
    assert_eq!(Token::Bool(false).to_text(), "false");
    assert_eq!(Token::Null.to_text(), "Null");
}

#[test]
fn parser_reports_each_error() {
    assert_eq!(parse_text("}"), Err(ParseError::InvalidJson));
    assert_eq!(parse_text("{1}"), Err(ParseError::UnexpectedTokenInObject));
    assert_eq!(parse_text("{"), Err(ParseError::UnexpectedEndOfJson));
    assert_eq!(
        parse_text("{\"a\" 1}"),
        Err(ParseError::UnexpectedToken { found: Token::Number(s("1")), expected: Token::Colon })
    );
    assert_eq!(parse_text("{\"a\""), Err(ParseError::UnexpectedEnd));
}

#[test]
fn parser_keeps_the_last_value_of_a_repeated_key_in_its_first_place() {
    let expected = JsonValue::Object(vec![
        (s("a"), JsonValue::Number(s("3"))),
        (s("b"), JsonValue::Number(s("2"))),
    ]);
    assert_eq!(parse_text("{\"a\":1,\"b\":2,\"a\":3}").unwrap(), expected);
}

#[test]
fn parser_reads_one_value_and_stops() {
    let mut parser = Parser::new(Lexer::new("true false").process_tokens().unwrap());
    assert_eq!(parser.parse(), Ok(JsonValue::Bool(true)));
    assert_eq!(parser.parse(), Ok(JsonValue::Bool(false)));
}

#[test]
fn try_parse_refuses_to_read_past_the_last_token() {
    let mut parser = Parser::new(Vec::new());
    assert_eq!(parser.try_parse(), None);
    let mut parser = Parser::new(Lexer::new("[1,").process_tokens().unwrap());
    assert_eq!(parser.try_parse(), None);
    let mut parser = Parser::new(Lexer::new("[1,2]").process_tokens().unwrap());
    assert_eq!(
        parser.try_parse(),
        Some(Ok(JsonValue::Array(vec![JsonValue::Number(s("1")), JsonValue::Number(s("2"))])))
    );
}

#[test]
fn parser_steps_over_the_token_that_closes_a_list() {
    // after the last element one token is stepped over, whatever it is
    assert_eq!(
        parse_text("[1:"),
        Ok(JsonValue::Array(vec![JsonValue::Number(s("1"))]))
    );
    assert_eq!(
        parse_text("{\"k\":1,\"j\":2]"),
        Ok(JsonValue::Object(vec![(s("k"), JsonValue::Number(s("1"))), (s("j"), JsonValue::Number(s("2")))]))
    );
}

#[test]
fn process_tokens_again_gives_the_same_tokens() {
    let mut lexer = Lexer::new("[1, \"a\"]");
    let first = lexer.process_tokens().unwrap();
    let second = lexer.process_tokens().unwrap();
    assert_eq!(first, second);
    assert_eq!(lexer.tokens, first);
}

#[test]
fn objects_are_equal_whatever_the_order_of_their_members() {
    let a = parse_text("{\"a\":1, \"b\":[true, null]}").unwrap();
    let b = parse_text("{\"b\":[true, null], \"a\":1}").unwrap();
    assert_eq!(a, b);
    let c = parse_text("{\"b\":[null, true], \"a\":1}").unwrap();
    assert_ne!(a, c);
    let d = parse_text("{\"a\":1}").unwrap();
    assert_ne!(a, d);
}

#[test]
fn numbers_are_equal_by_their_value() {
    assert_eq!(JsonValue::Number(s("007")), JsonValue::Number(s("7")));
    assert_ne!(JsonValue::Number(s("70")), JsonValue::Number(s("7")));
    assert_ne!(JsonValue::Number(s("1")), JsonValue::String(s("1")));
}
