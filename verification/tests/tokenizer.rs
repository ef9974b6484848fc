use huon::tokenizer::number::IntErrorKind;
use huon::tokenizer::token::Token;
use huon::tokenizer::{is_valid_identifier_char, Tokenizer, TokenizerError};

fn scan(input: &str) -> Result<Vec<Token<'_>>, TokenizerError> {
    Tokenizer::new(input).tokens()
}

fn float_of(token: &Token<'_>) -> f64 {
    match token {
        Token::Float(text) => text.parse::<f64>().unwrap(),
        other => panic!("not a float: {:?}", other),
    }
}

#[test]
fn read_string() -> Result<(), TokenizerError> {
    let input = r#""Hi""#;
    let tokens = scan(input)?;

    assert_eq!(tokens, vec![Token::Str("Hi")]);

    Ok(())
}

#[test]
fn identifier() -> Result<(), TokenizerError> {
    let input = "job1: \"swe\"";
    let tokens = scan(input)?;

    assert_eq!(
        tokens,
        vec![
            Token::Identifier("job1"),
            Token::WhiteSpace(1),
            Token::Str("swe")
        ]
    );

    Ok(())
}

#[test]
fn read_number_i64() -> Result<(), TokenizerError> {
    let input = "number: 69420";
    let tokens = scan(input)?;

    assert_eq!(
        tokens,
        vec![
            Token::Identifier("number"),
            Token::WhiteSpace(1),
            Token::Int(69420)
        ]
    );

    Ok(())
}

#[test]
fn read_number_f64() -> Result<(), TokenizerError> {
    let input = "number: 69420.187";
    let tokens = scan(input)?;

    assert_eq!(
        tokens,
        vec![
            Token::Identifier("number"),
            Token::WhiteSpace(1),
            Token::Float("69420.187")
        ]
    );
    assert_eq!(float_of(&tokens[2]), 69420.187);

    Ok(())
}

#[test]
fn read_number_i64_negative() -> Result<(), TokenizerError> {
    let input = "number: -69420";
    let tokens = scan(input)?;

    assert_eq!(
        tokens,
        vec![
            Token::Identifier("number"),
            Token::WhiteSpace(1),
            Token::Int(-69420)
        ]
    );

    Ok(())
}

#[test]
fn read_number_f64_negative() -> Result<(), TokenizerError> {
    let input = "number: -69420.187";
    let tokens = scan(input)?;

    assert_eq!(
        tokens,
        vec![
            Token::Identifier("number"),
            Token::WhiteSpace(1),
            Token::Float("-69420.187")
        ]
    );
    assert_eq!(float_of(&tokens[2]), -69420.187);

    Ok(())
}

#[test]
fn read_list_newline() -> Result<(), TokenizerError> {
    let input = "numbers: [
    -3.5
    2.5
    1.1
]";
    let tokens = scan(input)?;

    assert_eq!(
        tokens,
        vec![
            Token::Identifier("numbers"),
            Token::WhiteSpace(1),
            Token::ListStart,
            Token::NewLine,
            Token::WhiteSpace(4),
            Token::Float("-3.5"),
            Token::NewLine,
            Token::WhiteSpace(4),
            Token::Float("2.5"),
            Token::NewLine,
            Token::WhiteSpace(4),
            Token::Float("1.1"),
            Token::NewLine,
            Token::ListEnd,
        ]
    );
    assert_eq!(float_of(&tokens[5]), -3.5);
    assert_eq!(float_of(&tokens[8]), 2.5);
    assert_eq!(float_of(&tokens[11]), 1.1);

    Ok(())
}

#[test]
fn read_list_spaced() -> Result<(), TokenizerError> {
    let input = "numbers: [-3.5 2.5 1.1]";
    let tokens = scan(input)?;

    assert_eq!(
        tokens,
        vec![
            Token::Identifier("numbers"),
            Token::WhiteSpace(1),
            Token::ListStart,
            Token::Float("-3.5"),
            Token::WhiteSpace(1),
            Token::Float("2.5"),
            Token::WhiteSpace(1),
            Token::Float("1.1"),
            Token::ListEnd,
        ]
    );
    assert_eq!(float_of(&tokens[3]), -3.5);
    assert_eq!(float_of(&tokens[5]), 2.5);
    assert_eq!(float_of(&tokens[7]), 1.1);

    Ok(())
}

#[test]
fn advance_and_peek() -> Result<(), TokenizerError> {
    let input = "true false null";
    let mut tokenizer = Tokenizer::new(input);

    assert_eq!(tokenizer.peek().unwrap()?, Token::Boolean(true));
    assert_eq!(tokenizer.next().unwrap()?, Token::Boolean(true));

    assert_eq!(tokenizer.peek().unwrap()?, Token::WhiteSpace(1));
    assert_eq!(tokenizer.next().unwrap()?, Token::WhiteSpace(1));

    assert_eq!(tokenizer.peek().unwrap()?, Token::Boolean(false));
    assert_eq!(tokenizer.next().unwrap()?, Token::Boolean(false));

    assert_eq!(tokenizer.peek().unwrap()?, Token::WhiteSpace(1));
    assert_eq!(tokenizer.next().unwrap()?, Token::WhiteSpace(1));

    assert_eq!(tokenizer.peek().unwrap()?, Token::Null);
    assert_eq!(tokenizer.next().unwrap()?, Token::Null);

    assert!(tokenizer.next().is_none());

    Ok(())
}

#[test]
fn structural_tokens_and_line_ends() {
    assert_eq!(
        scan("[],\n\r\n").unwrap(),
        vec![
            Token::ListStart,
            Token::ListEnd,
            Token::Separator,
            Token::NewLine,
            Token::NewLine
        ]
    );
}

#[test]
fn whitespace_run_is_counted() {
    assert_eq!(scan("       ").unwrap(), vec![Token::WhiteSpace(7)]);
    assert_eq!(
        scan("  \n   ").unwrap(),
        vec![Token::WhiteSpace(2), Token::NewLine, Token::WhiteSpace(3)]
    );
}

#[test]
fn empty_input_has_no_tokens() {
    let mut tokenizer = Tokenizer::new("");
    assert!(tokenizer.peek().is_none());
    assert!(tokenizer.next().is_none());
    assert_eq!(scan("").unwrap(), vec![]);
}

#[test]
fn unterminated_string_is_eof() {
    assert_eq!(scan("\"abc"), Err(TokenizerError::EOF));
    assert_eq!(scan("\""), Err(TokenizerError::EOF));
}

#[test]
fn string_has_no_escapes() {
    assert_eq!(
        scan("\"a\\\"b").unwrap_err(),
        TokenizerError::UnexpectedCharacter('b')
    );
    assert_eq!(scan("\"\"").unwrap(), vec![Token::Str("")]);
    assert_eq!(scan("\"h\u{e9}llo w\"").unwrap(), vec![Token::Str("h\u{e9}llo w")]);
}

#[test]
fn bare_carriage_return_is_an_error() {
    assert_eq!(scan("\rx"), Err(TokenizerError::UnexpectedCharacter('x')));
    assert_eq!(scan("\r"), Err(TokenizerError::EOF));
}

#[test]
fn unknown_character_is_reported() {
    assert_eq!(scan("@"), Err(TokenizerError::UnexpectedCharacter('@')));
    assert_eq!(scan("a: {"), Err(TokenizerError::UnexpectedCharacter('{')));
}

#[test]
fn word_that_is_no_keyword_reports_its_first_character() {
    assert_eq!(scan("maybe"), Err(TokenizerError::UnexpectedCharacter('m')));
    assert_eq!(scan("truex"), Err(TokenizerError::UnexpectedCharacter('t')));
    assert_eq!(scan("_x"), Err(TokenizerError::UnexpectedCharacter('_')));
}

#[test]
fn keyword_before_colon_is_a_key() {
    assert_eq!(
        scan("true: null").unwrap(),
        vec![Token::Identifier("true"), Token::WhiteSpace(1), Token::Null]
    );
}

#[test]
fn malformed_numbers_are_errors() {
    assert_eq!(
        scan("-"),
        Err(TokenizerError::ParseIntError(IntErrorKind::InvalidDigit))
    );
    assert_eq!(scan("1.2.3"), Err(TokenizerError::ParseFloatError));
    assert_eq!(scan("-."), Err(TokenizerError::ParseFloatError));
    assert_eq!(
        scan("9223372036854775808"),
        Err(TokenizerError::ParseIntError(IntErrorKind::PosOverflow))
    );
    assert_eq!(
        scan("-9223372036854775809"),
        Err(TokenizerError::ParseIntError(IntErrorKind::NegOverflow))
    );
}

#[test]
fn integer_limits_are_read() {
    assert_eq!(
        scan("9223372036854775807").unwrap(),
        vec![Token::Int(i64::MAX)]
    );
    assert_eq!(
        scan("-9223372036854775808").unwrap(),
        vec![Token::Int(i64::MIN)]
    );
    assert_eq!(scan("007").unwrap(), vec![Token::Int(7)]);
    assert_eq!(scan("-0").unwrap(), vec![Token::Int(0)]);
}

#[test]
fn float_literals_with_one_bare_side() {
    let tokens = scan("5. -.5").unwrap();
    assert_eq!(
        tokens,
        vec![Token::Float("5."), Token::WhiteSpace(1), Token::Float("-.5")]
    );
    assert_eq!(float_of(&tokens[0]), 5.0);
    assert_eq!(float_of(&tokens[2]), -0.5);
}

#[test]
fn digit_cannot_start_a_key() {
    assert_eq!(
        scan("1job: \"x\"").unwrap(),
        vec![
            Token::Int(1),
            Token::Identifier("job"),
            Token::WhiteSpace(1),
            Token::Str("x")
        ]
    );
}

#[test]
fn scanning_goes_on_behind_a_failure() {
    let mut tokenizer = Tokenizer::new("@ 1");
    assert_eq!(
        tokenizer.next(),
        Some(Err(TokenizerError::UnexpectedCharacter('@')))
    );
    assert_eq!(tokenizer.next(), Some(Ok(Token::WhiteSpace(1))));
    assert_eq!(tokenizer.next(), Some(Ok(Token::Int(1))));
    assert_eq!(tokenizer.next(), None);
}

#[test]
fn tokenize_reports_the_first_failure() {
    assert!(Tokenizer::tokenize("a: 1\nb: 2").is_ok());
    assert_eq!(
        Tokenizer::tokenize("a: 1\nb: ?\nc: @").err(),
        Some(TokenizerError::UnexpectedCharacter('?'))
    );
    let mut checked = Tokenizer::tokenize("a: 1").unwrap();
    assert_eq!(checked.next(), Some(Ok(Token::Identifier("a"))));
}

#[test]
fn identifier_characters() {
    for c in ['a', 'z', 'A', 'Z', '0', '9', '_'] {
        assert!(is_valid_identifier_char(c));
    }
    for c in ['-', ' ', ':', '.', '\u{e9}', '"'] {
        assert!(!is_valid_identifier_char(c));
    }
}

#[test]
fn is_value_tells_payload_tokens() {
    assert!(Token::Identifier("a").is_value());
    assert!(Token::Str("a").is_value());
    assert!(Token::Int(1).is_value());
    assert!(Token::Float("1.5").is_value());
    assert!(Token::Boolean(false).is_value());
    assert!(Token::Null.is_value());
    assert!(!Token::NewLine.is_value());
    assert!(!Token::WhiteSpace(1).is_value());
    assert!(!Token::ListStart.is_value());
    assert!(!Token::ListEnd.is_value());
    assert!(!Token::Separator.is_value());
}
