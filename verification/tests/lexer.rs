use simplecalc::{parse, tokenize, Error, Lexem, Operator, Token};

fn number(text: &str, negative: bool) -> Option<f64> {
    let value: f64 = text.parse().ok()?;
    let sign = if negative { -1.0 } else { 1.0 };
    Some(value * sign)
}

#[test]
fn test_lexer() {
    let lexems = parse(&tokenize("12+13**10").unwrap(), number).unwrap();
    assert_eq!(
        lexems,
        vec![
            Lexem::Number(12.0),
            Lexem::Operator(Operator::Add),
            Lexem::Number(13.0),
            Lexem::Operator(Operator::Pow),
            Lexem::Number(10.0),
        ]
    )
}

#[test]
fn test_leading_minus() {
    let lexems = parse(&tokenize("-5*(-10)").unwrap(), number).unwrap();
    assert_eq!(
        lexems,
        vec![
            Lexem::Number(-5.0),
            Lexem::Operator(Operator::Mul),
            Lexem::ParOpen,
            Lexem::Number(-10.0),
            Lexem::ParClose,
        ]
    )
}

#[test]
fn test_leading_plus() {
    let lexems = parse(&tokenize("+5*(+10)").unwrap(), number).unwrap();
    assert_eq!(
        lexems,
        vec![
            Lexem::Number(5.0),
            Lexem::Operator(Operator::Mul),
            Lexem::ParOpen,
            Lexem::Number(10.0),
            Lexem::ParClose,
        ]
    )
}

#[test]
fn test_leading_minus_before_par() {
    let lexems = parse(&tokenize("-(-1)").unwrap(), number).unwrap();
    assert_eq!(
        lexems,
        vec![
            Lexem::Number(-1.0),
            Lexem::Operator(Operator::Mul),
            Lexem::ParOpen,
            Lexem::Number(-1.0),
            Lexem::ParClose
        ]
    )
}

#[test]
fn test_parse_floats() {
    let lexems = parse(&tokenize("12.34+(-56.78)").unwrap(), number).unwrap();
    assert_eq!(
        lexems,
        vec![
            Lexem::Number(12.34),
            Lexem::Operator(Operator::Add),
            Lexem::ParOpen,
            Lexem::Number(-56.78),
            Lexem::ParClose
        ]
    )
}

#[test]
fn test_parse_pow() {
    let lexems = parse(&tokenize("2**3").unwrap(), number).unwrap();
    assert_eq!(
        lexems,
        vec![
            Lexem::Number(2.0),
            Lexem::Operator(Operator::Pow),
            Lexem::Number(3.0),
        ]
    )
}

#[test]
fn test_parse_errors() {
    assert!(parse(&tokenize("2+").unwrap(), number).is_err());
    assert!(parse(&tokenize("2+(").unwrap(), number).is_err());
    assert!(parse(&tokenize("11 22").unwrap(), number).is_err());
    assert!(parse(&tokenize("5+)").unwrap(), number).is_err());
    assert!(parse(&tokenize("8/()").unwrap(), number).is_err());
    assert!(parse(&tokenize("8/(2))").unwrap(), number).is_err());
    assert!(parse(&tokenize("8.8.10").unwrap(), number).is_err());
}

fn lex(input: &str) -> Result<Vec<Lexem<f64>>, Error> {
    parse(&tokenize(input).unwrap(), number)
}

#[test]
fn test_priority() {
    assert_eq!(Operator::Add.priority(), 0);
    assert_eq!(Operator::Sub.priority(), 0);
    assert_eq!(Operator::Mul.priority(), 1);
    assert_eq!(Operator::Div.priority(), 1);
    assert_eq!(Operator::Pow.priority(), 2);
}

#[test]
fn test_every_operator_is_classified() {
    assert_eq!(
        lex("1+2-3*4/5**6").unwrap(),
        vec![
            Lexem::Number(1.0),
            Lexem::Operator(Operator::Add),
            Lexem::Number(2.0),
            Lexem::Operator(Operator::Sub),
            Lexem::Number(3.0),
            Lexem::Operator(Operator::Mul),
            Lexem::Number(4.0),
            Lexem::Operator(Operator::Div),
            Lexem::Number(5.0),
            Lexem::Operator(Operator::Pow),
            Lexem::Number(6.0),
        ]
    );
}

#[test]
fn test_error_positions() {
    assert_eq!(lex("2+"), Err(Error::LexerError(2)));
    assert_eq!(lex("2+("), Err(Error::LexerError(3)));
    assert_eq!(lex("11 22"), Err(Error::LexerError(2)));
    assert_eq!(lex("5+)"), Err(Error::LexerError(2)));
    assert_eq!(lex("8/()"), Err(Error::LexerError(3)));
    assert_eq!(lex("*5"), Err(Error::LexerError(0)));
    assert_eq!(lex(")"), Err(Error::LexerError(0)));
    assert_eq!(lex("2(3)"), Err(Error::LexerError(1)));
    assert_eq!(lex("(2)3"), Err(Error::LexerError(3)));
}

#[test]
fn test_unbalanced_parentheses_are_reported_at_the_end() {
    assert_eq!(lex("8/(2))"), Err(Error::LexerError(7)));
    assert_eq!(lex("(1"), Err(Error::LexerError(3)));
    assert_eq!(lex("((1)"), Err(Error::LexerError(5)));
}

#[test]
fn test_close_before_open_is_rejected() {
    assert_eq!(lex("1)+(2"), Err(Error::LexerError(6)));
    assert_eq!(lex("1)*2+(3"), Err(Error::LexerError(8)));
}

#[test]
fn test_empty_input_is_rejected() {
    assert_eq!(lex(""), Err(Error::LexerError(0)));
    assert_eq!(lex("   "), Err(Error::LexerError(1)));
}

#[test]
fn test_malformed_number() {
    assert_eq!(lex("8.8.10"), Err(Error::ParseNumberError));
    assert_eq!(lex("."), Err(Error::ParseNumberError));
    assert_eq!(lex("1+..2"), Err(Error::ParseNumberError));
}

#[test]
fn test_unknown_operator() {
    assert_eq!(lex("2++3"), Err(Error::ParseOperatorError("++".to_string())));
    assert_eq!(lex("2*/3"), Err(Error::ParseOperatorError("*/".to_string())));
    assert_eq!(lex("2***3"), Err(Error::ParseOperatorError("***".to_string())));
    assert_eq!(lex("2--3"), Err(Error::ParseOperatorError("--".to_string())));
}

#[test]
fn test_first_failure_wins() {
    // the number is read before the token that follows it is judged
    assert_eq!(lex("1.2.3 4"), Err(Error::ParseNumberError));
    // the operator is classified before the token that follows it is judged
    assert_eq!(lex("1++)"), Err(Error::ParseOperatorError("++".to_string())));
    // a structural error comes first where it is met first
    assert_eq!(lex("1 2.3.4"), Err(Error::LexerError(2)));
    assert_eq!(lex("1+)+2.3.4"), Err(Error::LexerError(2)));
}

#[test]
fn test_whitespace_is_absorbed() {
    let plain = lex("1+2").unwrap();
    assert_eq!(lex("1 + 2").unwrap(), plain);
    assert_eq!(lex("  1 + \t2\n\n").unwrap(), plain);
    assert_eq!(lex("1+2\n").unwrap(), plain);
    assert_eq!(
        lex(" ( 1 + 2 ) * 3 ").unwrap(),
        lex("(1+2)*3").unwrap()
    );
    assert_eq!(
        plain,
        vec![
            Lexem::Number(1.0),
            Lexem::Operator(Operator::Add),
            Lexem::Number(2.0),
        ]
    );
}

#[test]
fn test_whitespace_after_a_sign_is_rejected() {
    assert_eq!(lex("- 5"), Err(Error::LexerError(1)));
    assert_eq!(lex("(- 5)"), Err(Error::LexerError(2)));
    assert_eq!(lex("-\t(5)"), Err(Error::LexerError(1)));
}

#[test]
fn test_sign_before_parenthesis_becomes_a_product() {
    assert_eq!(
        lex("+(2)").unwrap(),
        vec![
            Lexem::Number(1.0),
            Lexem::Operator(Operator::Mul),
            Lexem::ParOpen,
            Lexem::Number(2.0),
            Lexem::ParClose,
        ]
    );
    assert_eq!(
        lex("(-(2))").unwrap(),
        vec![
            Lexem::ParOpen,
            Lexem::Number(-1.0),
            Lexem::Operator(Operator::Mul),
            Lexem::ParOpen,
            Lexem::Number(2.0),
            Lexem::ParClose,
            Lexem::ParClose,
        ]
    );
}

#[test]
fn test_sign_is_only_taken_where_an_operand_begins() {
    assert_eq!(lex("2*-3"), Err(Error::ParseOperatorError("*-".to_string())));
    assert_eq!(lex("2* -3"), Err(Error::LexerError(3)));
    assert_eq!(lex("--3"), Err(Error::LexerError(0)));
}

#[test]
fn test_tokens_after_the_end_are_rejected() {
    let tokens = vec![Token::Number("1"), Token::End, Token::End];
    assert_eq!(parse(&tokens, number), Err(Error::LexerError(2)));
    let tokens = vec![Token::Number("1"), Token::End, Token::Whitespace(" ")];
    assert_eq!(parse(&tokens, number), Err(Error::LexerError(2)));
}

#[test]
fn test_stream_without_end_is_rejected() {
    let tokens = vec![Token::Number("1")];
    assert_eq!(parse(&tokens, number), Err(Error::LexerError(1)));
    let tokens: Vec<Token> = Vec::new();
    assert_eq!(parse(&tokens, number), Err(Error::LexerError(0)));
}

#[test]
fn test_numbers_are_read_by_the_caller() {
    let integers = |text: &str, negative: bool| -> Option<i64> {
        let value: i64 = text.parse().ok()?;
        Some(if negative { -value } else { value })
    };
    assert_eq!(
        parse(&tokenize("-12*(7)").unwrap(), integers).unwrap(),
        vec![
            Lexem::Number(-12),
            Lexem::Operator(Operator::Mul),
            Lexem::ParOpen,
            Lexem::Number(7),
            Lexem::ParClose,
        ]
    );
    assert_eq!(
        parse(&tokenize("1.5").unwrap(), integers),
        Err(Error::ParseNumberError)
    );
}
