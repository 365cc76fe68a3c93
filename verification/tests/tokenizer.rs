use simplecalc::{classify, tokenize, Class, Error, Token};

#[test]
fn test_numbers() {
    let tokens = tokenize("21 43.5 .7 0").unwrap();
    assert_eq!(
        tokens,
        vec![
            Token::Number("21"),
            Token::Whitespace(" "),
            Token::Number("43.5"),
            Token::Whitespace(" "),
            Token::Number(".7"),
            Token::Whitespace(" "),
            Token::Number("0"),
            Token::End,
        ]
    );
}

#[test]
fn test_operators() {
    let tokens = tokenize("2+3**4/5*6++//").unwrap();
    assert_eq!(
        tokens,
        vec![
            Token::Number("2"),
            Token::Operator("+"),
            Token::Number("3"),
            Token::Operator("**"),
            Token::Number("4"),
            Token::Operator("/"),
            Token::Number("5"),
            Token::Operator("*"),
            Token::Number("6"),
            Token::Operator("++//"),
            Token::End
        ]
    );
}

#[test]
fn test_parenthesis() {
    let tokens = tokenize(")(() (").unwrap();
    assert_eq!(
        tokens,
        vec![
            Token::ParClose,
            Token::ParOpen,
            Token::ParOpen,
            Token::ParClose,
            Token::Whitespace(" "),
            Token::ParOpen,
            Token::End
        ]
    )
}

#[test]
fn test_whitespace() {
    let tokens = tokenize("  1 + \t2\n\n").unwrap();
    assert_eq!(
        tokens,
        vec![
            Token::Whitespace("  "),
            Token::Number("1"),
            Token::Whitespace(" "),
            Token::Operator("+"),
            Token::Whitespace(" \t"),
            Token::Number("2"),
            Token::Whitespace("\n\n"),
            Token::End,
        ]
    );

    let tokens = tokenize("\n\n  1 \n").unwrap();
    assert_eq!(
        tokens,
        vec![
            Token::Whitespace("\n\n  "),
            Token::Number("1"),
            Token::Whitespace(" \n"),
            Token::End,
        ]
    )
}

#[test]
fn test_error() {
    assert!(tokenize("1+2+@").is_err());
    assert!(tokenize("11,3").is_err());
}

#[test]
fn test_error_names_position_and_character() {
    assert_eq!(tokenize("1+2+@"), Err(Error::TokenizerError(4, '@')));
    assert_eq!(tokenize("11,3"), Err(Error::TokenizerError(2, ',')));
    assert_eq!(tokenize("a"), Err(Error::TokenizerError(0, 'a')));
    assert_eq!(tokenize("1e5"), Err(Error::TokenizerError(1, 'e')));
}

#[test]
fn test_first_invalid_character_is_reported() {
    assert_eq!(tokenize("1 # 2 @"), Err(Error::TokenizerError(2, '#')));
}

#[test]
fn test_empty_input_is_only_the_end() {
    assert_eq!(tokenize("").unwrap(), vec![Token::End]);
}

#[test]
fn test_every_stream_ends_with_end() {
    for input in ["", " ", "1", "(", "1+", "12.5*(3)", "+-*/"] {
        let tokens = tokenize(input).unwrap();
        assert_eq!(tokens.last(), Some(&Token::End));
        assert_eq!(tokens.iter().filter(|token| **token == Token::End).count(), 1);
    }
}

#[test]
fn test_runs_are_maximal() {
    assert_eq!(
        tokenize("1.2.3..").unwrap(),
        vec![Token::Number("1.2.3.."), Token::End]
    );
    assert_eq!(
        tokenize("-+").unwrap(),
        vec![Token::Operator("-+"), Token::End]
    );
}

#[test]
fn test_each_parenthesis_is_a_token() {
    assert_eq!(
        tokenize("((").unwrap(),
        vec![Token::ParOpen, Token::ParOpen, Token::End]
    );
    assert_eq!(
        tokenize("))").unwrap(),
        vec![Token::ParClose, Token::ParClose, Token::End]
    );
}

#[test]
fn test_whitespace_of_several_bytes() {
    let tokens = tokenize("1\u{2003}+\u{a0}\u{3000}2").unwrap();
    assert_eq!(
        tokens,
        vec![
            Token::Number("1"),
            Token::Whitespace("\u{2003}"),
            Token::Operator("+"),
            Token::Whitespace("\u{a0}\u{3000}"),
            Token::Number("2"),
            Token::End,
        ]
    );
}

#[test]
fn test_position_counts_characters() {
    assert_eq!(
        tokenize("\u{2003}\u{2003}@"),
        Err(Error::TokenizerError(2, '@'))
    );
    assert_eq!(tokenize("1+\u{e9}"), Err(Error::TokenizerError(2, '\u{e9}')));
}

#[test]
fn test_digits_of_other_scripts_are_invalid() {
    assert_eq!(
        tokenize("\u{0663}"),
        Err(Error::TokenizerError(0, '\u{0663}'))
    );
}

#[test]
fn test_tokens_cover_the_input() {
    let input = " 12.5*( 3+4 )/-2 ";
    let tokens = tokenize(input).unwrap();
    let mut text = String::new();
    for token in tokens.iter() {
        match token {
            Token::Number(span) | Token::Operator(span) | Token::Whitespace(span) => {
                text.push_str(span)
            }
            Token::ParOpen => text.push('('),
            Token::ParClose => text.push(')'),
            Token::End => {}
        }
    }
    assert_eq!(text, input);
}

#[test]
fn test_classify() {
    for ch in ['0', '5', '9', '.'] {
        assert_eq!(classify(ch, false), Some(Class::Number));
    }
    for ch in ['+', '-', '*', '/'] {
        assert_eq!(classify(ch, false), Some(Class::Operator));
    }
    assert_eq!(classify('(', false), Some(Class::ParOpen));
    assert_eq!(classify(')', false), Some(Class::ParClose));
    assert_eq!(classify(' ', true), Some(Class::Whitespace));
    assert_eq!(classify('\u{3000}', true), Some(Class::Whitespace));
    for ch in ['a', ',', '@', '^', '%', '=', '\u{0663}', '\0'] {
        assert_eq!(classify(ch, false), None);
    }
}

#[test]
fn test_classify_asks_for_whitespace_last() {
    assert_eq!(classify('7', true), Some(Class::Number));
    assert_eq!(classify('*', true), Some(Class::Operator));
    assert_eq!(classify('(', true), Some(Class::ParOpen));
    assert_eq!(classify(')', true), Some(Class::ParClose));
    assert_eq!(classify(' ', false), None);
}

#[test]
fn test_whitespace_is_what_the_standard_library_says() {
    for ch in [' ', '\t', '\n', '\r', '\u{b}', '\u{c}', '\u{85}', '\u{a0}', '\u{2028}'] {
        assert!(ch.is_whitespace());
        let text = ch.to_string();
        assert_eq!(
            tokenize(&text).unwrap(),
            vec![Token::Whitespace(&text), Token::End]
        );
    }
    for ch in ['\u{200b}', '_', '\u{feff}'] {
        assert!(!ch.is_whitespace());
        assert_eq!(tokenize(&ch.to_string()), Err(Error::TokenizerError(0, ch)));
    }
}
