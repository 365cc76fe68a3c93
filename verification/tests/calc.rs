use simplecalc::{eval, evaluate, parse, postfix_repr, tokenize, Error, Lexem, Operator};

fn number(text: &str, negative: bool) -> Option<f64> {
    let value: f64 = text.parse().ok()?;
    let sign = if negative { -1.0 } else { 1.0 };
    Some(value * sign)
}

fn apply(op: Operator, a: f64, b: f64) -> f64 {
    match op {
        Operator::Add => a + b,
        Operator::Sub => a - b,
        Operator::Mul => a * b,
        Operator::Div => a / b,
        Operator::Pow => a.powf(b),
    }
}

fn calc(expr: &str) -> Result<f64, Error> {
    eval(expr, number, apply)
}

#[test]
fn test_postfix_repr() {
    let postfix = postfix_repr(&parse(&tokenize("1+2*3+4").unwrap(), number).unwrap());
    assert_eq!(
        postfix,
        vec![
            Lexem::Number(1.0),
            Lexem::Number(2.0),
            Lexem::Number(3.0),
            Lexem::Operator(Operator::Mul),
            Lexem::Operator(Operator::Add),
            Lexem::Number(4.0),
            Lexem::Operator(Operator::Add),
        ]
    )
}

#[test]
fn test_postfix_repr_leading_minus() {
    let postfix = postfix_repr(&parse(&tokenize("-5+10").unwrap(), number).unwrap());
    assert_eq!(
        postfix,
        vec![
            Lexem::Number(-5.0),
            Lexem::Number(10.0),
            Lexem::Operator(Operator::Add),
        ]
    )
}

#[test]
fn test_postfix_repr_parethesis() {
    let postfix = postfix_repr(&parse(&tokenize("2*(100+50)").unwrap(), number).unwrap());
    assert_eq!(
        postfix,
        vec![
            Lexem::Number(2.0),
            Lexem::Number(100.0),
            Lexem::Number(50.0),
            Lexem::Operator(Operator::Add),
            Lexem::Operator(Operator::Mul),
        ]
    )
}

#[test]
fn test_eval() {
    assert_eq!(8.0, eval("2**3", number, apply).unwrap());
    assert_eq!(-3.0, eval("1+2**3-10/5*6", number, apply).unwrap());
    assert_eq!(300.0, eval("2*(100+50)", number, apply).unwrap());
    assert_eq!(-1.0, eval("-5+4", number, apply).unwrap());
}

#[test]
fn test_operator_priority() {
    assert_eq!(calc("1+2*3"), Ok(7.0));
    assert_eq!(calc("2*(100+50)"), Ok(300.0));
    assert_eq!(calc("2*3**2"), Ok(18.0));
    assert_eq!(calc("(1+2)*3"), Ok(9.0));
}

#[test]
fn test_equal_priority_goes_left_to_right() {
    assert_eq!(calc("1+2**3-10/5*6"), Ok(-3.0));
    assert_eq!(calc("10-4-3"), Ok(3.0));
    assert_eq!(calc("100/10/5"), Ok(2.0));
    assert_eq!(calc("2-3+4"), Ok(3.0));
}

#[test]
fn test_power_associates_to_the_left() {
    assert_eq!(calc("2**3**2"), Ok(64.0));
}

#[test]
fn test_leading_sign() {
    assert_eq!(calc("-5*(-10)"), Ok(50.0));
    assert_eq!(calc("-(-1)"), Ok(1.0));
    assert_eq!(calc("+5*(+10)"), Ok(50.0));
    assert_eq!(calc("-(2+3)*2"), Ok(-10.0));
}

#[test]
fn test_power() {
    assert_eq!(calc("2**3"), Ok(8.0));
    assert_eq!(calc("2**0.5"), Ok(2.0_f64.powf(0.5)));
}

#[test]
fn test_operand_order() {
    assert_eq!(calc("7-2"), Ok(5.0));
    assert_eq!(calc("8/2"), Ok(4.0));
    assert_eq!(calc("2**10"), Ok(1024.0));
}

#[test]
fn test_division_by_zero_is_no_error() {
    assert_eq!(calc("1/0"), Ok(f64::INFINITY));
    assert_eq!(calc("-1/0"), Ok(f64::NEG_INFINITY));
    assert!(calc("0/0").unwrap().is_nan());
}

#[test]
fn test_number_evaluates_to_itself() {
    for text in ["0", "21", "43.5", ".7", "7.", "000.250", "123456789.125"] {
        assert_eq!(calc(text), Ok(text.parse::<f64>().unwrap()));
    }
    assert_eq!(calc("8.8.10"), Err(Error::ParseNumberError));
    assert_eq!(calc("."), Err(Error::ParseNumberError));
}

#[test]
fn test_parentheses_are_transparent() {
    for text in ["1", "1+2*3", "-5*(-10)", "2**3**2", "(1+2)*3", "1/0", "-(-1)"] {
        let plain = calc(text);
        assert!(plain.is_ok());
        assert_eq!(calc(&format!("({})", text)), plain);
        assert_eq!(calc(&format!("(({}))", text)), plain);
    }
}

#[test]
fn test_whitespace_makes_no_difference() {
    assert_eq!(calc("1 + 2"), calc("1+2"));
    assert_eq!(calc("1 + 2"), Ok(3.0));
    assert_eq!(calc(" 2 * ( 100 + 50 ) "), Ok(300.0));
    assert_eq!(calc("1+2\n"), Ok(3.0));
    assert_eq!(calc("\t-5 *\n(-10)\r\n"), Ok(50.0));
}

#[test]
fn test_malformed_input_fails() {
    assert_eq!(calc("2+"), Err(Error::LexerError(2)));
    assert_eq!(calc("2+("), Err(Error::LexerError(3)));
    assert_eq!(calc("11 22"), Err(Error::LexerError(2)));
    assert_eq!(calc("5+)"), Err(Error::LexerError(2)));
    assert_eq!(calc("8/()"), Err(Error::LexerError(3)));
    assert_eq!(calc("8/(2))"), Err(Error::LexerError(7)));
    assert_eq!(calc("8.8.10"), Err(Error::ParseNumberError));
    assert_eq!(calc("1+2+@"), Err(Error::TokenizerError(4, '@')));
    assert_eq!(calc("11,3"), Err(Error::TokenizerError(2, ',')));
    assert_eq!(calc(""), Err(Error::LexerError(0)));
    assert_eq!(calc("2++2"), Err(Error::ParseOperatorError("++".to_string())));
}

#[test]
fn test_tokenizer_error_comes_first() {
    assert_eq!(calc("2+)@"), Err(Error::TokenizerError(3, '@')));
    assert_eq!(calc("1.2.3,"), Err(Error::TokenizerError(5, ',')));
}

#[test]
fn test_postfix_of_nested_parentheses() {
    let postfix = postfix_repr(&parse(&tokenize("((1+2)*(3-4))**2").unwrap(), number).unwrap());
    assert_eq!(
        postfix,
        vec![
            Lexem::Number(1.0),
            Lexem::Number(2.0),
            Lexem::Operator(Operator::Add),
            Lexem::Number(3.0),
            Lexem::Number(4.0),
            Lexem::Operator(Operator::Sub),
            Lexem::Operator(Operator::Mul),
            Lexem::Number(2.0),
            Lexem::Operator(Operator::Pow),
        ]
    );
}

#[test]
fn test_postfix_pops_equal_priority() {
    let infix = vec![
        Lexem::Number(1),
        Lexem::Operator(Operator::Pow),
        Lexem::Number(2),
        Lexem::Operator(Operator::Pow),
        Lexem::Number(3),
        Lexem::Operator(Operator::Sub),
        Lexem::Number(4),
    ];
    assert_eq!(
        postfix_repr(&infix),
        vec![
            Lexem::Number(1),
            Lexem::Number(2),
            Lexem::Operator(Operator::Pow),
            Lexem::Number(3),
            Lexem::Operator(Operator::Pow),
            Lexem::Number(4),
            Lexem::Operator(Operator::Sub),
        ]
    );
}

#[test]
fn test_postfix_of_empty_sequence() {
    let infix: Vec<Lexem<f64>> = Vec::new();
    assert_eq!(postfix_repr(&infix), Vec::new());
}

#[test]
fn test_postfix_of_unbalanced_sequences() {
    // a close parenthesis with nothing open empties the stack
    let infix = vec![
        Lexem::Number(1),
        Lexem::Operator(Operator::Add),
        Lexem::Number(2),
        Lexem::ParClose,
        Lexem::Operator(Operator::Mul),
        Lexem::Number(3),
    ];
    assert_eq!(
        postfix_repr(&infix),
        vec![
            Lexem::Number(1),
            Lexem::Number(2),
            Lexem::Operator(Operator::Add),
            Lexem::Number(3),
            Lexem::Operator(Operator::Mul),
        ]
    );
    // an open parenthesis that nothing closes is written out at the end
    let infix = vec![
        Lexem::Number(1),
        Lexem::Operator(Operator::Add),
        Lexem::ParOpen,
        Lexem::Number(2),
    ];
    assert_eq!(
        postfix_repr(&infix),
        vec![
            Lexem::Number(1),
            Lexem::Number(2),
            Lexem::ParOpen,
            Lexem::Operator(Operator::Add),
        ]
    );
}

#[test]
fn test_evaluate_postfix() {
    let postfix = vec![
        Lexem::Number(1.0),
        Lexem::Number(2.0),
        Lexem::Number(3.0),
        Lexem::Operator(Operator::Mul),
        Lexem::Operator(Operator::Add),
    ];
    assert_eq!(evaluate(&postfix, apply), Ok(7.0));
    let postfix = vec![
        Lexem::Number(7.0),
        Lexem::Number(2.0),
        Lexem::Operator(Operator::Sub),
    ];
    assert_eq!(evaluate(&postfix, apply), Ok(5.0));
}

#[test]
fn test_evaluate_fails_on_what_cannot_be_reduced() {
    let empty: Vec<Lexem<f64>> = Vec::new();
    assert_eq!(evaluate(&empty, apply), Err(Error::EvalError));
    let underflow = vec![Lexem::Number(1.0), Lexem::Operator(Operator::Add)];
    assert_eq!(evaluate(&underflow, apply), Err(Error::EvalError));
    let lone = vec![Lexem::Operator(Operator::Add)];
    assert_eq!(evaluate(&lone, apply), Err(Error::EvalError));
    let open = vec![Lexem::Number(1.0), Lexem::ParOpen];
    assert_eq!(evaluate(&open, apply), Err(Error::EvalError));
    let close = vec![Lexem::Number(1.0), Lexem::ParClose, Lexem::Number(2.0)];
    assert_eq!(evaluate(&close, apply), Err(Error::EvalError));
}

#[test]
fn test_evaluate_gives_the_last_operand_left() {
    let postfix = vec![Lexem::Number(1.0), Lexem::Number(2.0)];
    assert_eq!(evaluate(&postfix, apply), Ok(2.0));
}

#[test]
fn test_other_numbers_than_floats() {
    let integers = |text: &str, negative: bool| -> Option<i64> {
        let value: i64 = text.parse().ok()?;
        Some(if negative { -value } else { value })
    };
    let wrapping = |op: Operator, a: i64, b: i64| -> i64 {
        match op {
            Operator::Add => a.wrapping_add(b),
            Operator::Sub => a.wrapping_sub(b),
            Operator::Mul => a.wrapping_mul(b),
            Operator::Div => a.checked_div(b).unwrap_or(0),
            Operator::Pow => a.wrapping_pow(b as u32),
        }
    };
    assert_eq!(eval("7/2", integers, wrapping), Ok(3));
    assert_eq!(eval("-(2+3)**2", integers, wrapping), Ok(-25));
    assert_eq!(eval("1.5", integers, wrapping), Err(Error::ParseNumberError));
}

/// A recursive-descent evaluator to hold the pipeline against.
struct Descent<'a> {
    items: &'a [Lexem<f64>],
    pos: usize,
}

impl<'a> Descent<'a> {
    fn level(&mut self, level: u8) -> Option<f64> {
        if level > 2 {
            return self.atom();
        }
        let mut left = self.level(level + 1)?;
        while let Some(Lexem::Operator(op)) = self.items.get(self.pos) {
            if op.priority() != level {
                break;
            }
            self.pos += 1;
            let right = self.level(level + 1)?;
            left = apply(*op, left, right);
        }
        Some(left)
    }

    fn atom(&mut self) -> Option<f64> {
        match self.items.get(self.pos)? {
            Lexem::Number(value) => {
                self.pos += 1;
                Some(*value)
            }
            Lexem::ParOpen => {
                self.pos += 1;
                let value = self.level(0)?;
                match self.items.get(self.pos)? {
                    Lexem::ParClose => {
                        self.pos += 1;
                        Some(value)
                    }
                    _ => None,
                }
            }
            _ => None,
        }
    }
}

fn descend(items: &[Lexem<f64>]) -> Option<f64> {
    let mut descent = Descent { items, pos: 0 };
    let value = descent.level(0)?;
    if descent.pos == items.len() {
        Some(value)
    } else {
        None
    }
}

#[test]
fn test_pipeline_agrees_with_recursive_descent() {
    let inputs = [
        "1",
        "1+2",
        "1+2*3",
        "1*2+3",
        "1+2**3-10/5*6",
        "2**3**2",
        "2*(100+50)",
        "-5*(-10)",
        "-(-1)",
        "((1+2)*(3-4))**2",
        "1-(2-(3-(4-5)))",
        "1/3*3",
        "2**(-(1))",
        "(1.5+2.25)/(0.5-0.125)*(-(3))",
        "10-4-3+2*5/4**2",
    ];
    for input in inputs {
        let items = parse(&tokenize(input).unwrap(), number).unwrap();
        let expected = descend(&items).unwrap();
        assert_eq!(evaluate(&postfix_repr(&items), apply), Ok(expected));
        assert_eq!(calc(input), Ok(expected));
    }
}
