//! A small calculator core: arithmetic expressions given as text are cut into
//! tokens, normalised into lexical items, reordered into postfix notation and
//! reduced on an operand stack.
//!
//! The library never computes with numbers itself. A caller supplies two
//! functions, one that reads a number from its text and one that applies an
//! operator to two numbers, and every stage is verified for all such
//! functions.

use vstd::prelude::*;

pub mod evaluator;
pub mod grammar;
pub mod laws;
pub mod lexer;
pub mod parentheses;
pub mod postfix;
pub mod soundness;
pub mod structure;
pub mod tokenizer;

pub use evaluator::evaluate;
pub use lexer::{parse, Lexem, LexemStream, Operator};
pub use postfix::postfix_repr;
pub use tokenizer::{classify, tokenize, Class, Token, TokenStream};

use evaluator::{evaluates, outcome_of};
use lexer::lexes;
use postfix::to_postfix;
use tokenizer::{spans_of, tokens_of, Span};

verus! {

/// Why an expression could not be evaluated.
#[derive(Debug, Clone, PartialEq, Eq)]
pub enum Error {
    /// A character that belongs to no token, with its position counted in characters.
    TokenizerError(usize, char),
    /// A token that the grammar does not allow at its position in the stream.
    LexerError(usize),
    /// A number token whose text is not a number.
    ParseNumberError,
    /// A run of operator characters that is not one of the known operators.
    ParseOperatorError(String),
    /// A postfix sequence that cannot be reduced to a value.
    EvalError,
}

/// The mathematical content of an [`Error`].
pub ghost enum Failure {
    TokenizerError(nat, char),
    LexerError(nat),
    ParseNumberError,
    ParseOperatorError(Seq<char>),
    EvalError,
}

impl View for Error {
    type V = Failure;

    open spec fn view(&self) -> Failure {
        match *self {
            Error::TokenizerError(pos, ch) => Failure::TokenizerError(pos as nat, ch),
            Error::LexerError(pos) => Failure::LexerError(pos as nat),
            Error::ParseNumberError => Failure::ParseNumberError,
            Error::ParseOperatorError(text) => Failure::ParseOperatorError(text@),
            Error::EvalError => Failure::EvalError,
        }
    }
}

/// What the stages after the lexer may give: the lexer's error, or what
/// the evaluator gives for the postfix form of the lexical items.
pub open spec fn finishes<V, A: Fn(Operator, V, V) -> V>(
    apply: A,
    lexed: Result<Seq<Lexem<V>>, Failure>,
    outcome: Result<V, Failure>,
) -> bool {
    match lexed {
        Err(error) => outcome == Err::<V, Failure>(error),
        Ok(items) => evaluates(apply, to_postfix(items), outcome),
    }
}

/// What evaluating a text may give when `number` reads the numbers and
/// `apply` does the arithmetic: the error of the first stage that fails, or
/// a value of the expression that the text stands for.
pub open spec fn computes<V, N: Fn(&str, bool) -> Option<V>, A: Fn(Operator, V, V) -> V>(
    text: Seq<char>,
    number: N,
    apply: A,
    outcome: Result<V, Failure>,
) -> bool {
    match tokens_of(text) {
        Err(error) => outcome == Err::<V, Failure>(error),
        Ok(tokens) => follows(tokens, number, apply, outcome),
    }
}

/// What the stages after the tokenizer may give for a token stream.
pub open spec fn follows<V, N: Fn(&str, bool) -> Option<V>, A: Fn(Operator, V, V) -> V>(
    tokens: Seq<Span>,
    number: N,
    apply: A,
    outcome: Result<V, Failure>,
) -> bool {
    exists|lexed: Result<Seq<Lexem<V>>, Failure>|
        #[trigger] lexes(number, tokens, lexed) && finishes(apply, lexed, outcome)
}

/// What the stages give one after the other is what the whole gives.
proof fn lemma_computes<V, N: Fn(&str, bool) -> Option<V>, A: Fn(Operator, V, V) -> V>(
    text: Seq<char>,
    number: N,
    apply: A,
    tokens: Seq<Span>,
    lexed: Result<Seq<Lexem<V>>, Failure>,
    outcome: Result<V, Failure>,
)
    requires
        tokens_of(text) == Ok::<Seq<Span>, Failure>(tokens),
        lexes(number, tokens, lexed),
        finishes(apply, lexed, outcome),
    ensures
        computes(text, number, apply, outcome),
{
    assert(follows(tokens, number, apply, outcome));
}

/// Evaluates an arithmetic expression given as text.
///
/// `number` reads a number from the text of a number token and gives it the
/// sign that stood in front of it, or answers `None` where the text is no
/// number; `apply` computes `a op b`.
pub fn eval<V: Copy, N, A>(expr: &str, number: N, apply: A) -> (result: Result<V, Error>)
    where N: Fn(&str, bool) -> Option<V>, A: Fn(Operator, V, V) -> V
    requires
        forall|text: &str, negative: bool| number.requires((text, negative)),
        forall|op: Operator, a: V, b: V| apply.requires((op, a, b)),
    ensures
        computes(expr@, number, apply, outcome_of(result)),
{
    let tokens = match tokenize(expr) {
        Ok(tokens) => tokens,
        Err(error) => {
            return Err(error);
        },
    };
    let ghost spans = spans_of(tokens@);
    assert(tokens_of(expr@) == Ok::<Seq<Span>, Failure>(spans));
    let lexems = match parse(&tokens, number) {
        Ok(lexems) => lexems,
        Err(error) => {
            proof {
                let stopped = Err::<Seq<Lexem<V>>, Failure>(error@);
                lemma_computes(expr@, number, apply, spans, stopped, Err::<V, Failure>(error@));
            }
            return Err(error);
        },
    };
    let postfix = postfix_repr(&lexems);
    let result = evaluate(&postfix, apply);
    proof {
        let passed = Ok::<Seq<Lexem<V>>, Failure>(lexems@);
        lemma_computes(expr@, number, apply, spans, passed, outcome_of(result));
    }
    result
}

} // verus!
