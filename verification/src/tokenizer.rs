//! The tokenizer: groups the characters of the input into coarse tokens.

use crate::{Error, Failure};
use vstd::prelude::*;
use vstd::string::*;

verus! {

/// A classified span of the input text.
#[derive(Debug, PartialEq)]
pub enum Token<'a> {
    /// A run of digits and decimal points.
    Number(&'a str),
    /// A run of the characters `+ - * /`.
    Operator(&'a str),
    /// A run of whitespace.
    Whitespace(&'a str),
    ParOpen,
    ParClose,
    /// The end of the stream; always the last token.
    End,
}

pub type TokenStream<'a> = Vec<Token<'a>>;

/// The mathematical content of a [`Token`]: its kind and the characters it spans.
pub ghost enum Span {
    Number(Seq<char>),
    Operator(Seq<char>),
    Whitespace(Seq<char>),
    ParOpen,
    ParClose,
    End,
}

impl<'a> View for Token<'a> {
    type V = Span;

    open spec fn view(&self) -> Span {
        match *self {
            Token::Number(text) => Span::Number(text@),
            Token::Operator(text) => Span::Operator(text@),
            Token::Whitespace(text) => Span::Whitespace(text@),
            Token::ParOpen => Span::ParOpen,
            Token::ParClose => Span::ParClose,
            Token::End => Span::End,
        }
    }
}

/// The spans of a token stream, in order.
pub open spec fn spans_of<'a>(tokens: Seq<Token<'a>>) -> Seq<Span> {
    Seq::new(tokens.len(), |i: int| tokens[i]@)
}

/// The kinds of character that a token can be made of.
#[derive(Debug, PartialEq, Eq, Clone, Copy, Structural)]
pub enum Class {
    Number,
    Whitespace,
    Operator,
    ParOpen,
    ParClose,
}

/// Whether `char::is_whitespace` holds of the character.
pub uninterp spec fn whitespace(ch: char) -> bool;

/// `char::is_whitespace` of the standard library: whether the character has
/// the Unicode property `White_Space`. The answer depends on the character
/// alone and is named [`whitespace`]; nothing else is claimed of it.
pub assume_specification[ char::is_whitespace ](ch: char) -> (answer: bool)
    ensures
        answer == whitespace(ch),
;

pub open spec fn is_digit(ch: char) -> bool {
    '0' <= ch && ch <= '9'
}

/// The kind of a character of which it is known whether it is whitespace,
/// or `None` for a character that no token can hold. Whitespace counts
/// last, so that the kind of a digit, an operator or a parenthesis does not
/// rest on it.
pub open spec fn class_with(ch: char, whitespace: bool) -> Option<Class> {
    if is_digit(ch) || ch == '.' {
        Some(Class::Number)
    } else if ch == '+' || ch == '-' || ch == '*' || ch == '/' {
        Some(Class::Operator)
    } else if ch == '(' {
        Some(Class::ParOpen)
    } else if ch == ')' {
        Some(Class::ParClose)
    } else if whitespace {
        Some(Class::Whitespace)
    } else {
        None
    }
}

/// The kind of a character, or `None` for a character that no token can hold.
pub open spec fn class_of(ch: char) -> Option<Class> {
    class_with(ch, whitespace(ch))
}

/// Classifies a character, given whether it is whitespace.
pub fn classify(ch: char, whitespace: bool) -> (class: Option<Class>)
    ensures
        class == class_with(ch, whitespace),
{
    if (ch >= '0' && ch <= '9') || ch == '.' {
        Some(Class::Number)
    } else if ch == '+' || ch == '-' || ch == '*' || ch == '/' {
        Some(Class::Operator)
    } else if ch == '(' {
        Some(Class::ParOpen)
    } else if ch == ')' {
        Some(Class::ParClose)
    } else if whitespace {
        Some(Class::Whitespace)
    } else {
        None
    }
}

/// The index of the first character at or after `from` that no token can hold.
pub open spec fn first_invalid(text: Seq<char>, from: int) -> Option<int>
    decreases text.len() - from,
{
    if from < 0 || from >= text.len() {
        None
    } else if class_of(text[from]) is None {
        Some(from)
    } else {
        first_invalid(text, from + 1)
    }
}

/// How many characters of kind `class` stand in a row from index `from` on.
pub open spec fn run_len(text: Seq<char>, class: Class, from: int) -> nat
    decreases text.len() - from,
{
    if 0 <= from < text.len() && class_of(text[from]) == Some(class) {
        1 + run_len(text, class, from + 1)
    } else {
        0
    }
}

/// How many characters the token that starts at `start` takes with it: a
/// parenthesis stands alone, any other character takes all that follow of
/// its kind.
pub open spec fn run_after(text: Seq<char>, start: int) -> nat {
    match class_of(text[start]) {
        Some(Class::Number) => run_len(text, Class::Number, start + 1),
        Some(Class::Whitespace) => run_len(text, Class::Whitespace, start + 1),
        Some(Class::Operator) => run_len(text, Class::Operator, start + 1),
        _ => 0,
    }
}

/// The span of kind `class` over the characters `chars`.
pub open spec fn span_of(class: Class, chars: Seq<char>) -> Span {
    match class {
        Class::Number => Span::Number(chars),
        Class::Whitespace => Span::Whitespace(chars),
        Class::Operator => Span::Operator(chars),
        Class::ParOpen => Span::ParOpen,
        Class::ParClose => Span::ParClose,
    }
}

/// The tokens of the text from index `start` on, with the end marker.
pub open spec fn spans_from(text: Seq<char>, start: int) -> Seq<Span>
    decreases text.len() - start,
    via spans_from_terminates
{
    if start < 0 || start >= text.len() {
        seq![Span::End]
    } else {
        match class_of(text[start]) {
            Some(class) => {
                let end = start + 1 + run_after(text, start);
                seq![span_of(class, text.subrange(start, end))] + spans_from(text, end)
            },
            None => seq![Span::End],
        }
    }
}

#[via_fn]
proof fn spans_from_terminates(text: Seq<char>, start: int) {
    if 0 <= start < text.len() {
        lemma_run_within(text, Class::Number, start + 1);
        lemma_run_within(text, Class::Whitespace, start + 1);
        lemma_run_within(text, Class::Operator, start + 1);
    }
}

/// A run ends within the text.
pub proof fn lemma_run_within(text: Seq<char>, class: Class, from: int)
    requires
        0 <= from <= text.len(),
    ensures
        from + run_len(text, class, from) <= text.len(),
    decreases text.len() - from,
{
    if from < text.len() && class_of(text[from]) == Some(class) {
        lemma_run_within(text, class, from + 1);
    }
}

/// The tokens of a text: an error at the first character that no token can
/// hold, else the maximal runs of the text in order, then the end marker.
pub open spec fn tokens_of(text: Seq<char>) -> Result<Seq<Span>, Failure> {
    match first_invalid(text, 0) {
        Some(pos) => Err(Failure::TokenizerError(pos as nat, text[pos])),
        None => Ok(spans_from(text, 0)),
    }
}

/// The mathematical content of what [`tokenize`] returns.
pub open spec fn tokenized<'a>(result: Result<Vec<Token<'a>>, Error>) -> Result<
    Seq<Span>,
    Failure,
> {
    match result {
        Ok(tokens) => Ok(spans_of(tokens@)),
        Err(error) => Err(error@),
    }
}

/// A stretch of characters of one kind, closed by the end of the text or by
/// a character of another kind, is a whole run.
pub proof fn lemma_run_len(text: Seq<char>, class: Class, from: int, to: int)
    requires
        0 <= from <= to <= text.len(),
        forall|j: int| from <= j < to ==> class_of(#[trigger] text[j]) == Some(class),
        to == text.len() || class_of(text[to]) != Some(class),
    ensures
        run_len(text, class, from) == to - from,
    decreases to - from,
{
    if from < to {
        lemma_run_len(text, class, from + 1, to);
    }
}

/// Every character from `from` on can stand in a token.
pub open spec fn valid_from(text: Seq<char>, from: int) -> bool {
    forall|i: int| from <= i < text.len() ==> class_of(#[trigger] text[i]) is Some
}

/// A text has no first invalid character exactly if all its characters are valid.
pub proof fn lemma_first_invalid(text: Seq<char>, from: int)
    requires
        0 <= from <= text.len(),
    ensures
        first_invalid(text, from) is None <==> valid_from(text, from),
    decreases text.len() - from,
{
    if from < text.len() {
        lemma_first_invalid(text, from + 1);
        if class_of(text[from]) is Some && valid_from(text, from + 1) {
            assert forall|i: int| from <= i < text.len() implies class_of(
                #[trigger] text[i],
            ) is Some by {}
        }
    }
}

#[derive(PartialEq, Eq, Structural, Clone, Copy)]
enum TokenizerState {
    Initial,
    ParseNumber,
    ParseOperator,
    ParseWhitespace,
    ParOpen(usize),
    ParClose(usize),
}

impl TokenizerState {
    spec fn class(self) -> Option<Class> {
        match self {
            TokenizerState::Initial => None,
            TokenizerState::ParseNumber => Some(Class::Number),
            TokenizerState::ParseOperator => Some(Class::Operator),
            TokenizerState::ParseWhitespace => Some(Class::Whitespace),
            TokenizerState::ParOpen(_) => Some(Class::ParOpen),
            TokenizerState::ParClose(_) => Some(Class::ParClose),
        }
    }

    /// A parenthesis remembers where it stands, so that two in a row are two tokens.
    spec fn anchored(self, start: int, pos: int) -> bool {
        match self {
            TokenizerState::Initial => start == 0 && pos == 0,
            TokenizerState::ParOpen(at) => at == start && pos == start + 1,
            TokenizerState::ParClose(at) => at == start && pos == start + 1,
            _ => start < pos,
        }
    }
}

/// Cuts the text into tokens. Positions count characters, not bytes.
pub fn tokenize<'a>(input: &'a str) -> (result: Result<Vec<Token<'a>>, Error>)
    ensures
        tokenized(result) == tokens_of(input@),
{
    let mut tokens: Vec<Token<'a>> = Vec::new();
    let mut state = TokenizerState::Initial;
    let mut token_start: usize = 0;
    let len = input.unicode_len();
    let mut pos: usize = 0;

    while pos < len
        invariant
            len == input@.len(),
            token_start <= pos <= len,
            first_invalid(input@, 0) == first_invalid(input@, pos as int),
            spans_from(input@, 0) == spans_of(tokens@) + spans_from(input@, token_start as int),
            state.anchored(token_start as int, pos as int),
            forall|j: int|
                token_start <= j < pos ==> class_of(#[trigger] input@[j]) == state.class(),
        decreases len - pos,
    {
        let ch = input.get_char(pos);
        let next_state = match classify(ch, ch.is_whitespace()) {
            Some(Class::Number) => TokenizerState::ParseNumber,
            Some(Class::Whitespace) => TokenizerState::ParseWhitespace,
            Some(Class::Operator) => TokenizerState::ParseOperator,
            Some(Class::ParOpen) => TokenizerState::ParOpen(pos),
            Some(Class::ParClose) => TokenizerState::ParClose(pos),
            None => {
                return Err(Error::TokenizerError(pos, ch));
            },
        };

        if next_state != state {
            proof {
                lemma_token_ends(input@, state, token_start as int, pos as int);
            }
            if let Some(token) = yield_token(state, input, token_start, pos) {
                proof {
                    lemma_spans_push(tokens@, token);
                }
                tokens.push(token);
            }
            token_start = pos;
            state = next_state;
        }
        pos += 1;
    }

    proof {
        lemma_token_ends(input@, state, token_start as int, pos as int);
    }
    if let Some(token) = yield_token(state, input, token_start, len) {
        proof {
            lemma_spans_push(tokens@, token);
        }
        tokens.push(token);
    }
    proof {
        lemma_spans_push(tokens@, Token::End);
    }
    tokens.push(Token::End);
    assert(spans_of(tokens@) =~= spans_from(input@, 0));
    Ok(tokens)
}

/// The token that a finished run gives; nothing where no run was begun.
fn yield_token<'a>(
    current_state: TokenizerState,
    input: &'a str,
    start: usize,
    end: usize,
) -> (token: Option<Token<'a>>)
    requires
        start <= end <= input@.len(),
    ensures
        match current_state.class() {
            Some(class) => token matches Some(found) && found@ == span_of(
                class,
                input@.subrange(start as int, end as int),
            ),
            None => token is None,
        },
{
    match current_state {
        TokenizerState::Initial => None,
        TokenizerState::ParseNumber => Some(Token::Number(input.substring_char(start, end))),
        TokenizerState::ParseOperator => Some(Token::Operator(input.substring_char(start, end))),
        TokenizerState::ParseWhitespace => Some(
            Token::Whitespace(input.substring_char(start, end)),
        ),
        TokenizerState::ParOpen(_) => Some(Token::ParOpen),
        TokenizerState::ParClose(_) => Some(Token::ParClose),
    }
}

/// Where the kind changes, or the text ends, the token that began at `start` ends.
proof fn lemma_token_ends(text: Seq<char>, state: TokenizerState, start: int, pos: int)
    requires
        0 <= start <= pos <= text.len(),
        state.anchored(start, pos),
        forall|j: int| start <= j < pos ==> class_of(#[trigger] text[j]) == state.class(),
        pos == text.len() || class_of(text[pos]) != state.class() || state.class() == Some(
            Class::ParOpen,
        ) || state.class() == Some(Class::ParClose),
    ensures
        match state.class() {
            Some(class) => spans_from(text, start) == seq![
                span_of(class, text.subrange(start, pos)),
            ] + spans_from(text, pos),
            None => start == pos,
        },
{
    match state.class() {
        Some(Class::ParOpen) | Some(Class::ParClose) | None => {},
        Some(class) => {
            lemma_run_len(text, class, start + 1, pos);
        },
    }
}

/// The spans of a stream with one more token.
proof fn lemma_spans_push<'a>(tokens: Seq<Token<'a>>, token: Token<'a>)
    ensures
        spans_of(tokens.push(token)) == spans_of(tokens).push(token@),
{
    assert(spans_of(tokens.push(token)) =~= spans_of(tokens).push(token@));
}

} // verus!
