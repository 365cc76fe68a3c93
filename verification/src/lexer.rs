//! The lexer: a state machine over tokens that absorbs whitespace, resolves
//! leading signs, classifies operators and checks the structure of the stream.

use crate::tokenizer::{spans_of, Span, Token};
use crate::{Error, Failure};
use vstd::prelude::*;
use vstd::string::*;

verus! {

/// A binary operator.
#[derive(Debug, PartialEq, Eq, Clone, Copy, Structural)]
pub enum Operator {
    Add,
    Sub,
    Mul,
    Div,
    Pow,
}

impl Operator {
    /// How tightly the operator binds: a higher rank binds tighter.
    pub open spec fn rank(self) -> nat {
        match self {
            Operator::Add => 0,
            Operator::Sub => 0,
            Operator::Mul => 1,
            Operator::Div => 1,
            Operator::Pow => 2,
        }
    }

    pub fn priority(&self) -> (p: u8)
        ensures
            p == self.rank(),
    {
        match self {
            Operator::Add => 0,
            Operator::Sub => 0,
            Operator::Mul => 1,
            Operator::Div => 1,
            Operator::Pow => 2,
        }
    }
}

/// A lexical item over numbers of type `V`.
#[derive(Debug, PartialEq, Clone, Copy)]
pub enum Lexem<V> {
    Number(V),
    Operator(Operator),
    ParOpen,
    ParClose,
}

pub type LexemStream<V> = Vec<Lexem<V>>;

/// A number as the lexer found it: the text of its token and the sign in front of it.
pub ghost struct Literal {
    pub text: Seq<char>,
    pub negative: bool,
}

/// The literal that stands for a sign in front of a parenthesis: one, with that sign.
pub open spec fn unit(negative: bool) -> Literal {
    Literal { text: seq!['1'], negative }
}

/// Whether an operator run is a sign, and if so whether it is the minus sign.
pub open spec fn sign_of(text: Seq<char>) -> Option<bool> {
    if text.len() == 1 && text[0] == '+' {
        Some(false)
    } else if text.len() == 1 && text[0] == '-' {
        Some(true)
    } else {
        None
    }
}

/// The operator that an operator run spells, if any.
pub open spec fn operator_of(text: Seq<char>) -> Option<Operator> {
    if text.len() == 1 && text[0] == '+' {
        Some(Operator::Add)
    } else if text.len() == 1 && text[0] == '-' {
        Some(Operator::Sub)
    } else if text.len() == 1 && text[0] == '*' {
        Some(Operator::Mul)
    } else if text.len() == 1 && text[0] == '/' {
        Some(Operator::Div)
    } else if text.len() == 2 && text[0] == '*' && text[1] == '*' {
        Some(Operator::Pow)
    } else {
        None
    }
}

/// What the lexer has seen and not yet emitted.
pub ghost enum Pending {
    Initial,
    LeadingSign(bool),
    Number(Seq<char>, bool),
    Operator(Seq<char>),
    ParOpen,
    ParClose,
    End,
}

/// The lexer as a state machine over spans. It emits items whose numbers are
/// still literals; once `error` is set it no longer moves.
pub ghost struct Scanner {
    pub state: Pending,
    pub items: Seq<Lexem<Literal>>,
    /// The parentheses that are open.
    pub depth: nat,
    /// Whether a parenthesis was closed that had not been opened.
    pub unmatched: bool,
    pub error: Option<Failure>,
}

impl Scanner {
    pub open spec fn start() -> Scanner {
        Scanner {
            state: Pending::Initial,
            items: Seq::empty(),
            depth: 0,
            unmatched: false,
            error: None,
        }
    }

    pub open spec fn goto(self, state: Pending) -> Scanner {
        Scanner { state, ..self }
    }

    pub open spec fn emit(self, item: Lexem<Literal>) -> Scanner {
        Scanner { items: self.items.push(item), ..self }
    }

    pub open spec fn fail(self, error: Failure) -> Scanner {
        Scanner { error: Some(error), ..self }
    }

    /// Emits the pending open parenthesis.
    pub open spec fn open(self) -> Scanner {
        Scanner { depth: self.depth + 1, ..self }.emit(Lexem::ParOpen)
    }

    /// Emits the pending close parenthesis.
    pub open spec fn close(self) -> Scanner {
        if self.depth == 0 {
            Scanner { unmatched: true, ..self }.emit(Lexem::ParClose)
        } else {
            Scanner { depth: (self.depth - 1) as nat, ..self }.emit(Lexem::ParClose)
        }
    }

    /// The token opens an operand: a number, a sign or a parenthesis.
    pub open spec fn operand_start(self, token: Span, pos: nat) -> Scanner {
        match token {
            Span::Number(text) => self.goto(Pending::Number(text, false)),
            Span::Operator(text) => match sign_of(text) {
                Some(negative) => self.goto(Pending::LeadingSign(negative)),
                None => self.fail(Failure::LexerError(pos)),
            },
            Span::ParOpen => self.goto(Pending::ParOpen),
            _ => self.fail(Failure::LexerError(pos)),
        }
    }

    /// The token follows a sign: a number takes the sign, a parenthesis is
    /// multiplied by it.
    pub open spec fn after_sign(self, negative: bool, token: Span, pos: nat) -> Scanner {
        match token {
            Span::Number(text) => self.goto(Pending::Number(text, negative)),
            Span::ParOpen => self.emit(Lexem::Number(unit(negative))).emit(
                Lexem::Operator(Operator::Mul),
            ).goto(Pending::ParOpen),
            _ => self.fail(Failure::LexerError(pos)),
        }
    }

    /// The token follows an operator: a number or a parenthesis.
    pub open spec fn after_operator(self, token: Span, pos: nat) -> Scanner {
        match token {
            Span::Number(text) => self.goto(Pending::Number(text, false)),
            Span::ParOpen => self.goto(Pending::ParOpen),
            _ => self.fail(Failure::LexerError(pos)),
        }
    }

    /// The token follows a complete operand: an operator, a close parenthesis or the end.
    pub open spec fn operand_end(self, token: Span, pos: nat) -> Scanner {
        match token {
            Span::Operator(text) => self.goto(Pending::Operator(text)),
            Span::ParClose => self.goto(Pending::ParClose),
            Span::End => self.goto(Pending::End),
            _ => self.fail(Failure::LexerError(pos)),
        }
    }

    /// One step of the machine: the token at index `pos` arrives.
    pub open spec fn advance(self, token: Span, pos: nat) -> Scanner {
        match self.state {
            Pending::Initial => if token is Whitespace {
                self
            } else {
                self.operand_start(token, pos)
            },
            Pending::LeadingSign(negative) => self.after_sign(negative, token, pos),
            Pending::Number(text, negative) => if token is Whitespace {
                self
            } else {
                self.emit(Lexem::Number(Literal { text, negative })).operand_end(token, pos)
            },
            Pending::Operator(text) => if token is Whitespace {
                self
            } else {
                match operator_of(text) {
                    Some(op) => self.emit(Lexem::Operator(op)).after_operator(token, pos),
                    None => self.fail(Failure::ParseOperatorError(text)),
                }
            },
            Pending::ParOpen => if token is Whitespace {
                self
            } else {
                self.open().operand_start(token, pos)
            },
            Pending::ParClose => if token is Whitespace {
                self
            } else {
                self.close().operand_end(token, pos)
            },
            Pending::End => self.fail(Failure::LexerError(pos)),
        }
    }
}

/// The machine after the first `n` tokens.
pub open spec fn scan(tokens: Seq<Span>, n: int) -> Scanner
    decreases n,
{
    if n <= 0 || n > tokens.len() {
        Scanner::start()
    } else {
        let before = scan(tokens, n - 1);
        if before.error is Some {
            before
        } else {
            before.advance(tokens[n - 1], (n - 1) as nat)
        }
    }
}

/// The items that the machine emits on the whole stream, up to its first error.
pub open spec fn scanned(tokens: Seq<Span>) -> Seq<Lexem<Literal>> {
    scan(tokens, tokens.len() as int).items
}

/// The structural error of the stream, if it has one: the error on which the
/// machine stopped, or the stream's length where the stream does not end
/// after a complete operand with every parenthesis matched.
pub open spec fn verdict(tokens: Seq<Span>) -> Option<Failure> {
    let last = scan(tokens, tokens.len() as int);
    if last.error is Some {
        last.error
    } else if !(last.state is End) || last.depth != 0 || last.unmatched {
        Some(Failure::LexerError(tokens.len()))
    } else {
        None
    }
}

/// `out` is a possible answer of `number` for the literal.
pub open spec fn yields<V, N: Fn(&str, bool) -> Option<V>>(
    number: N,
    literal: Literal,
    out: Option<V>,
) -> bool {
    exists|text: &str| text@ == literal.text && number.ensures((text, literal.negative), out)
}

/// `number` can read the literal.
pub open spec fn accepts<V, N: Fn(&str, bool) -> Option<V>>(number: N, literal: Literal) -> bool {
    exists|v: V| yields(number, literal, Some(v))
}

/// `item` is what `found` becomes once `number` has read its literal.
pub open spec fn reads<V, N: Fn(&str, bool) -> Option<V>>(
    number: N,
    found: Lexem<Literal>,
    item: Lexem<V>,
) -> bool {
    match found {
        Lexem::Number(literal) => item matches Lexem::Number(v) && yields(
            number,
            literal,
            Some(v),
        ),
        Lexem::Operator(op) => item == Lexem::<V>::Operator(op),
        Lexem::ParOpen => item is ParOpen,
        Lexem::ParClose => item is ParClose,
    }
}

/// `number` can read every number among the first `n` of `found`.
pub open spec fn accepts_first<V, N: Fn(&str, bool) -> Option<V>>(
    number: N,
    found: Seq<Lexem<Literal>>,
    n: int,
) -> bool {
    forall|j: int|
        0 <= j < n && j < found.len() ==> match #[trigger] found[j] {
            Lexem::Number(literal) => accepts(number, literal),
            _ => true,
        }
}

/// `number` may refuse the number at index `k` of `found`.
pub open spec fn refuses_at<V, N: Fn(&str, bool) -> Option<V>>(
    number: N,
    found: Seq<Lexem<Literal>>,
    k: int,
) -> bool {
    0 <= k < found.len() && match found[k] {
        Lexem::Number(literal) => yields(number, literal, None::<V>),
        _ => false,
    }
}

/// What lexing a stream may give when numbers are read by `number`.
///
/// The numbers are read in the order in which the machine emits them. The
/// first one that `number` refuses ends the run with `ParseNumberError`; a
/// structural error is reported only when every number emitted before it
/// was read; and the run succeeds, with each literal replaced by what was
/// read, when there is no structural error either.
pub open spec fn lexes<V, N: Fn(&str, bool) -> Option<V>>(
    number: N,
    tokens: Seq<Span>,
    outcome: Result<Seq<Lexem<V>>, Failure>,
) -> bool {
    let found = scanned(tokens);
    match outcome {
        Ok(items) => {
            &&& verdict(tokens) is None
            &&& items.len() == found.len()
            &&& forall|i: int| 0 <= i < found.len() ==> reads(number, found[i], #[trigger] items[i])
        },
        Err(Failure::ParseNumberError) => exists|k: int|
            #[trigger] refuses_at(number, found, k) && accepts_first(number, found, k),
        Err(error) => verdict(tokens) == Some(error) && accepts_first(
            number,
            found,
            found.len() as int,
        ),
    }
}

/// The mathematical content of what [`parse`] returns.
pub open spec fn lexed<V>(result: Result<Vec<Lexem<V>>, Error>) -> Result<Seq<Lexem<V>>, Failure> {
    match result {
        Ok(items) => Ok(items@),
        Err(error) => Err(error@),
    }
}

/// Once the machine has stopped on an error it stays as it is.
pub proof fn lemma_scan_stops(tokens: Seq<Span>, n: int, m: int)
    requires
        0 <= n <= m <= tokens.len(),
        scan(tokens, n).error is Some,
    ensures
        scan(tokens, m) == scan(tokens, n),
    decreases m - n,
{
    if n < m {
        lemma_scan_stops(tokens, n, m - 1);
    }
}

/// A step of the machine only ever appends to what was emitted.
pub proof fn lemma_advance_extends(before: Scanner, token: Span, pos: nat)
    ensures
        before.items.is_prefix_of(before.advance(token, pos).items),
{
}

/// What was emitted after `n` tokens is still there after `m`.
pub proof fn lemma_scan_extends(tokens: Seq<Span>, n: int, m: int)
    requires
        0 <= n <= m <= tokens.len(),
    ensures
        scan(tokens, n).items.is_prefix_of(scan(tokens, m).items),
    decreases m - n,
{
    if n < m {
        lemma_scan_extends(tokens, n, m - 1);
        let before = scan(tokens, m - 1);
        if before.error is None {
            lemma_advance_extends(before, tokens[m - 1], (m - 1) as nat);
        }
    }
}

enum LexerState<'a> {
    Initial,
    LeadingSign(bool),
    Number { val: &'a str, negative: bool },
    Operator(&'a str),
    ParOpen,
    ParClose,
    End,
}

impl<'a> LexerState<'a> {
    spec fn pending(&self) -> Pending {
        match *self {
            LexerState::Initial => Pending::Initial,
            LexerState::LeadingSign(negative) => Pending::LeadingSign(negative),
            LexerState::Number { val, negative } => Pending::Number(val@, negative),
            LexerState::Operator(op) => Pending::Operator(op@),
            LexerState::ParOpen => Pending::ParOpen,
            LexerState::ParClose => Pending::ParClose,
            LexerState::End => Pending::End,
        }
    }
}

fn read_sign(op: &str) -> (sign: Option<bool>)
    ensures
        sign == sign_of(op@),
{
    if op.unicode_len() != 1 {
        return None;
    }
    let ch = op.get_char(0);
    if ch == '+' {
        Some(false)
    } else if ch == '-' {
        Some(true)
    } else {
        None
    }
}

fn read_operator(op: &str) -> (operator: Option<Operator>)
    ensures
        operator == operator_of(op@),
{
    let len = op.unicode_len();
    if len == 1 {
        let ch = op.get_char(0);
        if ch == '+' {
            Some(Operator::Add)
        } else if ch == '-' {
            Some(Operator::Sub)
        } else if ch == '*' {
            Some(Operator::Mul)
        } else if ch == '/' {
            Some(Operator::Div)
        } else {
            None
        }
    } else if len == 2 && op.get_char(0) == '*' && op.get_char(1) == '*' {
        Some(Operator::Pow)
    } else {
        None
    }
}

/// Turns a token stream into lexical items. `number` reads a number from the
/// text of its token and gives it the sign that stood in front of it; it
/// answers `None` where the text is no number.
pub fn parse<'a, V, N>(tokens: &Vec<Token<'a>>, number: N) -> (result: Result<Vec<Lexem<V>>, Error>)
    where N: Fn(&str, bool) -> Option<V>
    requires
        forall|text: &str, negative: bool| number.requires((text, negative)),
    ensures
        lexes(number, spans_of(tokens@), lexed(result)),
{
    let mut lexems: Vec<Lexem<V>> = Vec::new();
    let mut state = LexerState::Initial;
    let mut pars: usize = 0;
    let mut unmatched = false;
    let ghost spans = spans_of(tokens@);
    let mut pos: usize = 0;

    while pos < tokens.len()
        invariant
            pos <= tokens.len(),
            spans == spans_of(tokens@),
            forall|text: &str, negative: bool| number.requires((text, negative)),
            scan(spans, pos as int).error is None,
            scan(spans, pos as int).state == state.pending(),
            scan(spans, pos as int).depth == pars,
            scan(spans, pos as int).unmatched == unmatched,
            scan(spans, pos as int).items.len() == lexems.len(),
            pars <= pos,
            forall|i: int|
                0 <= i < lexems.len() ==> reads(
                    number,
                    scan(spans, pos as int).items[i],
                    #[trigger] lexems[i],
                ),
        decreases tokens.len() - pos,
    {
        let token = &tokens[pos];
        let ghost before = scan(spans, pos as int);
        let ghost after = before.advance(spans[pos as int], pos as nat);
        proof {
            assert(spans[pos as int] == token@);
            assert(scan(spans, pos + 1) == after);
            lemma_scan_extends(spans, pos + 1, spans.len() as int);
            if after.error is Some {
                lemma_scan_stops(spans, pos + 1, spans.len() as int);
            }
        }
        let whitespace = match token {
            Token::Whitespace(_) => true,
            _ => false,
        };
        state = match state {
            LexerState::Initial => match token {
                Token::Whitespace(_) => LexerState::Initial,
                Token::Number(val) => LexerState::Number { val: *val, negative: false },
                Token::Operator(op) => match read_sign(*op) {
                    Some(negative) => LexerState::LeadingSign(negative),
                    None => {
                        proof {
                            lemma_all_accepted(number, spans, lexems@, pos + 1);
                        }
                        return Err(Error::LexerError(pos));
                    },
                },
                Token::ParOpen => LexerState::ParOpen,
                _ => {
                    proof {
                        lemma_all_accepted(number, spans, lexems@, pos + 1);
                    }
                    return Err(Error::LexerError(pos));
                },
            },
            LexerState::LeadingSign(negative) => match token {
                Token::Number(val) => LexerState::Number { val: *val, negative },
                Token::ParOpen => {
                    proof {
                        reveal_strlit("1");
                        assert("1"@ =~= unit(negative).text);
                    }
                    match number("1", negative) {
                        Some(sign) => lexems.push(Lexem::Number(sign)),
                        None => {
                            proof {
                                assert(yields(number, unit(negative), None::<V>));
                                lemma_first_refused(number, spans, lexems@, pos + 1);
                            }
                            return Err(Error::ParseNumberError);
                        },
                    }
                    lexems.push(Lexem::Operator(Operator::Mul));
                    LexerState::ParOpen
                },
                _ => {
                    proof {
                        lemma_all_accepted(number, spans, lexems@, pos + 1);
                    }
                    return Err(Error::LexerError(pos));
                },
            },
            LexerState::Number { val, negative } => if whitespace {
                LexerState::Number { val, negative }
            } else {
                match number(val, negative) {
                    Some(num) => lexems.push(Lexem::Number(num)),
                    None => {
                        proof {
                            assert(yields(number, Literal { text: val@, negative }, None::<V>));
                            lemma_first_refused(number, spans, lexems@, pos + 1);
                        }
                        return Err(Error::ParseNumberError);
                    },
                }
                match token {
                    Token::Operator(op) => LexerState::Operator(*op),
                    Token::ParClose => LexerState::ParClose,
                    Token::End => LexerState::End,
                    _ => {
                        proof {
                            lemma_all_accepted(number, spans, lexems@, pos + 1);
                        }
                        return Err(Error::LexerError(pos));
                    },
                }
            },
            LexerState::Operator(op) => if whitespace {
                LexerState::Operator(op)
            } else {
                match read_operator(op) {
                    Some(operator) => lexems.push(Lexem::Operator(operator)),
                    None => {
                        proof {
                            lemma_all_accepted(number, spans, lexems@, pos + 1);
                        }
                        return Err(Error::ParseOperatorError(op.to_owned()));
                    },
                }
                match token {
                    Token::Number(val) => LexerState::Number { val: *val, negative: false },
                    Token::ParOpen => LexerState::ParOpen,
                    _ => {
                        proof {
                            lemma_all_accepted(number, spans, lexems@, pos + 1);
                        }
                        return Err(Error::LexerError(pos));
                    },
                }
            },
            LexerState::ParOpen => if whitespace {
                LexerState::ParOpen
            } else {
                pars += 1;
                lexems.push(Lexem::ParOpen);
                match token {
                    Token::Operator(op) => match read_sign(*op) {
                        Some(negative) => LexerState::LeadingSign(negative),
                        None => {
                            proof {
                                lemma_all_accepted(number, spans, lexems@, pos + 1);
                            }
                            return Err(Error::LexerError(pos));
                        },
                    },
                    Token::Number(val) => LexerState::Number { val: *val, negative: false },
                    Token::ParOpen => LexerState::ParOpen,
                    _ => {
                        proof {
                            lemma_all_accepted(number, spans, lexems@, pos + 1);
                        }
                        return Err(Error::LexerError(pos));
                    },
                }
            },
            LexerState::ParClose => if whitespace {
                LexerState::ParClose
            } else {
                if pars == 0 {
                    unmatched = true;
                } else {
                    pars -= 1;
                }
                lexems.push(Lexem::ParClose);
                match token {
                    Token::Operator(op) => LexerState::Operator(*op),
                    Token::ParClose => LexerState::ParClose,
                    Token::End => LexerState::End,
                    _ => {
                        proof {
                            lemma_all_accepted(number, spans, lexems@, pos + 1);
                        }
                        return Err(Error::LexerError(pos));
                    },
                }
            },
            LexerState::End => {
                proof {
                    lemma_all_accepted(number, spans, lexems@, pos + 1);
                }
                return Err(Error::LexerError(pos));
            },
        };
        pos += 1;
    }

    let finished = match state {
        LexerState::End => true,
        _ => false,
    };
    if !finished || pars != 0 || unmatched {
        proof {
            lemma_all_accepted(number, spans, lexems@, spans.len() as int);
        }
        Err(Error::LexerError(tokens.len()))
    } else {
        Ok(lexems)
    }
}

/// Every number that has given an item is a number that `number` can read.
proof fn lemma_all_accepted<V, N: Fn(&str, bool) -> Option<V>>(
    number: N,
    tokens: Seq<Span>,
    items: Seq<Lexem<V>>,
    n: int,
)
    requires
        0 <= n <= tokens.len(),
        scan(tokens, n).items == scanned(tokens),
        items.len() == scanned(tokens).len(),
        forall|i: int|
            0 <= i < items.len() ==> reads(number, scanned(tokens)[i], #[trigger] items[i]),
    ensures
        accepts_first(number, scanned(tokens), scanned(tokens).len() as int),
{
    let found = scanned(tokens);
    assert forall|j: int| 0 <= j < found.len() implies match #[trigger] found[j] {
        Lexem::Number(literal) => accepts(number, literal),
        _ => true,
    } by {
        assert(reads(number, found[j], items[j]));
    }
}

/// The number that was refused is the first that `number` could not read.
proof fn lemma_first_refused<V, N: Fn(&str, bool) -> Option<V>>(
    number: N,
    tokens: Seq<Span>,
    items: Seq<Lexem<V>>,
    n: int,
)
    requires
        0 <= n <= tokens.len(),
        scan(tokens, n).items.is_prefix_of(scanned(tokens)),
        items.len() < scan(tokens, n).items.len(),
        forall|i: int|
            0 <= i < items.len() ==> reads(number, scan(tokens, n).items[i], #[trigger] items[i]),
        refuses_at(number, scan(tokens, n).items, items.len() as int),
    ensures
        lexes(number, tokens, Err::<Seq<Lexem<V>>, Failure>(Failure::ParseNumberError)),
{
    let found = scanned(tokens);
    let k = items.len() as int;
    assert(found[k] == scan(tokens, n).items[k]);
    assert forall|j: int| 0 <= j < k && j < found.len() implies match #[trigger] found[j] {
        Lexem::Number(literal) => accepts(number, literal),
        _ => true,
    } by {
        assert(found[j] == scan(tokens, n).items[j]);
        assert(reads(number, found[j], items[j]));
    }
    assert(refuses_at(number, found, k) && accepts_first(number, found, k));
}

} // verus!
