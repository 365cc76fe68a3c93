//! What holds of the calculator as a whole.

use crate::evaluator::{denotes, evaluates, meaning, reduction, Expr};
use crate::grammar::{postfix_of, reading, well_formed};
use crate::lexer::{
    accepts, accepts_first, lexes, reads, refuses_at, scan, scanned, verdict, yields, Lexem,
    Literal, Operator, Pending, Scanner,
};
use crate::parentheses::{
    lemma_follows_in_parentheses, lemma_tokens_in_parentheses, text_in_parentheses,
};
use crate::postfix::{shunt, to_postfix};
use crate::soundness::{lemma_meaning, lemma_to_postfix};
use crate::structure::{
    alike, lemma_alike_well_formed, lemma_reads_parenthesized, lemma_reads_well_formed,
    lemma_scanned_well_formed, parenthesized,
};
use crate::tokenizer::{
    class_of, is_digit, lemma_first_invalid, lemma_run_len, spans_from, tokens_of, Class, Span,
};
use crate::{computes, finishes, follows, Failure};
use vstd::prelude::*;

verus! {

/// A text of digits and decimal points, and at least one of them.
pub open spec fn numeral(text: Seq<char>) -> bool {
    &&& text.len() > 0
    &&& forall|i: int| 0 <= i < text.len() ==> is_digit(#[trigger] text[i]) || text[i] == '.'
}

/// A numeral is one number token.
pub proof fn lemma_numeral_tokens(text: Seq<char>)
    requires
        numeral(text),
    ensures
        tokens_of(text) == Ok::<Seq<Span>, Failure>(seq![Span::Number(text), Span::End]),
{
    let len = text.len() as int;
    assert forall|i: int| 0 <= i < len implies class_of(#[trigger] text[i]) == Some(
        Class::Number,
    ) by {}
    lemma_first_invalid(text, 0);
    lemma_run_len(text, Class::Number, 1, len);
    assert(text.subrange(0, len) =~= text);
    assert(spans_from(text, len) == seq![Span::End]);
    assert(spans_from(text, 0) =~= seq![Span::Number(text), Span::End]);
}

/// One number token lexes to one number.
pub proof fn lemma_numeral_scan(text: Seq<char>)
    ensures
        verdict(seq![Span::Number(text), Span::End]) is None,
        scanned(seq![Span::Number(text), Span::End]) == seq![
            Lexem::Number(Literal { text, negative: false }),
        ],
{
    let tokens = seq![Span::Number(text), Span::End];
    reveal_with_fuel(scan, 3);
    assert(scan(tokens, 1) == Scanner::start().goto(Pending::Number(text, false)));
    assert(scan(tokens, 2).items =~= seq![Lexem::Number(Literal { text, negative: false })]);
}

/// One number is its own postfix form and means itself.
pub proof fn lemma_single<V>(value: V)
    ensures
        to_postfix(seq![Lexem::Number(value)]) == seq![Lexem::Number(value)],
        meaning(seq![Lexem::Number(value)]) == Some(Expr::Value(value)),
{
    let items = seq![Lexem::Number(value)];
    reveal_with_fuel(shunt, 2);
    reveal_with_fuel(reduction, 2);
    assert(shunt(items, 1).output =~= items);
    assert(shunt(items, 1).stack.reverse() =~= Seq::empty());
    assert(to_postfix(items) =~= items);
    assert(reduction(items, 1)->0 =~= seq![Expr::Value(value)]);
}

/// A numeral evaluates to the number that `number` reads from it, and to
/// nothing else: to a value exactly where `number` may give that value for
/// the text, and to `ParseNumberError` exactly where `number` may refuse it.
pub proof fn law_numeral_evaluates_to_itself<
    V,
    N: Fn(&str, bool) -> Option<V>,
    A: Fn(Operator, V, V) -> V,
>(text: Seq<char>, number: N, apply: A, outcome: Result<V, Failure>)
    requires
        numeral(text),
    ensures
        computes(text, number, apply, outcome) <==> match outcome {
            Ok(value) => yields(number, Literal { text, negative: false }, Some(value)),
            Err(error) => error == Failure::ParseNumberError && yields(
                number,
                Literal { text, negative: false },
                None::<V>,
            ),
        },
{
    let literal = Literal { text, negative: false };
    let tokens = seq![Span::Number(text), Span::End];
    let found = seq![Lexem::Number(literal)];
    lemma_numeral_tokens(text);
    lemma_numeral_scan(text);
    assert(found[0] == Lexem::Number(literal));
    if computes(text, number, apply, outcome) {
        assert(follows(tokens, number, apply, outcome));
        let lexed = choose|lexed: Result<Seq<Lexem<V>>, Failure>|
            #[trigger] lexes(number, tokens, lexed) && finishes(apply, lexed, outcome);
        match lexed {
            Ok(items) => {
                assert(reads(number, found[0], items[0]));
                let value = items[0]->Number_0;
                assert(items =~= seq![Lexem::Number(value)]);
                lemma_single(value);
            },
            Err(error) => {
                if error == Failure::ParseNumberError {
                    let k = choose|k: int|
                        #[trigger] refuses_at(number, found, k) && accepts_first(number, found, k);
                    assert(k == 0);
                }
            },
        }
    }
    match outcome {
        Ok(value) => {
            if yields(number, literal, Some(value)) {
                let items = seq![Lexem::Number(value)];
                let lexed = Ok::<Seq<Lexem<V>>, Failure>(items);
                lemma_single(value);
                assert(reads(number, found[0], items[0]));
                assert(lexes(number, tokens, lexed));
                assert(denotes(apply, Expr::Value(value), value));
                assert(finishes(apply, lexed, outcome));
                assert(follows(tokens, number, apply, outcome));
            }
        },
        Err(error) => {
            if error == Failure::ParseNumberError && yields(number, literal, None::<V>) {
                let lexed = Err::<Seq<Lexem<V>>, Failure>(Failure::ParseNumberError);
                assert(refuses_at(number, found, 0) && accepts_first(number, found, 0));
                assert(lexes(number, tokens, lexed));
                assert(finishes(apply, lexed, outcome));
                assert(follows(tokens, number, apply, outcome));
            }
        },
    }
}

/// Parentheses around an expression change nothing: the sequence in
/// parentheses is read as the same expression and has the same postfix
/// form, so that it evaluates to the same.
pub proof fn law_parentheses_are_transparent<V, A: Fn(Operator, V, V) -> V>(
    items: Seq<Lexem<V>>,
    apply: A,
    outcome: Result<V, Failure>,
)
    requires
        reading(items) is Some,
    ensures
        reading(parenthesized(items)) == reading(items),
        to_postfix(parenthesized(items)) == to_postfix(items),
        evaluates(apply, to_postfix(parenthesized(items)), outcome) == evaluates(
            apply,
            to_postfix(items),
            outcome,
        ),
{
    lemma_reads_parenthesized(items);
    lemma_to_postfix(items);
    lemma_to_postfix(parenthesized(items));
}

/// Parentheses around a text that is an expression change nothing: the
/// text in parentheses evaluates to what the text evaluates to.
pub proof fn law_text_in_parentheses<
    V,
    N: Fn(&str, bool) -> Option<V>,
    A: Fn(Operator, V, V) -> V,
>(text: Seq<char>, number: N, apply: A, outcome: Result<V, Failure>)
    requires
        tokens_of(text) matches Ok(tokens) && verdict(tokens) is None,
    ensures
        computes(text_in_parentheses(text), number, apply, outcome) == computes(
            text,
            number,
            apply,
            outcome,
        ),
{
    lemma_tokens_in_parentheses(text);
    lemma_follows_in_parentheses(tokens_of(text)->Ok_0, number, apply, outcome);
}

/// What the lexer gives is well formed: every operator has an operand on
/// each side, the parentheses are balanced, and the sequence ends with an
/// operand.
pub proof fn law_lexed_is_well_formed<V, N: Fn(&str, bool) -> Option<V>>(
    number: N,
    tokens: Seq<Span>,
    items: Seq<Lexem<V>>,
)
    requires
        lexes(number, tokens, Ok::<Seq<Lexem<V>>, Failure>(items)),
    ensures
        well_formed(items),
{
    let found = scanned(tokens);
    lemma_scanned_well_formed(tokens);
    assert forall|i: int| 0 <= i < found.len() implies alike(#[trigger] found[i], items[i]) by {
        assert(reads(number, found[i], items[i]));
    }
    lemma_alike_well_formed(found, items);
}

/// The converter and the evaluator agree with the grammar. The grammar
/// reads a well-formed sequence as an expression; the postfix form of the
/// sequence is the postfix notation of that expression; reducing the
/// postfix form leaves that expression on the stack and nothing else; and
/// evaluating it does not fail and gives a value of that expression.
pub proof fn law_postfix_follows_grammar<V, A: Fn(Operator, V, V) -> V>(
    items: Seq<Lexem<V>>,
    apply: A,
    outcome: Result<V, Failure>,
)
    requires
        well_formed(items),
        evaluates(apply, to_postfix(items), outcome),
    ensures
        reading(items) matches Some(expr) && to_postfix(items) == postfix_of(expr) && reduction(
            to_postfix(items),
            to_postfix(items).len() as int,
        ) == Some(seq![expr]) && (outcome matches Ok(value) && denotes(apply, expr, value)),
{
    lemma_reads_well_formed(items);
    lemma_to_postfix(items);
    lemma_meaning(reading(items)->0);
}

/// A token that is not whitespace.
pub open spec fn solid(token: Span) -> bool {
    !(token is Whitespace)
}

/// The stream without its whitespace tokens.
pub open spec fn without_whitespace(tokens: Seq<Span>) -> Seq<Span> {
    tokens.filter(|token: Span| solid(token))
}

/// The machine after `n` tokens depends on those tokens alone.
pub proof fn lemma_scan_prefix(tokens: Seq<Span>, others: Seq<Span>, n: int)
    requires
        0 <= n <= tokens.len(),
        n <= others.len(),
        forall|i: int| 0 <= i < n ==> tokens[i] == others[i],
    ensures
        scan(tokens, n) == scan(others, n),
    decreases n,
{
    if n > 0 {
        lemma_scan_prefix(tokens, others, n - 1);
    }
}

/// A step without an error does not depend on where in the stream it is taken.
pub proof fn lemma_advance_anywhere(machine: Scanner, token: Span, pos: nat, other: nat)
    requires
        machine.error is None,
        machine.advance(token, pos).error is None,
    ensures
        machine.advance(token, other) == machine.advance(token, pos),
{
}

/// Whitespace that does no harm does nothing.
pub proof fn lemma_absorbs(machine: Scanner, token: Span, pos: nat)
    requires
        token is Whitespace,
        machine.error is None,
        machine.advance(token, pos).error is None,
    ensures
        machine.advance(token, pos) == machine,
{
}

/// For as long as the machine runs, it is where it would be without the whitespace.
pub proof fn lemma_scan_solid(tokens: Seq<Span>, n: int)
    requires
        0 <= n <= tokens.len(),
        scan(tokens, n).error is None,
    ensures
        ({
            let rest = without_whitespace(tokens.take(n));
            scan(rest, rest.len() as int) == scan(tokens, n)
        }),
    decreases n,
{
    reveal(Seq::filter);
    let head = tokens.take(n);
    if n > 0 {
        let before = tokens.take(n - 1);
        let machine = scan(tokens, n - 1);
        let token = tokens[n - 1];
        assert(head.drop_last() =~= before);
        assert(head.last() == token);
        lemma_scan_solid(tokens, n - 1);
        let rest = without_whitespace(before);
        let reached = rest.len() as int;
        if token is Whitespace {
            assert(without_whitespace(head) == rest);
            lemma_absorbs(machine, token, (n - 1) as nat);
        } else {
            let longer = without_whitespace(head);
            assert(longer == rest.push(token));
            lemma_scan_prefix(longer, rest, reached);
            assert(scan(longer, reached + 1) == scan(longer, reached).advance(
                longer[reached],
                reached as nat,
            ));
            lemma_advance_anywhere(machine, token, (n - 1) as nat, reached as nat);
        }
    }
}

/// A stream that lexes still lexes, and to the same, without its whitespace.
pub proof fn lemma_without_whitespace(tokens: Seq<Span>)
    requires
        verdict(tokens) is None,
    ensures
        verdict(without_whitespace(tokens)) is None,
        scanned(without_whitespace(tokens)) == scanned(tokens),
{
    lemma_scan_solid(tokens, tokens.len() as int);
    assert(tokens.take(tokens.len() as int) =~= tokens);
}

/// Whitespace makes no difference to what a stream lexes to: two streams
/// that lex and that differ in their whitespace tokens only give the same
/// items and the same outcomes.
pub proof fn law_whitespace_is_absorbed<V, N: Fn(&str, bool) -> Option<V>>(
    number: N,
    tokens: Seq<Span>,
    others: Seq<Span>,
    outcome: Result<Seq<Lexem<V>>, Failure>,
)
    requires
        verdict(tokens) is None,
        verdict(others) is None,
        without_whitespace(tokens) == without_whitespace(others),
    ensures
        scanned(tokens) == scanned(others),
        lexes(number, tokens, outcome) == lexes(number, others, outcome),
{
    lemma_without_whitespace(tokens);
    lemma_without_whitespace(others);
}

/// Whitespace makes no difference to what a text evaluates to: two texts
/// that lex and whose tokens differ in the whitespace only evaluate to the same.
pub proof fn law_whitespace_in_text<
    V,
    N: Fn(&str, bool) -> Option<V>,
    A: Fn(Operator, V, V) -> V,
>(text: Seq<char>, other: Seq<char>, number: N, apply: A, outcome: Result<V, Failure>)
    requires
        tokens_of(text) matches Ok(tokens) && verdict(tokens) is None,
        tokens_of(other) matches Ok(others) && verdict(others) is None,
        without_whitespace(tokens_of(text)->Ok_0) == without_whitespace(tokens_of(other)->Ok_0),
    ensures
        computes(text, number, apply, outcome) == computes(other, number, apply, outcome),
{
    let tokens = tokens_of(text)->Ok_0;
    let others = tokens_of(other)->Ok_0;
    if follows(tokens, number, apply, outcome) {
        let lexed = choose|lexed: Result<Seq<Lexem<V>>, Failure>|
            #[trigger] lexes(number, tokens, lexed) && finishes(apply, lexed, outcome);
        law_whitespace_is_absorbed(number, tokens, others, lexed);
        assert(lexes(number, others, lexed) && finishes(apply, lexed, outcome));
    }
    if follows(others, number, apply, outcome) {
        let lexed = choose|lexed: Result<Seq<Lexem<V>>, Failure>|
            #[trigger] lexes(number, others, lexed) && finishes(apply, lexed, outcome);
        law_whitespace_is_absorbed(number, tokens, others, lexed);
        assert(lexes(number, tokens, lexed) && finishes(apply, lexed, outcome));
    }
}

/// The machine stops on structural errors only.
pub proof fn lemma_scan_errors(tokens: Seq<Span>, n: int)
    requires
        0 <= n <= tokens.len(),
    ensures
        match scan(tokens, n).error {
            Some(Failure::LexerError(_)) => true,
            Some(Failure::ParseOperatorError(_)) => true,
            Some(_) => false,
            None => true,
        },
    decreases n,
{
    if n > 0 {
        lemma_scan_errors(tokens, n - 1);
    }
}

/// `value` is a value of the expression that the grammar reads from what
/// the tokens may lex to.
pub open spec fn values<V, N: Fn(&str, bool) -> Option<V>, A: Fn(Operator, V, V) -> V>(
    tokens: Seq<Span>,
    number: N,
    apply: A,
    value: V,
) -> bool {
    exists|items: Seq<Lexem<V>>|
        #[trigger] lexes(number, tokens, Ok::<Seq<Lexem<V>>, Failure>(items)) && reading(
            items,
        ) is Some && denotes(apply, reading(items)->0, value)
}

/// Evaluating a text agrees with the grammar. A value that comes out is a
/// value of the expression that the grammar reads from the lexical items
/// of the text; and no text makes the evaluator itself fail, since what
/// the lexer lets through the converter and the evaluator can handle.
pub proof fn law_eval_follows_grammar<
    V,
    N: Fn(&str, bool) -> Option<V>,
    A: Fn(Operator, V, V) -> V,
>(text: Seq<char>, number: N, apply: A, outcome: Result<V, Failure>)
    requires
        computes(text, number, apply, outcome),
    ensures
        match outcome {
            Ok(value) => tokens_of(text) is Ok && values(
                tokens_of(text)->Ok_0,
                number,
                apply,
                value,
            ),
            Err(error) => !(error is EvalError),
        },
{
    match tokens_of(text) {
        Ok(tokens) => {
            let lexed = choose|lexed: Result<Seq<Lexem<V>>, Failure>|
                #[trigger] lexes(number, tokens, lexed) && finishes(apply, lexed, outcome);
            match lexed {
                Ok(items) => {
                    law_lexed_is_well_formed(number, tokens, items);
                    law_postfix_follows_grammar(items, apply, outcome);
                    assert(lexes(number, tokens, Ok::<Seq<Lexem<V>>, Failure>(items)) && reading(
                        items,
                    ) is Some && denotes(apply, reading(items)->0, outcome->Ok_0));
                },
                Err(error) => {
                    lemma_scan_errors(tokens, tokens.len() as int);
                },
            }
        },
        Err(error) => {},
    }
}

/// When success is owed: a text whose characters can all stand in tokens,
/// whose stream has no structural error and none of whose numbers `number`
/// may refuse, evaluates to a value.
pub proof fn law_eval_succeeds<V, N: Fn(&str, bool) -> Option<V>, A: Fn(Operator, V, V) -> V>(
    text: Seq<char>,
    number: N,
    apply: A,
    outcome: Result<V, Failure>,
)
    requires
        tokens_of(text) matches Ok(tokens) && verdict(tokens) is None && forall|k: int|
            !#[trigger] refuses_at(number, scanned(tokens), k),
        computes(text, number, apply, outcome),
    ensures
        outcome is Ok,
{
    law_eval_follows_grammar(text, number, apply, outcome);
    let tokens = tokens_of(text)->Ok_0;
    let lexed = choose|lexed: Result<Seq<Lexem<V>>, Failure>|
        #[trigger] lexes(number, tokens, lexed) && finishes(apply, lexed, outcome);
    match lexed {
        Ok(items) => {
            law_lexed_is_well_formed(number, tokens, items);
            law_postfix_follows_grammar(items, apply, outcome);
        },
        Err(error) => {},
    }
}

/// `number` gives one answer for one text and sign.
pub open spec fn reads_one<V, N: Fn(&str, bool) -> Option<V>>(number: N) -> bool {
    forall|text: &str, other: &str, negative: bool, out: Option<V>, again: Option<V>|
        #![trigger number.ensures((text, negative), out), number.ensures((other, negative), again)]
        text@ == other@ && number.ensures((text, negative), out) && number.ensures(
            (other, negative),
            again,
        ) ==> out == again
}

/// `apply` gives one result for one operator and two operands.
pub open spec fn applies_one<V, A: Fn(Operator, V, V) -> V>(apply: A) -> bool {
    forall|op: Operator, a: V, b: V, out: V, again: V|
        #![trigger apply.ensures((op, a, b), out), apply.ensures((op, a, b), again)]
        apply.ensures((op, a, b), out) && apply.ensures((op, a, b), again) ==> out == again
}

/// A literal has one reading where `number` gives one answer.
pub proof fn lemma_yields_one<V, N: Fn(&str, bool) -> Option<V>>(
    number: N,
    literal: Literal,
    out: Option<V>,
    again: Option<V>,
)
    requires
        reads_one(number),
        yields(number, literal, out),
        yields(number, literal, again),
    ensures
        out == again,
{
    let text = choose|text: &str|
        text@ == literal.text && number.ensures((text, literal.negative), out);
    let other = choose|other: &str|
        other@ == literal.text && number.ensures((other, literal.negative), again);
    assert(number.ensures((text, literal.negative), out));
    assert(number.ensures((other, literal.negative), again));
}

/// An expression has one value where `apply` gives one result.
pub proof fn lemma_denotes_one<V, A: Fn(Operator, V, V) -> V>(
    apply: A,
    expr: Expr<V>,
    value: V,
    again: V,
)
    requires
        applies_one(apply),
        denotes(apply, expr, value),
        denotes(apply, expr, again),
    ensures
        value == again,
    decreases expr,
{
    match expr {
        Expr::Value(_) => {},
        Expr::Binary(op, left, right) => {
            let (a, b) = choose|a: V, b: V|
                denotes(apply, *left, a) && denotes(apply, *right, b) && apply.ensures(
                    (op, a, b),
                    value,
                );
            let (c, d) = choose|c: V, d: V|
                denotes(apply, *left, c) && denotes(apply, *right, d) && apply.ensures(
                    (op, c, d),
                    again,
                );
            lemma_denotes_one(apply, *left, a, c);
            lemma_denotes_one(apply, *right, b, d);
            assert(apply.ensures((op, a, b), value));
            assert(apply.ensures((op, a, b), again));
        },
    }
}

/// A stream has one lexing where `number` gives one answer.
pub proof fn lemma_lexes_one<V, N: Fn(&str, bool) -> Option<V>>(
    number: N,
    tokens: Seq<Span>,
    lexed: Result<Seq<Lexem<V>>, Failure>,
    again: Result<Seq<Lexem<V>>, Failure>,
)
    requires
        reads_one(number),
        lexes(number, tokens, lexed),
        lexes(number, tokens, again),
    ensures
        lexed == again,
{
    let found = scanned(tokens);
    lemma_scan_errors(tokens, tokens.len() as int);
    if lexed is Err && lexed->Err_0 == Failure::ParseNumberError {
        let k = choose|k: int|
            #[trigger] refuses_at(number, found, k) && accepts_first(number, found, k);
        lemma_refused_for_good(number, tokens, k, again);
    } else if again is Err && again->Err_0 == Failure::ParseNumberError {
        let k = choose|k: int|
            #[trigger] refuses_at(number, found, k) && accepts_first(number, found, k);
        lemma_refused_for_good(number, tokens, k, lexed);
    } else if lexed is Ok && again is Ok {
        let items = lexed->Ok_0;
        let others = again->Ok_0;
        assert forall|i: int| 0 <= i < items.len() implies items[i] == others[i] by {
            assert(reads(number, found[i], items[i]));
            assert(reads(number, found[i], others[i]));
            match found[i] {
                Lexem::Number(literal) => {
                    lemma_yields_one(
                        number,
                        literal,
                        Some(items[i]->Number_0),
                        Some(others[i]->Number_0),
                    );
                },
                _ => {},
            }
        }
        assert(items =~= others);
    }
}

/// Where `number` gives one answer, a number that it may refuse is refused
/// in every lexing of the stream.
pub proof fn lemma_refused_for_good<V, N: Fn(&str, bool) -> Option<V>>(
    number: N,
    tokens: Seq<Span>,
    k: int,
    lexed: Result<Seq<Lexem<V>>, Failure>,
)
    requires
        reads_one(number),
        refuses_at(number, scanned(tokens), k),
        lexes(number, tokens, lexed),
    ensures
        lexed == Err::<Seq<Lexem<V>>, Failure>(Failure::ParseNumberError),
{
    let found = scanned(tokens);
    let literal = found[k]->Number_0;
    match lexed {
        Ok(items) => {
            assert(reads(number, found[k], items[k]));
            lemma_yields_one(number, literal, None::<V>, Some(items[k]->Number_0));
        },
        Err(error) => {
            if error != Failure::ParseNumberError {
                assert(accepts_first(number, found, found.len() as int));
                assert(accepts(number, literal));
                let value = choose|value: V| yields(number, literal, Some(value));
                lemma_yields_one(number, literal, None::<V>, Some(value));
            }
        },
    }
}

/// Evaluation is a function of the text where the caller's functions are
/// functions: if `number` gives one answer for one text and sign, and
/// `apply` one result for one operator and two operands, then a text has
/// one outcome.
pub proof fn law_eval_is_a_function<
    V,
    N: Fn(&str, bool) -> Option<V>,
    A: Fn(Operator, V, V) -> V,
>(
    text: Seq<char>,
    number: N,
    apply: A,
    outcome: Result<V, Failure>,
    again: Result<V, Failure>,
)
    requires
        reads_one(number),
        applies_one(apply),
        computes(text, number, apply, outcome),
        computes(text, number, apply, again),
    ensures
        outcome == again,
{
    match tokens_of(text) {
        Ok(tokens) => {
            let lexed = choose|lexed: Result<Seq<Lexem<V>>, Failure>|
                #[trigger] lexes(number, tokens, lexed) && finishes(apply, lexed, outcome);
            let other = choose|other: Result<Seq<Lexem<V>>, Failure>|
                #[trigger] lexes(number, tokens, other) && finishes(apply, other, again);
            lemma_lexes_one(number, tokens, lexed, other);
            match lexed {
                Ok(items) => {
                    law_lexed_is_well_formed(number, tokens, items);
                    law_postfix_follows_grammar(items, apply, outcome);
                    law_postfix_follows_grammar(items, apply, again);
                    lemma_denotes_one(apply, reading(items)->0, outcome->Ok_0, again->Ok_0);
                },
                Err(error) => {},
            }
        },
        Err(error) => {},
    }
}

} // verus!
