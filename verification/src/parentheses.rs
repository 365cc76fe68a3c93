//! Why parentheses around a whole text change nothing: what the tokenizer
//! and the lexer do with a text in parentheses.

use crate::laws::{law_lexed_is_well_formed, law_parentheses_are_transparent};
use crate::lexer::{
    accepts, accepts_first, lemma_scan_stops, lexes, reads, refuses_at, scan, scanned, verdict,
    Lexem, Operator, Scanner,
};
use crate::structure::{lemma_reads_well_formed, lemma_scanned_well_formed, parenthesized};
use crate::tokenizer::{
    class_of, lemma_first_invalid, lemma_run_within, run_after, run_len, span_of, spans_from,
    tokens_of, valid_from, Class, Span,
};
use crate::{finishes, follows, Failure};
use vstd::prelude::*;

verus! {

/// A text in parentheses.
pub open spec fn text_in_parentheses(text: Seq<char>) -> Seq<char> {
    seq!['('] + text + seq![')']
}

/// A token stream in parentheses: the parentheses stand around all but the end marker.
pub open spec fn tokens_in_parentheses(tokens: Seq<Span>) -> Seq<Span> {
    seq![Span::ParOpen] + tokens.drop_last() + seq![Span::ParClose, Span::End]
}

/// A run inside the parentheses ends where it ends without them.
pub proof fn lemma_run_inside(text: Seq<char>, class: Class, from: int)
    requires
        0 <= from <= text.len(),
        !(class is ParClose),
    ensures
        run_len(text_in_parentheses(text), class, from + 1) == run_len(text, class, from),
    decreases text.len() - from,
{
    let outer = text_in_parentheses(text);
    if from < text.len() {
        assert(outer[from + 1] == text[from]);
        lemma_run_inside(text, class, from + 1);
    } else {
        assert(outer[from + 1] == ')');
    }
}

/// The tokens of a text always end with the end marker.
pub proof fn lemma_spans_end(text: Seq<char>, start: int)
    ensures
        spans_from(text, start).len() > 0,
        spans_from(text, start).last() is End,
    decreases text.len() - start,
{
    if 0 <= start < text.len() && class_of(text[start]) is Some {
        lemma_run_within(text, Class::Number, start + 1);
        lemma_run_within(text, Class::Whitespace, start + 1);
        lemma_run_within(text, Class::Operator, start + 1);
        lemma_spans_end(text, start + 1 + run_after(text, start));
    }
}

/// The tokens inside the parentheses are the tokens of the text without them.
pub proof fn lemma_spans_inside(text: Seq<char>, start: int)
    requires
        0 <= start <= text.len(),
        valid_from(text, start),
    ensures
        spans_from(text_in_parentheses(text), start + 1) == spans_from(text, start).drop_last()
            + seq![Span::ParClose, Span::End],
    decreases text.len() - start,
{
    let outer = text_in_parentheses(text);
    let len = text.len() as int;
    if start < len {
        assert(outer[start + 1] == text[start]);
        let class = class_of(text[start])->0;
        lemma_run_within(text, Class::Number, start + 1);
        lemma_run_within(text, Class::Whitespace, start + 1);
        lemma_run_within(text, Class::Operator, start + 1);
        lemma_run_inside(text, Class::Number, start + 1);
        lemma_run_inside(text, Class::Whitespace, start + 1);
        lemma_run_inside(text, Class::Operator, start + 1);
        let end = start + 1 + run_after(text, start);
        assert(run_after(outer, start + 1) == run_after(text, start));
        assert(outer.subrange(start + 1, end + 1) =~= text.subrange(start, end));
        lemma_spans_inside(text, end);
        lemma_spans_end(text, end);
        assert(spans_from(text, start).drop_last() =~= seq![
            span_of(class, text.subrange(start, end)),
        ] + spans_from(text, end).drop_last());
        assert(spans_from(outer, start + 1) =~= spans_from(text, start).drop_last() + seq![
            Span::ParClose,
            Span::End,
        ]);
    } else {
        assert(outer[len + 1] == ')');
        assert(spans_from(outer, len + 2) == seq![Span::End]);
        assert(spans_from(text, len).drop_last() =~= Seq::empty());
        assert(spans_from(outer, len + 1) =~= spans_from(text, len).drop_last() + seq![
            Span::ParClose,
            Span::End,
        ]);
    }
}

/// The tokens of a text in parentheses are the tokens of the text, in parentheses.
pub proof fn lemma_tokens_in_parentheses(text: Seq<char>)
    requires
        tokens_of(text) is Ok,
    ensures
        tokens_of(text_in_parentheses(text)) == Ok::<Seq<Span>, Failure>(
            tokens_in_parentheses(tokens_of(text)->Ok_0),
        ),
{
    let outer = text_in_parentheses(text);
    lemma_first_invalid(text, 0);
    assert forall|i: int| 0 <= i < outer.len() implies class_of(#[trigger] outer[i]) is Some by {
        if 0 < i <= text.len() {
            assert(outer[i] == text[i - 1]);
        }
    }
    lemma_first_invalid(outer, 0);
    lemma_spans_inside(text, 0);
    assert(outer[0] == '(');
    assert(spans_from(outer, 0) =~= seq![Span::ParOpen] + spans_from(outer, 1));
    assert(spans_from(outer, 0) =~= tokens_in_parentheses(spans_from(text, 0)));
}

/// How the machine inside parentheses relates to the machine without them:
/// it is in the same state, one parenthesis deeper, and has emitted the
/// same behind an open parenthesis. At the start, that parenthesis is
/// still pending.
pub open spec fn inside(plain: Scanner, within: Scanner) -> bool {
    &&& plain.error is None
    &&& within.error is None
    &&& !plain.unmatched
    &&& !within.unmatched
    &&& if plain.state is Initial {
        &&& plain.items.len() == 0
        &&& plain.depth == 0
        &&& within.state is ParOpen
        &&& within.items.len() == 0
        &&& within.depth == 0
    } else {
        &&& within.state == plain.state
        &&& within.items =~= seq![Lexem::ParOpen] + plain.items
        &&& within.depth == plain.depth + 1
    }
}

/// A step of the machine keeps the two machines related.
pub proof fn lemma_inside_advance(plain: Scanner, within: Scanner, token: Span, pos: nat, at: nat)
    requires
        inside(plain, within),
        plain.advance(token, pos).error is None,
        !plain.advance(token, pos).unmatched,
    ensures
        inside(plain.advance(token, pos), within.advance(token, at)),
{
}

/// A parenthesis that was closed without having been opened stays so.
pub proof fn lemma_unmatched_stays(tokens: Seq<Span>, n: int, m: int)
    requires
        0 <= n <= m <= tokens.len(),
        scan(tokens, n).unmatched,
    ensures
        scan(tokens, m).unmatched,
    decreases m - n,
{
    if n < m {
        lemma_unmatched_stays(tokens, n, m - 1);
    }
}

/// Inside the parentheses the machine runs as it does without them.
pub proof fn lemma_scan_inside(tokens: Seq<Span>, n: int)
    requires
        verdict(tokens) is None,
        0 <= n < tokens.len(),
    ensures
        inside(scan(tokens, n), scan(tokens_in_parentheses(tokens), n + 1)),
    decreases n,
{
    let outer = tokens_in_parentheses(tokens);
    let len = tokens.len() as int;
    if scan(tokens, n).error is Some {
        lemma_scan_stops(tokens, n, len);
    }
    if scan(tokens, n).unmatched {
        lemma_unmatched_stays(tokens, n, len);
    }
    assert(outer[0] is ParOpen);
    if n == 0 {
        assert(scan(outer, 1) == scan(outer, 0).advance(outer[0], 0));
    } else {
        lemma_scan_inside(tokens, n - 1);
        assert(outer[n] == tokens[n - 1]);
        lemma_inside_advance(
            scan(tokens, n - 1),
            scan(outer, n),
            tokens[n - 1],
            (n - 1) as nat,
            n as nat,
        );
    }
}

/// A stream that lexes ends with the end marker, and only there does the machine end.
pub proof fn lemma_lexes_to_end(tokens: Seq<Span>)
    requires
        verdict(tokens) is None,
    ensures
        tokens.len() > 0,
        tokens.last() is End,
        scan(tokens, tokens.len() - 1).error is None,
        scan(tokens, tokens.len() - 1).state is Number || scan(
            tokens,
            tokens.len() - 1,
        ).state is ParClose,
{
    let len = tokens.len() as int;
    if len > 0 && scan(tokens, len - 1).error is Some {
        lemma_scan_stops(tokens, len - 1, len);
    }
}

/// A stream in parentheses lexes where the stream does, to the same items in parentheses.
pub proof fn lemma_scanned_in_parentheses(tokens: Seq<Span>)
    requires
        verdict(tokens) is None,
    ensures
        verdict(tokens_in_parentheses(tokens)) is None,
        scanned(tokens_in_parentheses(tokens)) == parenthesized(scanned(tokens)),
{
    let outer = tokens_in_parentheses(tokens);
    let len = tokens.len() as int;
    lemma_lexes_to_end(tokens);
    lemma_scan_inside(tokens, len - 1);
    let plain = scan(tokens, len - 1);
    let within = scan(outer, len);
    let last = scan(tokens, len);
    assert(last == plain.advance(tokens[len - 1], (len - 1) as nat));
    assert(outer[len] is ParClose);
    assert(outer[len + 1] is End);
    assert(outer.len() == len + 2);
    let closing = scan(outer, len + 1);
    assert(closing == within.advance(outer[len], len as nat));
    let ended = scan(outer, len + 2);
    assert(ended == closing.advance(outer[len + 1], (len + 1) as nat));
    assert(ended.items =~= parenthesized(last.items));
}

/// With the text in parentheses, the stages after the tokenizer may give
/// what they may give without.
pub proof fn lemma_follows_in_parentheses<
    V,
    N: Fn(&str, bool) -> Option<V>,
    A: Fn(Operator, V, V) -> V,
>(tokens: Seq<Span>, number: N, apply: A, outcome: Result<V, Failure>)
    requires
        verdict(tokens) is None,
    ensures
        follows(tokens_in_parentheses(tokens), number, apply, outcome) == follows(
            tokens,
            number,
            apply,
            outcome,
        ),
{
    let outer = tokens_in_parentheses(tokens);
    let found = scanned(tokens);
    let around = scanned(outer);
    let count = found.len() as int;
    lemma_scanned_in_parentheses(tokens);
    lemma_scanned_well_formed(tokens);
    assert(around.len() == found.len() + 2);
    assert(around[0] is ParOpen);
    assert(around[count + 1] is ParClose);
    assert forall|i: int| 0 <= i < found.len() implies around[i + 1] == #[trigger] found[i] by {}
    if follows(tokens, number, apply, outcome) {
        let lexed = choose|lexed: Result<Seq<Lexem<V>>, Failure>|
            #[trigger] lexes(number, tokens, lexed) && finishes(apply, lexed, outcome);
        match lexed {
            Ok(items) => {
                let wider = parenthesized(items);
                law_lexed_is_well_formed(number, tokens, items);
                lemma_reads_well_formed(items);
                law_parentheses_are_transparent(items, apply, outcome);
                assert forall|i: int| 0 <= i < around.len() implies reads(
                    number,
                    around[i],
                    #[trigger] wider[i],
                ) by {
                    if 0 < i <= found.len() {
                        assert(reads(number, found[i - 1], items[i - 1]));
                        assert(wider[i] == items[i - 1]);
                    }
                }
                let widened = Ok::<Seq<Lexem<V>>, Failure>(wider);
                assert(lexes(number, outer, widened) && finishes(apply, widened, outcome));
            },
            Err(error) => {
                let k = choose|k: int|
                    #[trigger] refuses_at(number, found, k) && accepts_first(number, found, k);
                assert forall|j: int| 0 <= j < k + 1 && j < around.len() implies match (
                #[trigger] around[j]) {
                    Lexem::Number(literal) => accepts(number, literal),
                    _ => true,
                } by {
                    if j > 0 {
                        assert(around[j] == found[j - 1]);
                    }
                }
                assert(refuses_at(number, around, k + 1) && accepts_first(number, around, k + 1));
                assert(lexes(number, outer, lexed) && finishes(apply, lexed, outcome));
            },
        }
    }
    if follows(outer, number, apply, outcome) {
        let lexed = choose|lexed: Result<Seq<Lexem<V>>, Failure>|
            #[trigger] lexes(number, outer, lexed) && finishes(apply, lexed, outcome);
        match lexed {
            Ok(wider) => {
                let items = wider.subrange(1, wider.len() - 1);
                assert(reads(number, around[0], wider[0]));
                assert(reads(number, around[count + 1], wider[count + 1]));
                assert forall|i: int| 0 <= i < found.len() implies reads(
                    number,
                    found[i],
                    #[trigger] items[i],
                ) by {
                    assert(reads(number, around[i + 1], wider[i + 1]));
                }
                assert(wider =~= parenthesized(items));
                let narrowed = Ok::<Seq<Lexem<V>>, Failure>(items);
                assert(lexes(number, tokens, narrowed));
                law_lexed_is_well_formed(number, tokens, items);
                lemma_reads_well_formed(items);
                law_parentheses_are_transparent(items, apply, outcome);
                assert(lexes(number, tokens, narrowed) && finishes(apply, narrowed, outcome));
            },
            Err(error) => {
                let k = choose|k: int|
                    #[trigger] refuses_at(number, around, k) && accepts_first(number, around, k);
                assert(around[k] == found[k - 1]);
                assert forall|j: int| 0 <= j < k - 1 && j < found.len() implies match (
                #[trigger] found[j]) {
                    Lexem::Number(literal) => accepts(number, literal),
                    _ => true,
                } by {
                    assert(around[j + 1] == found[j]);
                }
                assert(refuses_at(number, found, k - 1) && accepts_first(number, found, k - 1));
                assert(lexes(number, tokens, lexed) && finishes(apply, lexed, outcome));
            },
        }
    }
}

} // verus!
