//! What the lexer guarantees of its output, and why the grammar reads it:
//! the items that a stream lexes to are well formed, and every well-formed
//! sequence is an expression.

use crate::evaluator::Expr;
use crate::grammar::{
    atom, chain, chained, closes_operand, depth, may_follow, nested, opens_operand, operand,
    reading, top_level, well_formed,
};
use crate::lexer::{
    operator_of, scan, scanned, unit, verdict, Lexem, Literal, Operator, Pending, Scanner,
};
use crate::tokenizer::Span;
use vstd::prelude::*;

verus! {

/// Two items of the same kind, whatever numbers they hold.
pub open spec fn alike<T, U>(item: Lexem<T>, other: Lexem<U>) -> bool {
    match item {
        Lexem::Number(_) => other is Number,
        Lexem::Operator(op) => other == Lexem::<U>::Operator(op),
        Lexem::ParOpen => other is ParOpen,
        Lexem::ParClose => other is ParClose,
    }
}

/// Sequences whose first `n` items are alike are equally deep behind them.
pub proof fn lemma_depth_alike<T, U>(items: Seq<Lexem<T>>, others: Seq<Lexem<U>>, n: int)
    requires
        0 <= n <= items.len(),
        n <= others.len(),
        forall|i: int| 0 <= i < n ==> alike(#[trigger] items[i], others[i]),
    ensures
        depth(items, n) == depth(others, n),
    decreases n,
{
    if n > 0 {
        lemma_depth_alike(items, others, n - 1);
        assert(alike(items[n - 1], others[n - 1]));
    }
}

/// A sequence of items alike to those of a well-formed one is well formed.
pub proof fn lemma_alike_well_formed<T, U>(items: Seq<Lexem<T>>, others: Seq<Lexem<U>>)
    requires
        items.len() == others.len(),
        forall|i: int| 0 <= i < items.len() ==> alike(#[trigger] items[i], others[i]),
        well_formed(items),
    ensures
        well_formed(others),
{
    let len = items.len() as int;
    assert(alike(items[0], others[0]));
    assert(alike(items[len - 1], others[len - 1]));
    assert forall|i: int| 0 < i < others.len() implies may_follow(
        others[i - 1],
        #[trigger] others[i],
    ) by {
        assert(alike(items[i - 1], others[i - 1]));
        assert(alike(items[i], others[i]));
        assert(may_follow(items[i - 1], items[i]));
    }
    assert forall|k: int| 0 <= k <= len implies #[trigger] depth(others, k) >= 0 by {
        lemma_depth_alike(items, others, k);
        assert(depth(items, k) >= 0);
    }
    lemma_depth_alike(items, others, len);
}

/// What one more item does to the depth and to the order of a sequence.
pub proof fn lemma_push<T>(items: Seq<Lexem<T>>, item: Lexem<T>)
    ensures
        forall|k: int|
            0 <= k <= items.len() ==> #[trigger] depth(items.push(item), k) == depth(items, k),
        depth(items.push(item), items.len() as int + 1) == depth(items, items.len() as int)
            + match item {
            Lexem::ParOpen => 1int,
            Lexem::ParClose => -1int,
            _ => 0int,
        },
        chained(items) && (if items.len() == 0 {
            opens_operand(item)
        } else {
            may_follow(items.last(), item)
        }) ==> chained(items.push(item)),
{
    let longer = items.push(item);
    assert forall|k: int| 0 <= k <= items.len() implies #[trigger] depth(longer, k) == depth(
        items,
        k,
    ) by {
        assert forall|i: int| 0 <= i < k implies alike(#[trigger] longer[i], items[i]) by {}
        lemma_depth_alike(longer, items, k);
    }
    assert(depth(longer, items.len() as int) == depth(items, items.len() as int));
    assert(longer[items.len() as int] == item);
    if chained(items) && (if items.len() == 0 {
        opens_operand(item)
    } else {
        may_follow(items.last(), item)
    }) {
        assert forall|i: int| 0 < i < longer.len() implies may_follow(
            longer[i - 1],
            #[trigger] longer[i],
        ) by {
            if i < items.len() {
                assert(may_follow(items[i - 1], items[i]));
            }
        }
    }
}

/// The items so far call for an operand.
pub open spec fn expects_operand<T>(items: Seq<Lexem<T>>) -> bool {
    items.len() == 0 || !closes_operand(items.last())
}

/// The items so far end with an operand.
pub open spec fn complete<T>(items: Seq<Lexem<T>>) -> bool {
    items.len() > 0 && closes_operand(items.last())
}

/// What holds of the machine for as long as it runs: what it has emitted
/// is in order, fits what it has pending, and is as deep as it counts.
pub open spec fn consistent(machine: Scanner) -> bool {
    &&& chained(machine.items)
    &&& match machine.state {
        Pending::Initial => machine.items.len() == 0,
        Pending::LeadingSign(_) => expects_operand(machine.items),
        Pending::Number(_, _) => expects_operand(machine.items),
        Pending::ParOpen => expects_operand(machine.items),
        Pending::Operator(_) => complete(machine.items),
        Pending::ParClose => complete(machine.items),
        Pending::End => complete(machine.items),
    }
    &&& !machine.unmatched ==> {
        &&& nested(machine.items, machine.items.len() as int)
        &&& depth(machine.items, machine.items.len() as int) == machine.depth
    }
}

/// Emitting an item that may follow keeps the machine consistent but for its state.
proof fn lemma_emit(machine: Scanner, item: Lexem<Literal>)
    requires
        chained(machine.items),
        !machine.unmatched ==> nested(machine.items, machine.items.len() as int) && depth(
            machine.items,
            machine.items.len() as int,
        ) == machine.depth,
        if machine.items.len() == 0 {
            opens_operand(item)
        } else {
            may_follow(machine.items.last(), item)
        },
    ensures
        chained(machine.items.push(item)),
        machine.items.push(item).last() == item,
        !machine.unmatched ==> {
            &&& nested(machine.items.push(item), machine.items.len() as int)
            &&& depth(machine.items.push(item), machine.items.len() as int + 1) == machine.depth
                + match item {
                Lexem::ParOpen => 1int,
                Lexem::ParClose => -1int,
                _ => 0int,
            }
        },
{
    lemma_push(machine.items, item);
    if !machine.unmatched {
        let longer = machine.items.push(item);
        assert forall|k: int| 0 <= k <= machine.items.len() implies #[trigger] depth(longer, k)
            >= 0 by {
            assert(depth(machine.items, k) >= 0);
        }
    }
}

/// A step without an error keeps the machine consistent.
pub proof fn lemma_advance_consistent(machine: Scanner, token: Span, pos: nat)
    requires
        consistent(machine),
        machine.error is None,
        machine.advance(token, pos).error is None,
    ensures
        consistent(machine.advance(token, pos)),
{
    let after = machine.advance(token, pos);
    match machine.state {
        Pending::Initial => {},
        Pending::LeadingSign(negative) => {
            if token is ParOpen {
                let sign = Lexem::Number(unit(negative));
                let times = Lexem::<Literal>::Operator(Operator::Mul);
                lemma_emit(machine, sign);
                let signed = machine.emit(sign);
                lemma_emit(signed, times);
                let longer = signed.emit(times);
                if !machine.unmatched {
                    assert forall|k: int| 0 <= k <= longer.items.len() implies #[trigger] depth(
                        longer.items,
                        k,
                    ) >= 0 by {
                        if k == longer.items.len() {
                        } else {
                            assert(nested(longer.items, signed.items.len() as int));
                        }
                    }
                }
            }
        },
        Pending::Number(text, negative) => {
            if !(token is Whitespace) {
                let item = Lexem::Number(Literal { text, negative });
                lemma_emit(machine, item);
                let longer = machine.emit(item);
                if !machine.unmatched {
                    assert forall|k: int| 0 <= k <= longer.items.len() implies #[trigger] depth(
                        longer.items,
                        k,
                    ) >= 0 by {}
                }
            }
        },
        Pending::Operator(text) => {
            if !(token is Whitespace) {
                let item = Lexem::<Literal>::Operator(operator_of(text)->0);
                lemma_emit(machine, item);
                let longer = machine.emit(item);
                if !machine.unmatched {
                    assert forall|k: int| 0 <= k <= longer.items.len() implies #[trigger] depth(
                        longer.items,
                        k,
                    ) >= 0 by {}
                }
            }
        },
        Pending::ParOpen => {
            if !(token is Whitespace) {
                lemma_emit(machine, Lexem::ParOpen);
                let longer = machine.open();
                if !machine.unmatched {
                    assert forall|k: int| 0 <= k <= longer.items.len() implies #[trigger] depth(
                        longer.items,
                        k,
                    ) >= 0 by {}
                }
            }
        },
        Pending::ParClose => {
            if !(token is Whitespace) {
                lemma_emit(machine, Lexem::ParClose);
                let longer = machine.close();
                if !longer.unmatched {
                    assert forall|k: int| 0 <= k <= longer.items.len() implies #[trigger] depth(
                        longer.items,
                        k,
                    ) >= 0 by {}
                }
            }
        },
        Pending::End => {},
    }
}

/// The machine is consistent for as long as it runs.
pub proof fn lemma_scan_consistent(tokens: Seq<Span>, n: int)
    requires
        0 <= n <= tokens.len(),
        scan(tokens, n).error is None,
    ensures
        consistent(scan(tokens, n)),
    decreases n,
{
    if n > 0 {
        lemma_scan_consistent(tokens, n - 1);
        lemma_advance_consistent(scan(tokens, n - 1), tokens[n - 1], (n - 1) as nat);
    }
}

/// The items of a stream without a structural error are well formed.
pub proof fn lemma_scanned_well_formed(tokens: Seq<Span>)
    requires
        verdict(tokens) is None,
    ensures
        well_formed(scanned(tokens)),
{
    lemma_scan_consistent(tokens, tokens.len() as int);
}

/// Where reading stops: at the end, at a close parenthesis, or at an
/// operator that binds less tightly than `level`.
pub open spec fn stops<T>(items: Seq<Lexem<T>>, next: int, level: nat) -> bool {
    next < items.len() ==> match items[next] {
        Lexem::ParClose => true,
        Lexem::Operator(op) => op.rank() < level,
        _ => false,
    }
}

/// What a reading from `start` up to `next` is like in a well-formed sequence.
pub open spec fn read_up_to<T>(items: Seq<Lexem<T>>, start: int, next: int, level: nat) -> bool {
    &&& start < next <= items.len()
    &&& closes_operand(items[next - 1])
    &&& depth(items, next) == depth(items, start)
    &&& stops(items, next, level)
}

/// In a well-formed sequence, a number or a parenthesis is read wherever one begins.
pub proof fn lemma_read_atom<V>(items: Seq<Lexem<V>>, pos: int)
    requires
        well_formed(items),
        0 <= pos < items.len(),
        opens_operand(items[pos]),
    ensures
        atom(items, pos) matches Some((expr, next)) && read_up_to(items, pos, next, top_level()),
    decreases items.len() - pos, 0nat,
{
    assert(depth(items, pos + 1) == depth(items, pos) + match items[pos] {
        Lexem::ParOpen => 1int,
        Lexem::ParClose => -1int,
        _ => 0int,
    });
    match items[pos] {
        Lexem::Number(_) => {
            if pos + 1 < items.len() {
                assert(may_follow(items[pos], items[pos + 1]));
            }
        },
        Lexem::ParOpen => {
            assert(may_follow(items[pos], items[pos + 1]));
            lemma_read_operand(items, pos + 1, 0);
            let (inner, next) = operand(items, pos + 1, 0)->0;
            assert(depth(items, pos) >= 0);
            assert(depth(items, next + 1) == depth(items, next) + match items[next] {
                Lexem::ParOpen => 1int,
                Lexem::ParClose => -1int,
                _ => 0int,
            });
            if next + 1 < items.len() {
                assert(may_follow(items[next], items[next + 1]));
            }
        },
        _ => {},
    }
}

/// In a well-formed sequence, an expression is read wherever an operand begins.
pub proof fn lemma_read_operand<V>(items: Seq<Lexem<V>>, pos: int, level: nat)
    requires
        well_formed(items),
        0 <= pos < items.len(),
        opens_operand(items[pos]),
    ensures
        operand(items, pos, level) matches Some((expr, next)) && read_up_to(
            items,
            pos,
            next,
            level,
        ),
    decreases items.len() - pos, (if level >= top_level() {
            1nat
        } else {
            (4 - level) as nat
        }),
{
    if level >= top_level() {
        lemma_read_atom(items, pos);
    } else {
        lemma_read_operand(items, pos, level + 1);
        let (left, next) = operand(items, pos, level + 1)->0;
        lemma_read_chain(items, pos, next, level, left);
    }
}

/// In a well-formed sequence, a chain is read to its end.
pub proof fn lemma_read_chain<V>(
    items: Seq<Lexem<V>>,
    start: int,
    pos: int,
    level: nat,
    left: Expr<V>,
)
    requires
        well_formed(items),
        level < top_level(),
        0 <= start,
        read_up_to(items, start, pos, level + 1),
    ensures
        chain(items, pos, level, left) matches Some((expr, next)) && pos <= next && read_up_to(
            items,
            start,
            next,
            level,
        ),
    decreases items.len() - pos, 0nat,
{
    if pos < items.len() {
        assert(may_follow(items[pos - 1], items[pos]));
        match items[pos] {
            Lexem::Operator(op) => {
                if op.rank() == level {
                    assert(may_follow(items[pos], items[pos + 1]));
                    assert(depth(items, pos + 1) == depth(items, pos));
                    lemma_read_operand(items, pos + 1, level + 1);
                    let (right, next) = operand(items, pos + 1, level + 1)->0;
                    lemma_read_chain(
                        items,
                        start,
                        next,
                        level,
                        Expr::Binary(op, Box::new(left), Box::new(right)),
                    );
                }
            },
            _ => {},
        }
    }
}

/// Every well-formed sequence is an expression.
pub proof fn lemma_reads_well_formed<V>(items: Seq<Lexem<V>>)
    requires
        well_formed(items),
    ensures
        reading(items) is Some,
{
    lemma_read_operand(items, 0, 0);
    let (expr, next) = operand(items, 0, 0)->0;
    if next < items.len() {
        assert(depth(items, next + 1) == depth(items, next) - 1);
        assert(depth(items, next + 1) >= 0);
    }
}

/// A sequence in parentheses.
pub open spec fn parenthesized<V>(items: Seq<Lexem<V>>) -> Seq<Lexem<V>> {
    seq![Lexem::ParOpen] + items + seq![Lexem::ParClose]
}

/// What is read inside parentheses is what is read without them, one place on.
pub proof fn lemma_inside_atom<V>(items: Seq<Lexem<V>>, pos: int)
    requires
        atom(items, pos) is Some,
    ensures
        ({
            let (expr, next) = atom(items, pos)->0;
            &&& 0 <= pos < next <= items.len()
            &&& atom(parenthesized(items), pos + 1) == Some((expr, next + 1))
        }),
    decreases items.len() - pos, 0nat,
{
    let outer = parenthesized(items);
    assert(outer[pos + 1] == items[pos]);
    match items[pos] {
        Lexem::ParOpen => {
            lemma_inside_operand(items, pos + 1, 0);
            let (inner, next) = operand(items, pos + 1, 0)->0;
            assert(outer[next + 1] == items[next]);
        },
        _ => {},
    }
}

/// What is read inside parentheses is what is read without them, one place on.
pub proof fn lemma_inside_operand<V>(items: Seq<Lexem<V>>, pos: int, level: nat)
    requires
        operand(items, pos, level) is Some,
    ensures
        ({
            let (expr, next) = operand(items, pos, level)->0;
            &&& 0 <= pos < next <= items.len()
            &&& operand(parenthesized(items), pos + 1, level) == Some((expr, next + 1))
        }),
    decreases items.len() - pos, (if level >= top_level() {
            1nat
        } else {
            (4 - level) as nat
        }),
{
    if level >= top_level() {
        lemma_inside_atom(items, pos);
    } else {
        lemma_inside_operand(items, pos, level + 1);
        let (left, next) = operand(items, pos, level + 1)->0;
        lemma_inside_chain(items, next, level, left);
    }
}

/// What is read inside parentheses is what is read without them, one place on.
pub proof fn lemma_inside_chain<V>(items: Seq<Lexem<V>>, pos: int, level: nat, left: Expr<V>)
    requires
        0 <= pos <= items.len(),
        chain(items, pos, level, left) is Some,
    ensures
        ({
            let (expr, next) = chain(items, pos, level, left)->0;
            &&& pos <= next <= items.len()
            &&& chain(parenthesized(items), pos + 1, level, left) == Some((expr, next + 1))
        }),
    decreases items.len() - pos, 0nat,
{
    let outer = parenthesized(items);
    if pos < items.len() {
        assert(outer[pos + 1] == items[pos]);
        match items[pos] {
            Lexem::Operator(op) => {
                if op.rank() == level {
                    lemma_inside_operand(items, pos + 1, level + 1);
                    let (right, next) = operand(items, pos + 1, level + 1)->0;
                    lemma_inside_chain(
                        items,
                        next,
                        level,
                        Expr::Binary(op, Box::new(left), Box::new(right)),
                    );
                }
            },
            _ => {},
        }
    } else {
        assert(outer[pos + 1] is ParClose);
    }
}

/// An expression in parentheses is read as that expression.
pub proof fn lemma_reads_parenthesized<V>(items: Seq<Lexem<V>>)
    requires
        reading(items) is Some,
    ensures
        reading(parenthesized(items)) == reading(items),
{
    let outer = parenthesized(items);
    let expr = reading(items)->0;
    let end = items.len() as int + 2;
    lemma_inside_operand(items, 0, 0);
    assert(outer[0] is ParOpen);
    assert(outer[items.len() as int + 1] is ParClose);
    assert(outer.len() == end);
    assert(atom(outer, 0) == Some((expr, end)));
    assert(operand(outer, 0, 3) == Some((expr, end)));
    assert(chain(outer, end, 2, expr) == Some((expr, end)));
    assert(operand(outer, 0, 2) == Some((expr, end)));
    assert(chain(outer, end, 1, expr) == Some((expr, end)));
    assert(operand(outer, 0, 1) == Some((expr, end)));
    assert(chain(outer, end, 0, expr) == Some((expr, end)));
    assert(operand(outer, 0, 0) == Some((expr, end)));
}

} // verus!
