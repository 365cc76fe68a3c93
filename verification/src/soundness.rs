//! Why the postfix converter is right: on every sequence that the grammar
//! reads, it writes the postfix notation of the expression read.

use crate::evaluator::{meaning, reduce, reduction, Expr};
use crate::grammar::{atom, chain, operand, postfix_of, reading, top_level};
use crate::lexer::{Lexem, Operator};
use crate::postfix::{shunt, to_postfix, Yard};
use vstd::prelude::*;

verus! {

/// The item is an operator of at least the rank `level`.
pub open spec fn binds<V>(item: Lexem<V>, level: nat) -> bool {
    match item {
        Lexem::Operator(op) => op.rank() >= level,
        _ => false,
    }
}

/// Between `before` and `after` the converter has taken in the expression
/// `expr`: the stack has grown by operators of at least the rank `level`,
/// and once they are moved out, the output has grown by the postfix
/// notation of `expr`.
pub open spec fn holds_back<V>(before: Yard<V>, after: Yard<V>, level: nat, expr: Expr<V>) -> bool {
    let base = before.stack.len() as int;
    let held = after.stack.skip(base);
    &&& base <= after.stack.len()
    &&& after.stack.take(base) == before.stack
    &&& forall|i: int| 0 <= i < held.len() ==> binds(#[trigger] held[i], level)
    &&& after.output + held.reverse() == before.output + postfix_of(expr)
}

/// An operator of rank `rank` moves out all that stands above `base`, where
/// that is operators of at least its rank on something that is none.
pub proof fn lemma_pop_operators<V>(yard: Yard<V>, base: int, rank: nat)
    requires
        0 <= base <= yard.stack.len(),
        forall|i: int| base <= i < yard.stack.len() ==> binds(#[trigger] yard.stack[i], rank),
        base == 0 || !binds(yard.stack[base - 1], rank),
    ensures
        yard.pop_operators(rank) == (Yard {
            output: yard.output + yard.stack.skip(base).reverse(),
            stack: yard.stack.take(base),
        }),
    decreases yard.stack.len() - base,
{
    if base < yard.stack.len() {
        let next = yard.pop();
        assert(binds(yard.stack[yard.stack.len() - 1], rank));
        assert forall|i: int| base <= i < next.stack.len() implies binds(
            #[trigger] next.stack[i],
            rank,
        ) by {
            assert(next.stack[i] == yard.stack[i]);
        }
        lemma_pop_operators(next, base, rank);
        assert(next.stack.take(base) =~= yard.stack.take(base));
        assert(next.output + next.stack.skip(base).reverse() =~= yard.output + yard.stack.skip(
            base,
        ).reverse());
    } else {
        assert(yard.stack.take(base) =~= yard.stack);
        assert(yard.output + yard.stack.skip(base).reverse() =~= yard.output);
    }
}

/// A close parenthesis moves out the operators above the open parenthesis
/// at `base`, and drops that parenthesis.
pub proof fn lemma_pop_group<V>(yard: Yard<V>, base: int)
    requires
        0 <= base < yard.stack.len(),
        yard.stack[base] is ParOpen,
        forall|i: int| base < i < yard.stack.len() ==> binds(#[trigger] yard.stack[i], 0),
    ensures
        yard.pop_group() == (Yard {
            output: yard.output + yard.stack.skip(base + 1).reverse(),
            stack: yard.stack.take(base),
        }),
    decreases yard.stack.len() - base,
{
    if base + 1 < yard.stack.len() {
        let next = yard.pop();
        assert(binds(yard.stack[yard.stack.len() - 1], 0));
        assert forall|i: int| base < i < next.stack.len() implies binds(
            #[trigger] next.stack[i],
            0,
        ) by {
            assert(next.stack[i] == yard.stack[i]);
        }
        lemma_pop_group(next, base);
        assert(next.stack.take(base) =~= yard.stack.take(base));
        assert(next.output + next.stack.skip(base + 1).reverse() =~= yard.output
            + yard.stack.skip(base + 1).reverse());
    } else {
        assert(yard.stack.drop_last() =~= yard.stack.take(base));
        assert(yard.output + yard.stack.skip(base + 1).reverse() =~= yard.output);
    }
}

/// What the converter does with a number or a parenthesis that the grammar reads.
pub proof fn lemma_shunt_atom<V>(items: Seq<Lexem<V>>, pos: int)
    requires
        atom(items, pos) is Some,
    ensures
        ({
            let (expr, next) = atom(items, pos)->0;
            &&& 0 <= pos < next <= items.len()
            &&& holds_back(shunt(items, pos), shunt(items, next), top_level(), expr)
        }),
    decreases items.len() - pos, 0nat,
{
    let before = shunt(items, pos);
    let (expr, next) = atom(items, pos)->0;
    match items[pos] {
        Lexem::Number(number) => {
            let after = shunt(items, pos + 1);
            assert(after == before.place(items[pos]));
            assert(after.stack.take(before.stack.len() as int) =~= before.stack);
            assert(after.stack.skip(before.stack.len() as int) =~= Seq::empty());
            assert(after.output + after.stack.skip(before.stack.len() as int).reverse()
                =~= before.output + postfix_of(expr));
        },
        Lexem::ParOpen => {
            let opened = shunt(items, pos + 1);
            assert(opened == before.place(items[pos]));
            lemma_shunt_operand(items, pos + 1, 0);
            let (within, inner) = operand(items, pos + 1, 0)->0;
            let inside = shunt(items, inner);
            let base = before.stack.len() as int;
            assert(next == inner + 1);
            assert(inside.stack.take(base + 1) == opened.stack);
            assert(inside.stack[base] == opened.stack[base]);
            assert forall|i: int| base < i < inside.stack.len() implies binds(
                #[trigger] inside.stack[i],
                0,
            ) by {
                assert(inside.stack[i] == inside.stack.skip(base + 1)[i - base - 1]);
            }
            lemma_pop_group(inside, base);
            let after = shunt(items, next);
            assert(after == inside.place(items[inner]));
            assert(inside.stack.take(base) =~= inside.stack.take(base + 1).take(base));
            assert(after.stack =~= before.stack);
            assert(after.stack.take(base) =~= before.stack);
            assert(after.stack.skip(base) =~= Seq::empty());
            assert(after.output + after.stack.skip(base).reverse() =~= before.output + postfix_of(
                expr,
            ));
        },
        _ => {},
    }
}

/// What the converter does with an expression that the grammar reads at
/// `level`, where nothing on the stack binds as tightly as `level`.
pub proof fn lemma_shunt_operand<V>(items: Seq<Lexem<V>>, pos: int, level: nat)
    requires
        operand(items, pos, level) is Some,
        !shunt(items, pos).top_binds(level),
    ensures
        ({
            let (expr, next) = operand(items, pos, level)->0;
            &&& 0 <= pos < next <= items.len()
            &&& holds_back(shunt(items, pos), shunt(items, next), level, expr)
        }),
    decreases items.len() - pos, (if level >= top_level() {
            1nat
        } else {
            (4 - level) as nat
        }),
{
    if level >= top_level() {
        lemma_shunt_atom(items, pos);
        let (expr, next) = atom(items, pos)->0;
        let before = shunt(items, pos);
        let after = shunt(items, next);
        assert(after.stack.skip(before.stack.len() as int).len() == 0) by {
            let held = after.stack.skip(before.stack.len() as int);
            if held.len() > 0 {
                assert(binds(held[0], top_level()));
            }
        }
    } else {
        lemma_shunt_operand(items, pos, level + 1);
        let (left, next) = operand(items, pos, level + 1)->0;
        let before = shunt(items, pos);
        let after = shunt(items, next);
        let held = after.stack.skip(before.stack.len() as int);
        assert forall|i: int| 0 <= i < held.len() implies binds(#[trigger] held[i], level) by {
            assert(binds(held[i], level + 1));
        }
        lemma_shunt_chain(items, pos, next, level, left);
    }
}

/// What the converter does with the rest of a chain, once it has taken in
/// what stands left of `pos`.
pub proof fn lemma_shunt_chain<V>(
    items: Seq<Lexem<V>>,
    start: int,
    pos: int,
    level: nat,
    left: Expr<V>,
)
    requires
        0 <= start < pos <= items.len(),
        level < top_level(),
        !shunt(items, start).top_binds(level),
        holds_back(shunt(items, start), shunt(items, pos), level, left),
        chain(items, pos, level, left) is Some,
    ensures
        ({
            let (expr, next) = chain(items, pos, level, left)->0;
            &&& pos <= next <= items.len()
            &&& holds_back(shunt(items, start), shunt(items, next), level, expr)
        }),
    decreases items.len() - pos, 0nat,
{
    if pos < items.len() {
        match items[pos] {
            Lexem::Operator(op) => {
                if op.rank() == level {
                    let before = shunt(items, start);
                    let reached = shunt(items, pos);
                    let base = before.stack.len() as int;
                    let held = reached.stack.skip(base);
                    assert forall|i: int| base <= i < reached.stack.len() implies binds(
                        #[trigger] reached.stack[i],
                        level,
                    ) by {
                        assert(reached.stack[i] == held[i - base]);
                    }
                    if base > 0 {
                        assert(reached.stack[base - 1] == reached.stack.take(base)[base - 1]);
                    }
                    lemma_pop_operators(reached, base, level);
                    let pushed = shunt(items, pos + 1);
                    assert(pushed == reached.place(items[pos]));
                    assert(pushed.output == before.output + postfix_of(left));
                    assert(pushed.stack == before.stack.push(items[pos]));
                    assert(!pushed.top_binds(level + 1));
                    lemma_shunt_operand(items, pos + 1, level + 1);
                    let (right, next) = operand(items, pos + 1, level + 1)->0;
                    let after = shunt(items, next);
                    let combined = Expr::Binary(op, Box::new(left), Box::new(right));
                    let above = after.stack.skip(base + 1);
                    let all = after.stack.skip(base);
                    assert(after.stack.take(base + 1) == pushed.stack);
                    assert(after.stack.take(base) =~= after.stack.take(base + 1).take(base));
                    assert(after.stack.take(base) =~= before.stack);
                    assert(all[0] == after.stack.take(base + 1)[base]);
                    assert forall|i: int| 0 <= i < all.len() implies binds(
                        #[trigger] all[i],
                        level,
                    ) by {
                        if i > 0 {
                            assert(all[i] == above[i - 1]);
                            assert(binds(above[i - 1], level + 1));
                        }
                    }
                    assert(all.reverse() =~= above.reverse().push(items[pos]));
                    assert(after.output + all.reverse() =~= (after.output + above.reverse()).push(
                        items[pos],
                    ));
                    assert(before.output + postfix_of(combined) =~= (before.output + postfix_of(
                        left,
                    ) + postfix_of(right)).push(items[pos]));
                    assert(holds_back(before, after, level, combined));
                    lemma_shunt_chain(items, start, next, level, combined);
                }
            },
            _ => {},
        }
    }
}

/// The postfix form of a sequence that the grammar reads is the postfix
/// notation of the expression read.
pub proof fn lemma_to_postfix<V>(items: Seq<Lexem<V>>)
    requires
        reading(items) is Some,
    ensures
        to_postfix(items) == postfix_of(reading(items)->0),
{
    let empty = shunt(items, 0);
    lemma_shunt_operand(items, 0, 0);
    let last = shunt(items, items.len() as int);
    assert(last.stack.skip(0) =~= last.stack);
    assert(empty.output + postfix_of(reading(items)->0) =~= postfix_of(reading(items)->0));
}

/// Reducing the postfix notation of an expression puts that expression on the stack.
pub proof fn lemma_reduction<V>(
    postfix: Seq<Lexem<V>>,
    from: int,
    expr: Expr<V>,
    stack: Seq<Expr<V>>,
)
    requires
        0 <= from,
        from + postfix_of(expr).len() <= postfix.len(),
        forall|i: int|
            0 <= i < postfix_of(expr).len() ==> postfix[from + i] == #[trigger] postfix_of(expr)[i],
        reduction(postfix, from) == Some(stack),
    ensures
        reduction(postfix, from + postfix_of(expr).len()) == Some(stack.push(expr)),
    decreases expr,
{
    match expr {
        Expr::Value(number) => {
            assert(postfix[from + 0] == postfix_of(expr)[0]);
        },
        Expr::Binary(op, left, right) => {
            let first = postfix_of(*left);
            let second = postfix_of(*right);
            let whole = postfix_of(expr);
            assert(whole.len() == first.len() + second.len() + 1);
            assert forall|i: int| 0 <= i < first.len() implies postfix[from + i]
                == #[trigger] first[i] by {
                assert(whole[i] == first[i]);
            }
            lemma_reduction(postfix, from, *left, stack);
            let mid = from + first.len();
            assert forall|i: int| 0 <= i < second.len() implies postfix[mid + i]
                == #[trigger] second[i] by {
                assert(whole[first.len() + i] == second[i]);
            }
            lemma_reduction(postfix, mid, *right, stack.push(*left));
            let end = mid + second.len();
            assert(postfix[from + (whole.len() - 1)] == whole[whole.len() - 1]);
            let operands = stack.push(*left).push(*right);
            assert(reduction(postfix, end + 1) == reduce(operands, postfix[end]));
            assert(operands.drop_last().drop_last() =~= stack);
        },
    }
}

/// The postfix notation of an expression means that expression: reducing it
/// leaves that expression on the stack, and nothing else.
pub proof fn lemma_meaning<V>(expr: Expr<V>)
    ensures
        reduction(postfix_of(expr), postfix_of(expr).len() as int) == Some(seq![expr]),
        meaning(postfix_of(expr)) == Some(expr),
{
    lemma_reduction(postfix_of(expr), 0, expr, Seq::empty());
    assert(Seq::<Expr<V>>::empty().push(expr) =~= seq![expr]);
}

} // verus!
