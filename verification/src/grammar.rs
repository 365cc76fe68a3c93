//! The grammar of lexical item sequences: which sequences are expressions,
//! and which expression each of them is.
//!
//! An expression is read by recursive descent. There is one level for each
//! operator rank; the operators of a level form a chain that associates to
//! the left, and a parenthesis starts again at the lowest level.

use crate::evaluator::Expr;
use crate::lexer::{Lexem, Operator};
use vstd::prelude::*;

verus! {

/// The level above every operator rank: that of a number or a parenthesis.
pub open spec fn top_level() -> nat {
    3
}

/// Reads a number, or an expression in parentheses, that starts at `pos`.
/// Gives what was read and the index behind it.
pub open spec fn atom<V>(items: Seq<Lexem<V>>, pos: int) -> Option<(Expr<V>, int)>
    decreases items.len() - pos, 0nat,
{
    if pos < 0 || pos >= items.len() {
        None
    } else {
        match items[pos] {
            Lexem::Number(number) => Some((Expr::Value(number), pos + 1)),
            Lexem::ParOpen => match operand(items, pos + 1, 0) {
                Some((inner, next)) => if 0 <= next < items.len() && items[next] is ParClose {
                    Some((inner, next + 1))
                } else {
                    None
                },
                None => None,
            },
            _ => None,
        }
    }
}

/// Reads, from `pos` on, the longest expression whose operators outside
/// parentheses all have at least the rank `level`.
pub open spec fn operand<V>(items: Seq<Lexem<V>>, pos: int, level: nat) -> Option<(Expr<V>, int)>
    decreases items.len() - pos, (if level >= top_level() {
            1nat
        } else {
            (4 - level) as nat
        }),
{
    if level >= top_level() {
        atom(items, pos)
    } else {
        match operand(items, pos, level + 1) {
            Some((left, next)) => if pos < next <= items.len() {
                chain(items, next, level, left)
            } else {
                None
            },
            None => None,
        }
    }
}

/// Continues `left` with the operators of rank `level` that follow at `pos`,
/// each with its right operand.
pub open spec fn chain<V>(items: Seq<Lexem<V>>, pos: int, level: nat, left: Expr<V>) -> Option<
    (Expr<V>, int),
>
    decreases items.len() - pos, 0nat,
{
    if 0 <= pos < items.len() {
        match items[pos] {
            Lexem::Operator(op) => if op.rank() == level {
                match operand(items, pos + 1, level + 1) {
                    Some((right, next)) => if pos < next <= items.len() {
                        chain(
                            items,
                            next,
                            level,
                            Expr::Binary(op, Box::new(left), Box::new(right)),
                        )
                    } else {
                        None
                    },
                    None => None,
                }
            } else {
                Some((left, pos))
            },
            _ => Some((left, pos)),
        }
    } else {
        Some((left, pos))
    }
}

/// The expression that the whole sequence is, if it is one.
pub open spec fn reading<V>(items: Seq<Lexem<V>>) -> Option<Expr<V>> {
    match operand(items, 0, 0) {
        Some((expr, next)) => if next == items.len() {
            Some(expr)
        } else {
            None
        },
        None => None,
    }
}

/// The postfix notation of an expression: the operands, then the operator.
pub open spec fn postfix_of<V>(expr: Expr<V>) -> Seq<Lexem<V>>
    decreases expr,
{
    match expr {
        Expr::Value(number) => seq![Lexem::Number(number)],
        Expr::Binary(op, left, right) => postfix_of(*left) + postfix_of(*right) + seq![
            Lexem::Operator(op),
        ],
    }
}

/// The item begins an operand.
pub open spec fn opens_operand<T>(item: Lexem<T>) -> bool {
    item is Number || item is ParOpen
}

/// The item ends an operand.
pub open spec fn closes_operand<T>(item: Lexem<T>) -> bool {
    item is Number || item is ParClose
}

/// `next` may stand right behind `item`: behind the end of an operand an
/// operator or a close parenthesis, behind anything else the beginning of
/// an operand.
pub open spec fn may_follow<T>(item: Lexem<T>, next: Lexem<T>) -> bool {
    if closes_operand(item) {
        next is Operator || next is ParClose
    } else {
        opens_operand(next)
    }
}

/// The parentheses that are open behind the first `n` items, less those
/// that were closed without having been opened.
pub open spec fn depth<T>(items: Seq<Lexem<T>>, n: int) -> int
    decreases n,
{
    if n <= 0 || n > items.len() {
        0
    } else {
        depth(items, n - 1) + match items[n - 1] {
            Lexem::ParOpen => 1int,
            Lexem::ParClose => -1int,
            _ => 0int,
        }
    }
}

/// The sequence begins with an operand, and each item may follow the one before it.
pub open spec fn chained<T>(items: Seq<Lexem<T>>) -> bool {
    &&& items.len() > 0 ==> opens_operand(items[0])
    &&& forall|i: int| 0 < i < items.len() ==> may_follow(items[i - 1], #[trigger] items[i])
}

/// No parenthesis among the first `n` items is closed before it was opened.
pub open spec fn nested<T>(items: Seq<Lexem<T>>, n: int) -> bool {
    forall|k: int| 0 <= k <= n ==> #[trigger] depth(items, k) >= 0
}

/// The sequence is well formed: every operator has an operand on each
/// side, the parentheses are balanced, and the sequence ends with an operand.
pub open spec fn well_formed<T>(items: Seq<Lexem<T>>) -> bool {
    &&& items.len() > 0
    &&& chained(items)
    &&& closes_operand(items.last())
    &&& nested(items, items.len() as int)
    &&& depth(items, items.len() as int) == 0
}

} // verus!
