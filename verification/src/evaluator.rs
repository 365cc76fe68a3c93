//! The evaluator: reduces a postfix sequence on an operand stack.

use crate::lexer::{Lexem, Operator};
use crate::{Error, Failure};
use vstd::prelude::*;

verus! {

/// An expression as a tree: what a sequence of items means before any
/// arithmetic is done.
pub ghost enum Expr<V> {
    Value(V),
    Binary(Operator, Box<Expr<V>>, Box<Expr<V>>),
}

/// `value` is a possible value of the expression when `apply` does the arithmetic.
pub open spec fn denotes<V, A: Fn(Operator, V, V) -> V>(apply: A, expr: Expr<V>, value: V) -> bool
    decreases expr,
{
    match expr {
        Expr::Value(number) => value == number,
        Expr::Binary(op, left, right) => exists|a: V, b: V|
            denotes(apply, *left, a) && denotes(apply, *right, b) && apply.ensures(
                (op, a, b),
                value,
            ),
    }
}

/// One item arrives at a stack of operands: a number is pushed, an operator
/// replaces the two operands on top by their combination, the upper one on
/// the right. Nothing else can be reduced.
pub open spec fn reduce<V>(stack: Seq<Expr<V>>, item: Lexem<V>) -> Option<Seq<Expr<V>>> {
    match item {
        Lexem::Number(number) => Some(stack.push(Expr::Value(number))),
        Lexem::Operator(op) => if stack.len() >= 2 {
            Some(
                stack.drop_last().drop_last().push(
                    Expr::Binary(
                        op,
                        Box::new(stack[stack.len() - 2]),
                        Box::new(stack[stack.len() - 1]),
                    ),
                ),
            )
        } else {
            None
        },
        _ => None,
    }
}

/// The stack of operands after the first `n` items, or `None` where one of
/// them could not be reduced.
pub open spec fn reduction<V>(postfix: Seq<Lexem<V>>, n: int) -> Option<Seq<Expr<V>>>
    decreases n,
{
    if n <= 0 || n > postfix.len() {
        Some(Seq::empty())
    } else {
        match reduction(postfix, n - 1) {
            Some(stack) => reduce(stack, postfix[n - 1]),
            None => None,
        }
    }
}

/// The expression that a postfix sequence stands for: the top of the stack
/// once every item has been reduced.
pub open spec fn meaning<V>(postfix: Seq<Lexem<V>>) -> Option<Expr<V>> {
    match reduction(postfix, postfix.len() as int) {
        Some(stack) => if stack.len() > 0 {
            Some(stack.last())
        } else {
            None
        },
        None => None,
    }
}

/// What evaluating a postfix sequence may give when `apply` does the
/// arithmetic: a value of the expression it stands for, or `EvalError`
/// exactly where it stands for none.
pub open spec fn evaluates<V, A: Fn(Operator, V, V) -> V>(
    apply: A,
    postfix: Seq<Lexem<V>>,
    outcome: Result<V, Failure>,
) -> bool {
    match outcome {
        Ok(value) => meaning(postfix) matches Some(expr) && denotes(apply, expr, value),
        Err(error) => error == Failure::EvalError && meaning(postfix) is None,
    }
}

/// The mathematical content of a result whose error is an [`Error`].
pub open spec fn outcome_of<V>(result: Result<V, Error>) -> Result<V, Failure> {
    match result {
        Ok(value) => Ok(value),
        Err(error) => Err(error@),
    }
}

/// A sequence that cannot be reduced up to some item cannot be reduced further.
pub proof fn lemma_reduction_fails<V>(postfix: Seq<Lexem<V>>, n: int, m: int)
    requires
        0 <= n <= m <= postfix.len(),
        reduction(postfix, n) is None,
    ensures
        reduction(postfix, m) is None,
    decreases m - n,
{
    if n < m {
        lemma_reduction_fails(postfix, n, m - 1);
    }
}

/// Reduces a postfix sequence to a value. `apply` computes `a op b`.
/// Where several operands are left at the end, the last one is the result.
pub fn evaluate<V: Copy, A>(postfix: &Vec<Lexem<V>>, apply: A) -> (result: Result<V, Error>)
    where A: Fn(Operator, V, V) -> V
    requires
        forall|op: Operator, a: V, b: V| apply.requires((op, a, b)),
    ensures
        evaluates(apply, postfix@, outcome_of(result)),
{
    let mut stack: Vec<V> = Vec::new();
    let ghost mut exprs: Seq<Expr<V>> = Seq::empty();
    let mut i: usize = 0;

    while i < postfix.len()
        invariant
            i <= postfix.len(),
            forall|op: Operator, a: V, b: V| apply.requires((op, a, b)),
            reduction(postfix@, i as int) == Some(exprs),
            stack.len() == exprs.len(),
            forall|j: int| 0 <= j < stack.len() ==> denotes(apply, exprs[j], #[trigger] stack[j]),
        decreases postfix.len() - i,
    {
        proof {
            if reduce(exprs, postfix[i as int]) is None {
                assert(reduction(postfix@, i + 1) is None);
                lemma_reduction_fails(postfix@, i + 1, postfix.len() as int);
            }
        }
        match postfix[i] {
            Lexem::Number(num) => {
                stack.push(num);
                proof {
                    exprs = exprs.push(Expr::Value(num));
                }
            },
            Lexem::Operator(op) => {
                let b = match stack.pop() {
                    Some(b) => b,
                    None => {
                        return Err(Error::EvalError);
                    },
                };
                let a = match stack.pop() {
                    Some(a) => a,
                    None => {
                        return Err(Error::EvalError);
                    },
                };
                let value = apply(op, a, b);
                stack.push(value);
                proof {
                    let left = exprs[exprs.len() - 2];
                    let right = exprs[exprs.len() - 1];
                    let combined = Expr::Binary(op, Box::new(left), Box::new(right));
                    assert(denotes(apply, left, a));
                    assert(denotes(apply, right, b));
                    assert(denotes(apply, combined, value));
                    exprs = exprs.drop_last().drop_last().push(combined);
                }
            },
            Lexem::ParOpen => {
                return Err(Error::EvalError);
            },
            Lexem::ParClose => {
                return Err(Error::EvalError);
            },
        }
        i += 1;
    }

    if stack.len() == 0 {
        Err(Error::EvalError)
    } else {
        Ok(stack[stack.len() - 1])
    }
}

} // verus!
