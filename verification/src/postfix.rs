//! The postfix converter: the shunting-yard algorithm over lexical items.

use crate::lexer::{Lexem, Operator};
use vstd::prelude::*;

verus! {

/// The converter at work: what has been written out, and the operators and
/// open parentheses that wait, the last of them on top.
pub ghost struct Yard<V> {
    pub output: Seq<Lexem<V>>,
    pub stack: Seq<Lexem<V>>,
}

impl<V> Yard<V> {
    pub open spec fn empty() -> Yard<V> {
        Yard { output: Seq::empty(), stack: Seq::empty() }
    }

    /// Moves the top of the stack to the output.
    pub open spec fn pop(self) -> Yard<V> {
        Yard { output: self.output.push(self.stack.last()), stack: self.stack.drop_last() }
    }

    /// Whether an operator is on top that binds at least as tightly as `rank`.
    pub open spec fn top_binds(self, rank: nat) -> bool {
        self.stack.len() > 0 && match self.stack.last() {
            Lexem::Operator(top) => top.rank() >= rank,
            _ => false,
        }
    }

    /// Moves operators to the output for as long as the top binds at least as tightly as `rank`.
    pub open spec fn pop_operators(self, rank: nat) -> Yard<V>
        decreases self.stack.len(),
    {
        if self.top_binds(rank) {
            self.pop().pop_operators(rank)
        } else {
            self
        }
    }

    /// Moves the stack to the output down to the nearest open parenthesis,
    /// which is dropped; the whole stack where there is none.
    pub open spec fn pop_group(self) -> Yard<V>
        decreases self.stack.len(),
    {
        if self.stack.len() == 0 {
            self
        } else if self.stack.last() is ParOpen {
            Yard { output: self.output, stack: self.stack.drop_last() }
        } else {
            self.pop().pop_group()
        }
    }

    /// One item arrives.
    pub open spec fn place(self, item: Lexem<V>) -> Yard<V> {
        match item {
            Lexem::Number(_) => Yard { output: self.output.push(item), stack: self.stack },
            Lexem::Operator(op) => {
                let popped = self.pop_operators(op.rank());
                Yard { output: popped.output, stack: popped.stack.push(item) }
            },
            Lexem::ParOpen => Yard { output: self.output, stack: self.stack.push(item) },
            Lexem::ParClose => self.pop_group(),
        }
    }

    /// The output once all that waits has been moved to it, the top first.
    pub open spec fn flush(self) -> Seq<Lexem<V>> {
        self.output + self.stack.reverse()
    }
}

/// The converter after the first `n` items.
pub open spec fn shunt<V>(items: Seq<Lexem<V>>, n: int) -> Yard<V>
    decreases n,
{
    if n <= 0 || n > items.len() {
        Yard::empty()
    } else {
        shunt(items, n - 1).place(items[n - 1])
    }
}

/// The postfix form of an infix sequence.
pub open spec fn to_postfix<V>(items: Seq<Lexem<V>>) -> Seq<Lexem<V>> {
    shunt(items, items.len() as int).flush()
}

/// Reorders an infix sequence into postfix. Operators of equal rank leave
/// the stack before a new one enters, so every operator associates to the
/// left.
pub fn postfix_repr<V: Copy>(infix: &Vec<Lexem<V>>) -> (postfix: Vec<Lexem<V>>)
    ensures
        postfix@ == to_postfix(infix@),
{
    let mut postfix: Vec<Lexem<V>> = Vec::new();
    let mut stack: Vec<Lexem<V>> = Vec::new();
    let mut i: usize = 0;

    while i < infix.len()
        invariant
            i <= infix.len(),
            (Yard { output: postfix@, stack: stack@ }) == shunt(infix@, i as int),
        decreases infix.len() - i,
    {
        let lexem = infix[i];
        let ghost before = Yard { output: postfix@, stack: stack@ };
        match lexem {
            Lexem::Number(_) => {
                postfix.push(lexem);
            },
            Lexem::Operator(op) => {
                while stack.len() > 0
                    invariant
                        (Yard { output: postfix@, stack: stack@ }).pop_operators(op.rank())
                            == before.pop_operators(op.rank()),
                    ensures
                        (Yard { output: postfix@, stack: stack@ }) == before.pop_operators(
                            op.rank(),
                        ),
                    decreases stack.len(),
                {
                    match stack[stack.len() - 1] {
                        Lexem::Operator(cur) => {
                            if cur.priority() >= op.priority() {
                                let top = stack.pop().unwrap();
                                postfix.push(top);
                            } else {
                                break ;
                            }
                        },
                        _ => {
                            break ;
                        },
                    }
                }
                stack.push(lexem);
            },
            Lexem::ParOpen => {
                stack.push(lexem);
            },
            Lexem::ParClose => {
                while stack.len() > 0
                    invariant_except_break
                        (Yard { output: postfix@, stack: stack@ }).pop_group()
                            == before.pop_group(),
                    ensures
                        (Yard { output: postfix@, stack: stack@ }) == before.pop_group(),
                    decreases stack.len(),
                {
                    let ghost here = Yard { output: postfix@, stack: stack@ };
                    let top = stack.pop().unwrap();
                    match top {
                        Lexem::ParOpen => {
                            assert(here.pop_group() == (Yard { output: postfix@, stack: stack@ }));
                            break ;
                        },
                        _ => {
                            postfix.push(top);
                        },
                    }
                }
            },
        }
        i += 1;
    }

    let ghost last = Yard { output: postfix@, stack: stack@ };
    while stack.len() > 0
        invariant
            (Yard { output: postfix@, stack: stack@ }).flush() == last.flush(),
        decreases stack.len(),
    {
        let ghost here = Yard { output: postfix@, stack: stack@ };
        let top = stack.pop().unwrap();
        postfix.push(top);
        assert((Yard { output: postfix@, stack: stack@ }).flush() =~= here.flush());
    }
    assert(postfix@ =~= (Yard { output: postfix@, stack: stack@ }).flush());
    postfix
}

} // verus!
