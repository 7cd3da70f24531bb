//! The conversion from infix to postfix order: what it computes, as a
//! function on token sequences, and the run of pops that it is built from.

use crate::re::Op;
use vstd::prelude::*;

verus! {

/// The state of the conversion between two tokens.
pub struct Yard {
    /// The operator stack, its top last.
    pub stack: Seq<Op>,
    /// The postfix output so far.
    pub output: Seq<Op>,
}

/// Whether `top`, found on top of the operator stack, leaves it for the
/// output before `incoming` is dealt with. An open group never does; any
/// other token does when it binds at least as tightly as `incoming`.
pub open spec fn yields_to(top: Op, incoming: Op) -> bool {
    !(top is Leftparen) && top.precedence() >= incoming.precedence()
}

/// How many tokens leave the top of `stack` when `incoming` arrives: the
/// length of the longest run, from the top down, of tokens that yield to it.
pub open spec fn pop_run(stack: Seq<Op>, incoming: Op) -> nat
    decreases stack.len(),
{
    if stack.len() > 0 && yields_to(stack.last(), incoming) {
        1 + pop_run(stack.drop_last(), incoming)
    } else {
        0
    }
}

/// The top `n` tokens of `stack` in the order in which they are popped.
pub open spec fn popped(stack: Seq<Op>, n: nat) -> Seq<Op>
    recommends
        n <= stack.len(),
{
    Seq::new(n, |i: int| stack[stack.len() - 1 - i])
}

/// The state after one more token, or `None` where the token closes a group
/// that no token on the stack opens.
pub open spec fn yard_step(y: Yard, op: Op) -> Option<Yard> {
    let n = pop_run(y.stack, op);
    let rest = y.stack.take(y.stack.len() - n);
    let output = y.output + popped(y.stack, n);
    match op {
        Op::Word(_) => Some(Yard { stack: y.stack, output: y.output.push(op) }),
        Op::Leftparen => Some(Yard { stack: y.stack.push(op), output: y.output }),
        Op::Rightparen => if rest.len() == 0 {
            None
        } else {
            Some(Yard { stack: rest.drop_last(), output })
        },
        _ => Some(Yard { stack: rest.push(op), output }),
    }
}

/// The state after all of `tokens`, starting from an empty stack and an
/// empty output.
pub open spec fn yard_after(tokens: Seq<Op>) -> Option<Yard>
    decreases tokens.len(),
{
    if tokens.len() == 0 {
        Some(Yard { stack: Seq::empty(), output: Seq::empty() })
    } else {
        match yard_after(tokens.drop_last()) {
            None => None,
            Some(y) => yard_step(y, tokens.last()),
        }
    }
}

/// The postfix form of an infix token sequence: the output after the last
/// token, followed by what is left on the stack in pop order. `None` where a
/// group is closed that was not opened, or is opened and never closed.
pub open spec fn to_postfix(tokens: Seq<Op>) -> Option<Seq<Op>> {
    match yard_after(tokens) {
        None => None,
        Some(y) => if y.stack.contains(Op::Leftparen) {
            None
        } else {
            Some(y.output + popped(y.stack, y.stack.len()))
        },
    }
}

/// Whether a token is one of the three operators.
pub open spec fn is_operator(op: Op) -> bool {
    op is Alter || op is Concat || op is Dupstar
}

/// What the conversion keeps true of its state: the stack holds operators
/// and open groups, the output literals and operators.
pub open spec fn tidy(y: Yard) -> bool {
    &&& forall|k: int|
        0 <= k < y.stack.len() ==> is_operator(#[trigger] y.stack[k]) || y.stack[k] is Leftparen
    &&& forall|k: int|
        0 <= k < y.output.len() ==> is_operator(#[trigger] y.output[k]) || y.output[k] is Word
}

/// The top of the stack down to where the run of pops ends holds no open
/// group.
pub proof fn lemma_pop_run_bound(stack: Seq<Op>, incoming: Op)
    ensures
        pop_run(stack, incoming) <= stack.len(),
        forall|k: int|
            stack.len() - pop_run(stack, incoming) <= k < stack.len() ==> !((
            #[trigger] stack[k]) is Leftparen),
    decreases stack.len(),
{
    if stack.len() > 0 && yields_to(stack.last(), incoming) {
        lemma_pop_run_bound(stack.drop_last(), incoming);
        assert forall|k: int|
            stack.len() - pop_run(stack, incoming) <= k < stack.len() implies !((
        #[trigger] stack[k]) is Leftparen) by {
            if k < stack.len() - 1 {
                assert(stack.drop_last()[k] == stack[k]);
            }
        }
    }
}

/// The state after any tokens is tidy.
pub proof fn lemma_yard_tidy(tokens: Seq<Op>)
    ensures
        yard_after(tokens) matches Some(y) ==> tidy(y),
    decreases tokens.len(),
{
    if tokens.len() > 0 {
        lemma_yard_tidy(tokens.drop_last());
        if let Some(y) = yard_after(tokens.drop_last()) {
            lemma_pop_run_bound(y.stack, tokens.last());
        }
    }
}

/// Parentheses group and leave no trace: the postfix form of a token
/// sequence holds literals and operators only.
pub proof fn lemma_postfix_has_no_group(tokens: Seq<Op>)
    ensures
        to_postfix(tokens) matches Some(postfix) ==> forall|k: int|
            0 <= k < postfix.len() ==> is_operator(#[trigger] postfix[k]) || postfix[k] is Word,
{
    lemma_yard_tidy(tokens);
    if let Some(postfix) = to_postfix(tokens) {
        let y = yard_after(tokens).unwrap();
        assert forall|k: int| 0 <= k < postfix.len() implies is_operator(#[trigger] postfix[k])
            || postfix[k] is Word by {
            if k >= y.output.len() {
                let j = y.stack.len() - 1 - (k - y.output.len());
                assert(postfix[k] == y.stack[j]);
                assert(!(y.stack[j] is Leftparen)) by {
                    if y.stack[j] is Leftparen {
                        assert(y.stack[j] == Op::Leftparen);
                        assert(y.stack.contains(Op::Leftparen));
                    }
                }
            }
        }
    }
}

/// Once the conversion has failed on a prefix it fails on the whole.
pub proof fn lemma_failure_is_final(tokens: Seq<Op>, i: int)
    requires
        0 <= i <= tokens.len(),
        yard_after(tokens.take(i)) is None,
    ensures
        yard_after(tokens) is None,
    decreases tokens.len() - i,
{
    if i < tokens.len() {
        assert(tokens.take(i + 1).drop_last() =~= tokens.take(i));
        lemma_failure_is_final(tokens, i + 1);
    } else {
        assert(tokens.take(i) =~= tokens);
    }
}

/// Moves from `stack` to `output` the tokens that yield to `incoming`.
pub fn pop_until(stack: &mut Vec<Op>, output: &mut Vec<Op>, incoming: Op)
    ensures
        final(stack)@ == old(stack)@.take(old(stack)@.len() - pop_run(old(stack)@, incoming)),
        final(output)@ == old(output)@ + popped(old(stack)@, pop_run(old(stack)@, incoming)),
{
    let ghost full = stack@;
    let ghost before = output@;
    let ghost mut k: nat = 0;
    let bound: u8 = incoming.rank();
    loop
        invariant
            k <= full.len(),
            bound == incoming.precedence(),
            stack@ == full.take(full.len() - k),
            output@ == before + popped(full, k),
            pop_run(full, incoming) == k + pop_run(stack@, incoming),
        ensures
            pop_run(stack@, incoming) == 0,
        decreases stack.len(),
    {
        let len = stack.len();
        if len == 0 {
            break;
        }
        let top = stack[len - 1];
        if matches!(top, Op::Leftparen) || top.rank() < bound {
            break;
        }
        stack.pop();
        output.push(top);
        proof {
            assert(full.take(full.len() - k).drop_last() =~= full.take(full.len() - (k + 1)));
            assert(popped(full, k).push(top) =~= popped(full, k + 1));
            assert((before + popped(full, k)).push(top) =~= before + popped(full, k + 1));
            k = k + 1;
        }
    }
}

} // verus!
