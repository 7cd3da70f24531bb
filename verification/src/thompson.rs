//! Thompson's construction as a function from postfix token sequences to
//! automata, and what holds of the fragments while it runs.

use crate::automaton::{Automaton, Edge, Node, EPSILON};
use crate::error::CompileError;
use crate::re::{tokenize, Op};
use crate::yard::to_postfix;
use vstd::prelude::*;

verus! {

/// The number of fragments on the operand stack after `op`, given that
/// there were `depth` before it. `None` where `op` lacks an operand, or is
/// a parenthesis, which has no place in postfix order.
pub open spec fn depth_step(depth: nat, op: Op) -> Option<nat> {
    match op {
        Op::Word(_) => Some(depth + 1),
        Op::Dupstar => if depth >= 1 {
            Some(depth)
        } else {
            None
        },
        Op::Alter | Op::Concat => if depth >= 2 {
            Some((depth - 1) as nat)
        } else {
            None
        },
        Op::Leftparen | Op::Rightparen => None,
    }
}

/// The number of fragments on the operand stack after `postfix`, or `None`
/// where some token of it cannot be evaluated.
pub open spec fn depth_after(postfix: Seq<Op>) -> Option<nat>
    decreases postfix.len(),
{
    if postfix.len() == 0 {
        Some(0)
    } else {
        match depth_after(postfix.drop_last()) {
            None => None,
            Some(depth) => depth_step(depth, postfix.last()),
        }
    }
}

/// Whether `postfix` evaluates to exactly one fragment.
pub open spec fn well_formed(postfix: Seq<Op>) -> bool {
    depth_after(postfix) == Some(1nat)
}

/// Whether evaluating `op` makes two new nodes.
pub open spec fn allocates(op: Op) -> bool {
    op is Word || op is Dupstar || op is Alter
}

/// The number of tokens of `postfix` that make new nodes.
pub open spec fn allocations(postfix: Seq<Op>) -> nat
    decreases postfix.len(),
{
    if postfix.len() == 0 {
        0
    } else {
        allocations(postfix.drop_last()) + if allocates(postfix.last()) {
            1nat
        } else {
            0nat
        }
    }
}

/// The number of nodes that the automaton of `postfix` has.
pub open spec fn node_demand(postfix: Seq<Op>) -> nat {
    2 * allocations(postfix)
}

/// The state of the construction between two tokens.
pub struct Fragments {
    /// The nodes made so far.
    pub nodes: Seq<Node>,
    /// The operand stack, its top last: of each fragment the start node and
    /// the accept node.
    pub stack: Seq<(usize, usize)>,
}

/// The nodes with two more, which have no edges yet.
pub open spec fn grow(nodes: Seq<Node>) -> Seq<Node> {
    nodes.push(Node(None, None)).push(Node(None, None))
}

/// The nodes with one more edge, from `from` to `to`.
pub open spec fn link(nodes: Seq<Node>, from: usize, label: usize, to: usize) -> Seq<Node> {
    nodes.update(from as int, nodes[from as int].with_edge(Edge { label, out: to }))
}

/// The state after one more token.
pub open spec fn thompson_step(f: Fragments, op: Op) -> Fragments {
    let s = f.nodes.len() as usize;
    let a = (f.nodes.len() + 1) as usize;
    let top = f.stack.last();
    let below = f.stack[f.stack.len() - 2];
    match op {
        Op::Word(c) => Fragments {
            nodes: link(grow(f.nodes), s, c as usize, a),
            stack: f.stack.push((s, a)),
        },
        Op::Dupstar => Fragments {
            nodes: link(
                link(
                    link(link(grow(f.nodes), top.1, EPSILON, top.0), s, EPSILON, top.0),
                    top.1,
                    EPSILON,
                    a,
                ),
                s,
                EPSILON,
                a,
            ),
            stack: f.stack.drop_last().push((s, a)),
        },
        Op::Alter => Fragments {
            nodes: link(
                link(
                    link(link(grow(f.nodes), s, EPSILON, below.0), s, EPSILON, top.0),
                    below.1,
                    EPSILON,
                    a,
                ),
                top.1,
                EPSILON,
                a,
            ),
            stack: f.stack.drop_last().drop_last().push((s, a)),
        },
        Op::Concat => Fragments {
            nodes: link(f.nodes, below.1, EPSILON, top.0),
            stack: f.stack.drop_last().drop_last().push((below.0, top.1)),
        },
        Op::Leftparen | Op::Rightparen => f,
    }
}

/// The state after all of `postfix`, starting without nodes or fragments.
pub open spec fn fragments_after(postfix: Seq<Op>) -> Fragments
    decreases postfix.len(),
{
    if postfix.len() == 0 {
        Fragments { nodes: Seq::empty(), stack: Seq::empty() }
    } else {
        thompson_step(fragments_after(postfix.drop_last()), postfix.last())
    }
}

/// The automaton of a well-formed postfix sequence: the nodes made, with
/// the start and accept nodes of the one fragment that is left.
pub open spec fn thompson(postfix: Seq<Op>) -> Automaton {
    let f = fragments_after(postfix);
    Automaton { nodes: f.nodes, start: f.stack.last().0 as int, accept: f.stack.last().1 as int }
}

/// What building an automaton from `postfix` results in: a syntax error
/// where `postfix` does not evaluate to one fragment; if it does, a
/// capacity error where that takes more than 64 nodes.
pub open spec fn compile_postfix(postfix: Seq<Op>) -> Result<Automaton, CompileError> {
    if !well_formed(postfix) {
        Err(CompileError::SyntaxError)
    } else if node_demand(postfix) > 64 {
        Err(CompileError::CapacityError)
    } else {
        Ok(thompson(postfix))
    }
}

/// What compiling a pattern, given as bytes, results in.
pub open spec fn compile(pattern: Seq<u8>) -> Result<Automaton, CompileError> {
    match to_postfix(tokenize(pattern)) {
        None => Err(CompileError::SyntaxError),
        Some(postfix) => compile_postfix(postfix),
    }
}

/// What the construction keeps true of its state: edges lead to nodes that
/// exist, and the fragments on the stack have accept nodes that differ
/// from one another and have no edge yet.
pub open spec fn sound(f: Fragments) -> bool {
    &&& f.nodes.len() <= usize::MAX - 2
    &&& forall|i: int|
        0 <= i < f.nodes.len() ==> (#[trigger] f.nodes[i]).edges_within(f.nodes.len() as int)
    &&& forall|k: int|
        0 <= k < f.stack.len() ==> {
            &&& (#[trigger] f.stack[k]).0 < f.nodes.len()
            &&& f.stack[k].1 < f.nodes.len()
            &&& f.nodes[f.stack[k].1 as int] == Node(None, None)
        }
    &&& forall|k: int, l: int|
        0 <= k < l < f.stack.len() ==> (#[trigger] f.stack[k]).1 != (#[trigger] f.stack[l]).1
}

/// One token that can be evaluated keeps the state sound.
pub proof fn lemma_step_sound(f: Fragments, op: Op)
    requires
        sound(f),
        depth_step(f.stack.len(), op) is Some,
        allocates(op) ==> f.nodes.len() + 2 <= usize::MAX - 2,
    ensures
        sound(thompson_step(f, op)),
        thompson_step(f, op).stack.len() == depth_step(f.stack.len(), op).unwrap(),
        thompson_step(f, op).nodes.len() == f.nodes.len() + if allocates(op) {
            2int
        } else {
            0int
        },
{
    if op is Alter || op is Concat {
        // The two fragments on top of the stack end in different nodes.
        assert(f.stack[f.stack.len() - 1].1 != f.stack[f.stack.len() - 2].1);
    }
}

/// Where all of `postfix` can be evaluated, so can each of its prefixes.
pub proof fn lemma_prefix_evaluates(postfix: Seq<Op>, i: int)
    requires
        0 <= i <= postfix.len(),
        depth_after(postfix) is Some,
    ensures
        depth_after(postfix.take(i)) is Some,
        allocations(postfix.take(i)) <= allocations(postfix),
    decreases postfix.len() - i,
{
    if i < postfix.len() {
        assert(postfix.take(i + 1).drop_last() =~= postfix.take(i));
        lemma_prefix_evaluates(postfix, i + 1);
    } else {
        assert(postfix.take(i) =~= postfix);
    }
}

/// Where a prefix of `postfix` cannot be evaluated, neither can the whole.
pub proof fn lemma_failure_is_final(postfix: Seq<Op>, i: int)
    requires
        0 <= i <= postfix.len(),
        depth_after(postfix.take(i)) is None,
    ensures
        depth_after(postfix) is None,
{
    if depth_after(postfix) is Some {
        lemma_prefix_evaluates(postfix, i);
    }
}

/// After a sequence that can be evaluated the state is sound, with as many
/// fragments and nodes as the sequence's depth and demand say.
pub proof fn lemma_fragments_sound(postfix: Seq<Op>)
    requires
        depth_after(postfix) is Some,
        node_demand(postfix) <= usize::MAX - 2,
    ensures
        sound(fragments_after(postfix)),
        fragments_after(postfix).stack.len() == depth_after(postfix).unwrap(),
        fragments_after(postfix).nodes.len() == node_demand(postfix),
    decreases postfix.len(),
{
    if postfix.len() > 0 {
        lemma_fragments_sound(postfix.drop_last());
        lemma_step_sound(fragments_after(postfix.drop_last()), postfix.last());
    }
}

/// The automaton of a well-formed sequence that takes at most 64 nodes is
/// itself well formed, and its start and accept nodes are among its nodes.
pub proof fn lemma_thompson_wf(postfix: Seq<Op>)
    requires
        well_formed(postfix),
        node_demand(postfix) <= 64,
    ensures
        thompson(postfix).wf(),
        thompson(postfix).nodes.len() == node_demand(postfix),
        thompson(postfix).is_node(thompson(postfix).start),
        thompson(postfix).is_node(thompson(postfix).accept),
{
    lemma_fragments_sound(postfix);
    let f = fragments_after(postfix);
    assert(f.stack.last() == f.stack[0]);
}

/// Building from the postfix form that reading a pattern leaves, which is
/// empty where the tokens have no postfix order, is compiling the pattern.
pub proof fn lemma_compile_from_postfix(pattern: Seq<u8>)
    ensures
        compile(pattern) == compile_postfix(
            match to_postfix(tokenize(pattern)) {
                Some(postfix) => postfix,
                None => Seq::empty(),
            },
        ),
{
}

/// What compiling a pattern results in, case by case: an automaton that is
/// well formed and holds its start and accept nodes; a capacity error
/// exactly where the pattern is well formed and takes more than 64 nodes;
/// a syntax error exactly where it is not well formed.
pub proof fn lemma_compile_outcome(pattern: Seq<u8>)
    ensures
        match compile(pattern) {
            Ok(a) => {
                &&& a.wf()
                &&& a.is_node(a.start)
                &&& a.is_node(a.accept)
                &&& to_postfix(tokenize(pattern)) matches Some(postfix) && a.nodes.len()
                    == node_demand(postfix)
            },
            Err(CompileError::CapacityError) => {
                to_postfix(tokenize(pattern)) matches Some(postfix) && well_formed(postfix)
                    && node_demand(postfix) > 64
            },
            Err(CompileError::SyntaxError) => {
                to_postfix(tokenize(pattern)) matches Some(postfix) ==> !well_formed(postfix)
            },
        },
{
    if let Some(postfix) = to_postfix(tokenize(pattern)) {
        if well_formed(postfix) && node_demand(postfix) <= 64 {
            lemma_thompson_wf(postfix);
        }
    }
}

/// Says why no automaton can be built from `postfix`, or `None` where one
/// can: a syntax error where `postfix` is not well formed, else a capacity
/// error where it takes more than 64 nodes.
pub fn postfix_error(postfix: &Vec<Op>) -> (verdict: Option<CompileError>)
    ensures
        match verdict {
            None => compile_postfix(postfix@) is Ok,
            Some(e) => compile_postfix(postfix@) == Err::<Automaton, CompileError>(e),
        },
{
    let mut depth: usize = 0;
    let mut count: usize = 0;
    let mut i: usize = 0;
    while i < postfix.len()
        invariant
            i <= postfix.len(),
            depth <= i,
            count <= i,
            depth_after(postfix@.take(i as int)) == Some(depth as nat),
            allocations(postfix@.take(i as int)) == count,
        decreases postfix.len() - i,
    {
        proof {
            assert(postfix@.take(i + 1).drop_last() =~= postfix@.take(i as int));
        }
        match postfix[i] {
            Op::Word(_) => {
                depth = depth + 1;
                count = count + 1;
            },
            Op::Dupstar => {
                if depth < 1 {
                    proof {
                        lemma_failure_is_final(postfix@, i + 1);
                    }
                    return Some(CompileError::SyntaxError);
                }
                count = count + 1;
            },
            Op::Alter => {
                if depth < 2 {
                    proof {
                        lemma_failure_is_final(postfix@, i + 1);
                    }
                    return Some(CompileError::SyntaxError);
                }
                depth = depth - 1;
                count = count + 1;
            },
            Op::Concat => {
                if depth < 2 {
                    proof {
                        lemma_failure_is_final(postfix@, i + 1);
                    }
                    return Some(CompileError::SyntaxError);
                }
                depth = depth - 1;
            },
            Op::Leftparen | Op::Rightparen => {
                proof {
                    lemma_failure_is_final(postfix@, i + 1);
                }
                return Some(CompileError::SyntaxError);
            },
        }
        i = i + 1;
    }
    proof {
        assert(postfix@.take(i as int) =~= postfix@);
    }
    if depth != 1 {
        Some(CompileError::SyntaxError)
    } else if count > 32 {
        Some(CompileError::CapacityError)
    } else {
        None
    }
}

} // verus!
