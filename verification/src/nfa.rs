//! The executable automaton: built from a pattern, then stepped over the
//! bytes of a text.

use crate::automaton::{Automaton, Edge, Node, EPSILON};
use crate::error::CompileError;
use crate::re::{Op, Regex};
use crate::thompson::{
    compile, compile_postfix, fragments_after, grow, lemma_fragments_sound,
    lemma_prefix_evaluates, link, node_demand, postfix_error, well_formed,
};
use vstd::prelude::*;
use vstd::utf8::encode_utf8;

verus! {

/// An automaton of at most 64 nodes. One is built per pattern and can then
/// search any number of texts: nothing changes it once it is built.
#[derive(Debug)]
pub struct Nfa {
    node: Vec<Node>,
    start: usize,
    accept: usize,
}

impl View for Nfa {
    type V = Automaton;

    closed spec fn view(&self) -> Automaton {
        Automaton { nodes: self.node@, start: self.start as int, accept: self.accept as int }
    }
}

impl Nfa {
    #[verifier::type_invariant]
    closed spec fn inv(self) -> bool {
        self@.wf()
    }

    /// Compiles a pattern: tokenizes it, orders the tokens in postfix and
    /// builds the automaton. Fails with `SyntaxError` on a pattern that is
    /// not well formed, with `CapacityError` on a well-formed one whose
    /// automaton takes more than 64 nodes.
    pub fn compile(pattern: &[u8]) -> (res: Result<Nfa, CompileError>)
        ensures
            match res {
                Ok(nfa) => compile(pattern@) == Ok::<Automaton, CompileError>(nfa@),
                Err(e) => compile(pattern@) == Err::<Automaton, CompileError>(e),
            },
    {
        Nfa::build_nfa(Regex::from_bytes(pattern))
    }

    /// Compiles a pattern given as a string: the bytes of its UTF-8
    /// encoding are the pattern.
    pub fn new(re: &String) -> (res: Result<Nfa, CompileError>)
        ensures
            match res {
                Ok(nfa) => compile(encode_utf8(re@)) == Ok::<Automaton, CompileError>(nfa@),
                Err(e) => compile(encode_utf8(re@)) == Err::<Automaton, CompileError>(e),
            },
    {
        Nfa::compile(re.as_str().as_bytes())
    }

    /// The number of nodes.
    pub fn size(&self) -> (n: usize)
        ensures
            n == self@.nodes.len(),
            self@.wf(),
    {
        proof {
            use_type_invariant(self);
        }
        self.node.len()
    }

    /// The number of the node at which a match starts.
    pub fn get_start_node(&self) -> (id: usize)
        ensures
            id == self@.start,
            id < 64,
    {
        proof {
            use_type_invariant(self);
        }
        self.start
    }

    /// The number of the node at which a match is complete.
    pub fn get_accept_node(&self) -> (id: usize)
        ensures
            id == self@.accept,
            id < 64,
    {
        proof {
            use_type_invariant(self);
        }
        self.accept
    }

    /// The node with the number `id`.
    pub fn get_node(&self, id: usize) -> (n: &Node)
        requires
            self@.is_node(id as int),
        ensures
            *n == self@.nodes[id as int],
            n.edges_within(self@.nodes.len() as int),
    {
        proof {
            use_type_invariant(self);
        }
        &self.node[id]
    }

    /// Adds a node, which gets the next number.
    fn insert_node(&mut self, n: Node)
        requires
            old(self)@.nodes.len() < 64,
            n.edges_within(old(self)@.nodes.len() as int + 1),
        ensures
            final(self)@ == (Automaton { nodes: old(self)@.nodes.push(n), ..old(self)@ }),
    {
        proof {
            use_type_invariant(&*self);
        }
        // The nodes are taken out while they change, so that the automaton
        // is well formed whenever it can be seen.
        let mut node: Vec<Node> = Vec::new();
        std::mem::swap(&mut node, &mut self.node);
        node.push(n);
        self.node = node;
    }

    /// Adds an edge to the node `from`, which has a free place for it.
    fn insert_edge(&mut self, from: usize, e: Edge)
        requires
            old(self)@.is_node(from as int),
            old(self)@.is_node(e.out as int),
            e.label <= EPSILON,
            old(self)@.nodes[from as int].0 is None || old(self)@.nodes[from as int].1 is None,
        ensures
            final(self)@ == (Automaton {
                nodes: link(old(self)@.nodes, from, e.label, e.out),
                ..old(self)@
            }),
    {
        proof {
            use_type_invariant(&*self);
        }
        let mut node: Vec<Node> = Vec::new();
        std::mem::swap(&mut node, &mut self.node);
        let mut n = node[from];
        n.insert_edge(e);
        node.set(from, n);
        self.node = node;
    }

    /// Adds an edge from `from` to `to`.
    fn add_relation(&mut self, from: usize, label: usize, to: usize)
        requires
            old(self)@.is_node(from as int),
            old(self)@.is_node(to as int),
            label <= EPSILON,
            old(self)@.nodes[from as int].0 is None || old(self)@.nodes[from as int].1 is None,
        ensures
            final(self)@ == (Automaton {
                nodes: link(old(self)@.nodes, from, label, to),
                ..old(self)@
            }),
    {
        self.insert_edge(from, Edge::new(label, to));
    }

    /// Adds two nodes without edges and gives their numbers.
    fn add_two_new_node(&mut self) -> (ids: (usize, usize))
        requires
            old(self)@.nodes.len() + 2 <= 64,
        ensures
            final(self)@ == (Automaton { nodes: grow(old(self)@.nodes), ..old(self)@ }),
            ids.0 == old(self)@.nodes.len(),
            ids.1 == old(self)@.nodes.len() + 1,
    {
        let tmp = self.size();
        self.insert_node(Node(None, None));
        self.insert_node(Node(None, None));
        (tmp, tmp + 1)
    }

    /// Builds the automaton of a pattern from its postfix form, by
    /// Thompson's construction. Fails with `SyntaxError` where the postfix
    /// form does not evaluate to exactly one fragment, else with
    /// `CapacityError` where the automaton takes more than 64 nodes.
    pub fn build_nfa(re: Regex) -> (res: Result<Nfa, CompileError>)
        ensures
            match res {
                Ok(nfa) => compile_postfix(re.postfix@) == Ok::<Automaton, CompileError>(nfa@),
                Err(e) => compile_postfix(re.postfix@) == Err::<Automaton, CompileError>(e),
            },
    {
        let postfix = re.get_postfix_form();
        if let Some(e) = postfix_error(postfix) {
            return Err(e);
        }
        let mut nfa = Nfa { node: Vec::new(), start: 0, accept: 0 };
        let mut stack: Vec<(usize, usize)> = Vec::new();
        let mut i: usize = 0;
        while i < postfix.len()
            invariant
                i <= postfix.len(),
                well_formed(postfix@),
                node_demand(postfix@) <= 64,
                nfa@.nodes == fragments_after(postfix@.take(i as int)).nodes,
                stack@ == fragments_after(postfix@.take(i as int)).stack,
            decreases postfix.len() - i,
        {
            proof {
                assert(postfix@.take(i + 1).drop_last() =~= postfix@.take(i as int));
                lemma_prefix_evaluates(postfix@, i as int);
                lemma_prefix_evaluates(postfix@, i + 1);
                lemma_fragments_sound(postfix@.take(i as int));
                lemma_fragments_sound(postfix@.take(i + 1));
            }
            match postfix[i] {
                Op::Word(c) => {
                    let (new_start_id, new_accept_id) = nfa.add_two_new_node();
                    nfa.add_relation(new_start_id, c as usize, new_accept_id);
                    stack.push((new_start_id, new_accept_id));
                },
                Op::Dupstar => {
                    let (new_start_id, new_accept_id) = nfa.add_two_new_node();
                    let (old_start_id, old_accept_id) = stack.pop().unwrap();
                    nfa.add_relation(old_accept_id, EPSILON, old_start_id);
                    nfa.add_relation(new_start_id, EPSILON, old_start_id);
                    nfa.add_relation(old_accept_id, EPSILON, new_accept_id);
                    nfa.add_relation(new_start_id, EPSILON, new_accept_id);
                    stack.push((new_start_id, new_accept_id));
                },
                Op::Alter => {
                    let (new_start_id, new_accept_id) = nfa.add_two_new_node();
                    let (n2_start, n2_accept) = stack.pop().unwrap();
                    let (n1_start, n1_accept) = stack.pop().unwrap();
                    nfa.add_relation(new_start_id, EPSILON, n1_start);
                    nfa.add_relation(new_start_id, EPSILON, n2_start);
                    nfa.add_relation(n1_accept, EPSILON, new_accept_id);
                    nfa.add_relation(n2_accept, EPSILON, new_accept_id);
                    stack.push((new_start_id, new_accept_id));
                },
                Op::Concat => {
                    let (n2_start, n2_accept) = stack.pop().unwrap();
                    let (n1_start, n1_accept) = stack.pop().unwrap();
                    nfa.add_relation(n1_accept, EPSILON, n2_start);
                    stack.push((n1_start, n2_accept));
                },
                Op::Leftparen | Op::Rightparen => {},
            }
            i = i + 1;
        }
        proof {
            assert(postfix@.take(i as int) =~= postfix@);
            lemma_fragments_sound(postfix@);
            use_type_invariant(&nfa);
            assert(stack@[0].0 < nfa@.nodes.len() && stack@[0].1 < nfa@.nodes.len());
        }
        let (start, accept) = stack.pop().unwrap();
        nfa.start = start;
        nfa.accept = accept;
        Ok(nfa)
    }
}

} // verus!
