//! Steps of the automaton on sets of nodes, each set in one `u64`.

use crate::automaton::EPSILON;
use crate::bits::{
    has_bit, lemma_members_bounded, lemma_members_of_zero, lowest_bit, members, single_bit,
    test_bit, with_bit, without_bit,
};
use crate::nfa::Nfa;
use vstd::prelude::*;

verus! {

impl Nfa {
    /// The set in which every match attempt starts: the closure of the
    /// start node.
    pub fn get_start_state(&self) -> (set: u64)
        ensures
            members(set) == self@.start_state(),
    {
        self.step_epsilon(single_bit(self.get_start_node()))
    }

    /// Whether the accept node is in `set`.
    pub fn is_accept_state(&self, set: u64) -> (b: bool)
        ensures
            b == self@.accepting(members(set)),
    {
        test_bit(set, self.get_accept_node())
    }

    /// The set after the byte `c` was read in the set `from`: the closure
    /// of the nodes that an edge labelled `c` leads to from a node of
    /// `from`. It is empty where no such edge exists.
    pub fn step(&self, from: u64, c: u8) -> (to: u64)
        ensures
            members(to) == self@.step(members(from), c),
    {
        let n = self.size();
        let ghost a = self@;
        let mut targets: u64 = 0;
        let mut i: usize = 0;
        proof {
            lemma_members_of_zero();
        }
        while i < n
            invariant
                i <= n,
                n == a.nodes.len(),
                a == self@,
                a.wf(),
                members(targets) =~= Set::new(
                    |t: int|
                        exists|j: int|
                            0 <= j < i && has_bit(from, j) && #[trigger] a.has_edge(
                                j,
                                c as int,
                                t,
                            ),
                ),
            decreases n - i,
        {
            if test_bit(from, i) {
                let node = self.get_node(i);
                if let Some(e) = node.0 {
                    if e.label == c as usize {
                        assert(a.has_edge(i as int, c as int, e.out as int));
                        targets = with_bit(targets, e.out);
                    }
                }
                if let Some(e) = node.1 {
                    if e.label == c as usize {
                        assert(a.has_edge(i as int, c as int, e.out as int));
                        targets = with_bit(targets, e.out);
                    }
                }
            }
            i = i + 1;
        }
        proof {
            assert(members(targets) =~= a.byte_targets(members(from), c));
        }
        self.step_epsilon(targets)
    }

    /// The epsilon closure of `from`: the nodes reached from it over
    /// epsilon edges, those left out that only pass on to others. Numbers
    /// in `from` that are not nodes count for nothing.
    pub fn step_epsilon(&self, from: u64) -> (to: u64)
        ensures
            members(to) == self@.closure(members(from)),
    {
        let n = self.size();
        let ghost a = self@;
        let ghost sources = members(from);
        let mut pending: u64 = 0;
        let mut i: usize = 0;
        proof {
            lemma_members_of_zero();
        }
        while i < n
            invariant
                i <= n <= 64,
                members(pending) =~= Set::new(|j: int| 0 <= j < i && has_bit(from, j)),
            decreases n - i,
        {
            if test_bit(from, i) {
                pending = with_bit(pending, i);
            }
            i = i + 1;
        }
        let mut visited: u64 = 0;
        let mut to: u64 = 0;
        while pending != 0
            invariant
                a == self@,
                a.wf(),
                sources == members(from),
                members(visited).disjoint(members(pending)),
                forall|j: int|
                    #![trigger members(visited).contains(j)]
                    #![trigger members(pending).contains(j)]
                    members(visited).contains(j) || members(pending).contains(j) ==> a.is_node(j)
                        && a.reaches(sources, j),
                forall|j: int|
                    #![trigger sources.contains(j)]
                    sources.contains(j) && a.is_node(j) ==> members(visited).contains(j)
                        || members(pending).contains(j),
                forall|j: int, t: int|
                    members(visited).contains(j) && #[trigger] a.has_edge(j, EPSILON as int, t)
                        ==> members(visited).contains(t) || members(pending).contains(t),
                members(to) =~= Set::new(|j: int| members(visited).contains(j) && a.useful(j)),
            decreases 64 - members(visited).len(),
        {
            let i = lowest_bit(pending);
            assert(members(pending).contains(i as int));
            let node = self.get_node(i);
            let ghost visited_before = visited;
            pending = without_bit(pending, i);
            visited = with_bit(visited, i);
            let mut useful = i == self.get_accept_node();
            if let Some(e) = node.0 {
                if e.label == EPSILON {
                    proof {
                        a.lemma_reaches_onward(sources, i as int, e.out as int);
                    }
                    if !test_bit(visited, e.out) {
                        pending = with_bit(pending, e.out);
                    }
                } else {
                    useful = true;
                }
            }
            if let Some(e) = node.1 {
                if e.label == EPSILON {
                    proof {
                        a.lemma_reaches_onward(sources, i as int, e.out as int);
                    }
                    if !test_bit(visited, e.out) {
                        pending = with_bit(pending, e.out);
                    }
                } else {
                    useful = true;
                }
            }
            if useful {
                to = with_bit(to, i);
            }
            proof {
                lemma_members_bounded(visited_before);
                lemma_members_bounded(visited);
            }
        }
        proof {
            lemma_members_of_zero();
            assert(a.eps_closed(members(visited)));
            assert(a.covers(members(visited), sources));
            assert forall|j: int| a.reaches(sources, j) implies members(visited).contains(j) by {
                a.lemma_reaches_within(sources, members(visited), j);
            }
            assert(members(to) =~= a.closure(sources));
        }
        to
    }
}

} // verus!
