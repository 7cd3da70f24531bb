//! What an automaton is and what it means for a set of its nodes to take a
//! step: the model that the contracts of the executable automaton speak of.

use vstd::prelude::*;

verus! {

/// The label of an edge that is followed without reading a byte. A byte `b`
/// labels an edge as the number `b`, which is below this one.
pub const EPSILON: usize = 256;

/// An edge to the node `out`, followed on the byte `label` or, where the
/// label is `EPSILON`, at any time.
#[derive(Clone, Copy, Debug, PartialEq, Eq, Structural)]
pub struct Edge {
    pub label: usize,
    pub out: usize,
}

/// A node: its outgoing edges, of which there are at most two.
#[derive(Clone, Copy, Debug, PartialEq, Eq, Structural)]
pub struct Node(pub Option<Edge>, pub Option<Edge>);

impl Edge {
    pub fn new(label: usize, out: usize) -> (e: Edge)
        ensures
            e == (Edge { label, out }),
    {
        Edge { label, out }
    }
}

impl Node {
    /// Whether an edge with this label leads from the node to `to`.
    pub open spec fn has_edge(self, label: int, to: int) -> bool {
        ||| self.0 matches Some(e) && e.label == label && e.out == to
        ||| self.1 matches Some(e) && e.label == label && e.out == to
    }

    /// Whether some edge of the node reads a byte.
    pub open spec fn reads_byte(self) -> bool {
        ||| self.0 matches Some(e) && e.label != EPSILON
        ||| self.1 matches Some(e) && e.label != EPSILON
    }

    /// The node with one more edge, in its first free place. A node that
    /// has two edges already stays as it is.
    pub open spec fn with_edge(self, e: Edge) -> Node {
        if self.0 is None {
            Node(Some(e), self.1)
        } else if self.1 is None {
            Node(self.0, Some(e))
        } else {
            self
        }
    }

    /// Whether every edge of the node has a label up to `EPSILON` and leads
    /// to a node below `bound`.
    pub open spec fn edges_within(self, bound: int) -> bool {
        &&& self.0 matches Some(e) ==> e.label <= EPSILON && e.out < bound
        &&& self.1 matches Some(e) ==> e.label <= EPSILON && e.out < bound
    }

    /// Adds an edge to a node that has a free place for it.
    pub fn insert_edge(&mut self, e: Edge)
        requires
            old(self).0 is None || old(self).1 is None,
        ensures
            *final(self) == old(self).with_edge(e),
    {
        if self.0.is_none() {
            self.0 = Some(e);
        } else {
            self.1 = Some(e);
        }
    }
}

/// An automaton: nodes numbered from 0, one where a match starts and one
/// where it is complete.
pub struct Automaton {
    pub nodes: Seq<Node>,
    pub start: int,
    pub accept: int,
}

impl Automaton {
    /// At most 64 nodes, every edge leading to one of them, and two numbers
    /// below 64 for the start and accept nodes.
    pub open spec fn wf(self) -> bool {
        &&& self.nodes.len() <= 64
        &&& 0 <= self.start < 64
        &&& 0 <= self.accept < 64
        &&& forall|i: int|
            0 <= i < self.nodes.len() ==> (#[trigger] self.nodes[i]).edges_within(
                self.nodes.len() as int,
            )
    }

    pub open spec fn is_node(self, i: int) -> bool {
        0 <= i < self.nodes.len()
    }

    /// Whether an edge with this label leads from node `from` to node `to`.
    pub open spec fn has_edge(self, from: int, label: int, to: int) -> bool {
        self.is_node(from) && self.nodes[from].has_edge(label, to)
    }

    /// Whether node `i` is kept in a closure: it is the accept node or one
    /// of its edges reads a byte. Any other node only passes on to others.
    pub open spec fn useful(self, i: int) -> bool {
        self.is_node(i) && (i == self.accept || self.nodes[i].reads_byte())
    }

    /// Whether `s` holds, with each of its nodes, the nodes that its
    /// epsilon edges lead to.
    pub open spec fn eps_closed(self, s: Set<int>) -> bool {
        forall|i: int, t: int|
            s.contains(i) && #[trigger] self.has_edge(i, EPSILON as int, t) ==> s.contains(t)
    }

    /// Whether `s` holds every node that is in `sources`.
    pub open spec fn covers(self, s: Set<int>, sources: Set<int>) -> bool {
        forall|i: int| sources.contains(i) && self.is_node(i) ==> s.contains(i)
    }

    /// Whether node `i` is reached from `sources` over epsilon edges alone:
    /// it is in the smallest set that covers `sources` and is closed under
    /// epsilon edges, that is, in every such set.
    pub open spec fn reaches(self, sources: Set<int>, i: int) -> bool {
        forall|s: Set<int>| #[trigger] self.eps_closed(s) && self.covers(s, sources) ==> s.contains(i)
    }

    /// Whether `path` is a walk from node to node over epsilon edges.
    pub open spec fn eps_walk(self, path: Seq<int>) -> bool
        decreases path.len(),
    {
        if path.len() <= 1 {
            path.len() == 1 && self.is_node(path[0])
        } else {
            self.eps_walk(path.drop_last()) && self.has_edge(
                path[path.len() - 2],
                EPSILON as int,
                path.last(),
            )
        }
    }

    /// Whether a walk over epsilon edges leads from a node of `sources` to
    /// node `i`.
    pub open spec fn walks_to(self, sources: Set<int>, i: int) -> bool {
        exists|path: Seq<int>|
            #[trigger] self.eps_walk(path) && sources.contains(path[0]) && path.last() == i
    }

    /// The epsilon closure of `sources`: the useful nodes among those that
    /// are reached from it.
    pub open spec fn closure(self, sources: Set<int>) -> Set<int> {
        Set::new(|i: int| self.reaches(sources, i) && self.useful(i))
    }

    /// The nodes that an edge labelled `c` leads to from a node of `sources`.
    pub open spec fn byte_targets(self, sources: Set<int>, c: u8) -> Set<int> {
        Set::new(
            |t: int| exists|i: int| sources.contains(i) && #[trigger] self.has_edge(i, c as int, t),
        )
    }

    /// The set of nodes after the byte `c` was read in the set `sources`.
    pub open spec fn step(self, sources: Set<int>, c: u8) -> Set<int> {
        self.closure(self.byte_targets(sources, c))
    }

    /// The set of nodes in which every match attempt starts.
    pub open spec fn start_state(self) -> Set<int> {
        self.closure(set![self.start])
    }

    /// Whether a set of nodes holds the accept node.
    pub open spec fn accepting(self, s: Set<int>) -> bool {
        s.contains(self.accept)
    }

    /// The set of nodes after the bytes of `word` were read one by one,
    /// beginning in the start state.
    pub open spec fn run(self, word: Seq<u8>) -> Set<int>
        decreases word.len(),
    {
        if word.len() == 0 {
            self.start_state()
        } else {
            self.step(self.run(word.drop_last()), word.last())
        }
    }

    /// Whether the automaton matches `word`: reading it leads from the
    /// start state to a set that holds the accept node. The empty word
    /// counts as no match.
    pub open spec fn accepts(self, word: Seq<u8>) -> bool {
        word.len() > 0 && self.accepting(self.run(word))
    }

    /// A node of `sources` is reached from it.
    pub proof fn lemma_reaches_source(self, sources: Set<int>, i: int)
        requires
            sources.contains(i),
            self.is_node(i),
        ensures
            self.reaches(sources, i),
    {
    }

    /// What an epsilon edge leads to from a reached node is reached too.
    pub proof fn lemma_reaches_onward(self, sources: Set<int>, i: int, t: int)
        requires
            self.reaches(sources, i),
            self.has_edge(i, EPSILON as int, t),
        ensures
            self.reaches(sources, t),
    {
    }

    /// A closed set that covers `sources` holds every node reached from it.
    pub proof fn lemma_reaches_within(self, sources: Set<int>, s: Set<int>, i: int)
        requires
            self.eps_closed(s),
            self.covers(s, sources),
            self.reaches(sources, i),
        ensures
            s.contains(i),
    {
    }

    /// The first node of a walk is its first node however long the walk.
    proof fn lemma_walk_starts(self, path: Seq<int>)
        requires
            self.eps_walk(path),
        ensures
            path.len() >= 1,
            self.is_node(path[0]),
        decreases path.len(),
    {
        if path.len() > 1 {
            self.lemma_walk_starts(path.drop_last());
        }
    }

    /// Where a walk from a node of `sources` ends is reached from `sources`.
    pub proof fn lemma_walk_reaches(self, sources: Set<int>, path: Seq<int>)
        requires
            self.eps_walk(path),
            sources.contains(path[0]),
        ensures
            self.reaches(sources, path.last()),
        decreases path.len(),
    {
        if path.len() > 1 {
            self.lemma_walk_reaches(sources, path.drop_last());
            self.lemma_reaches_onward(sources, path[path.len() - 2], path.last());
        } else {
            self.lemma_reaches_source(sources, path[0]);
        }
    }

    /// A node is reached from `sources` exactly if a walk over epsilon
    /// edges leads to it from a node of `sources`.
    pub proof fn lemma_reaches_iff_walk(self, sources: Set<int>, i: int)
        ensures
            self.reaches(sources, i) <==> self.walks_to(sources, i),
    {
        if self.walks_to(sources, i) {
            let path = choose|path: Seq<int>|
                #[trigger] self.eps_walk(path) && sources.contains(path[0]) && path.last() == i;
            self.lemma_walk_reaches(sources, path);
        }
        if self.reaches(sources, i) {
            let walked = Set::new(|j: int| self.walks_to(sources, j));
            assert(self.eps_closed(walked)) by {
                assert forall|j: int, t: int|
                    walked.contains(j) && #[trigger] self.has_edge(
                        j,
                        EPSILON as int,
                        t,
                    ) implies walked.contains(t) by {
                    let path = choose|path: Seq<int>|
                        #[trigger] self.eps_walk(path) && sources.contains(path[0]) && path.last()
                            == j;
                    self.lemma_walk_starts(path);
                    let longer = path.push(t);
                    assert(longer.drop_last() =~= path);
                    assert(self.eps_walk(longer));
                    assert(longer[0] == path[0]);
                }
            }
            assert(self.covers(walked, sources)) by {
                assert forall|j: int| sources.contains(j) && self.is_node(j) implies walked.contains(
                    j,
                ) by {
                    let path = seq![j];
                    assert(self.eps_walk(path));
                    assert(path[0] == j && path.last() == j);
                }
            }
            self.lemma_reaches_within(sources, walked, i);
        }
    }
}

} // verus!
