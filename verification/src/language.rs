//! The words that an automaton matches, told by its edges alone, and the
//! proof that stepping sets of nodes finds exactly those.

use crate::automaton::{Automaton, EPSILON};
use vstd::prelude::*;

verus! {

impl Automaton {
    /// Whether `x`, a set of pairs of a node and the bytes read on the way
    /// to it, holds with each pair the pairs that one edge leads to: over
    /// an epsilon edge the bytes stay, over another the edge's byte is
    /// added.
    pub open spec fn edge_closed(self, x: Set<(int, Seq<u8>)>) -> bool {
        &&& forall|m: int, w: Seq<u8>, t: int|
            #![trigger x.contains((m, w)), self.has_edge(m, EPSILON as int, t)]
            x.contains((m, w)) && self.has_edge(m, EPSILON as int, t) ==> x.contains((t, w))
        &&& forall|m: int, w: Seq<u8>, c: u8, t: int|
            #![trigger x.contains((m, w)), self.has_edge(m, c as int, t)]
            x.contains((m, w)) && self.has_edge(m, c as int, t) ==> x.contains((t, w.push(c)))
    }

    /// Whether edges lead from node `i` to node `j` that read `w` between
    /// them: the pair of `j` and `w` is in the smallest edge-closed set
    /// that holds `i` with no byte read, that is, in every such set.
    pub open spec fn leads(self, i: int, w: Seq<u8>, j: int) -> bool {
        forall|x: Set<(int, Seq<u8>)>|
            #[trigger] self.edge_closed(x) && (self.is_node(i) ==> x.contains((i, Seq::empty())))
                ==> x.contains((j, w))
    }

    /// Whether the edges spell `w` from the start node to the accept node.
    pub open spec fn spells(self, w: Seq<u8>) -> bool {
        self.leads(self.start, w, self.accept)
    }

    /// No edge is needed to stay at a node.
    pub proof fn lemma_leads_here(self, i: int)
        requires
            self.is_node(i),
        ensures
            self.leads(i, Seq::empty(), i),
    {
    }

    /// An epsilon edge leads on and reads nothing.
    pub proof fn lemma_leads_eps(self, i: int, w: Seq<u8>, m: int, t: int)
        requires
            self.leads(i, w, m),
            self.has_edge(m, EPSILON as int, t),
        ensures
            self.leads(i, w, t),
    {
    }

    /// An edge labelled `c` leads on and reads `c`.
    pub proof fn lemma_leads_byte(self, i: int, w: Seq<u8>, m: int, c: u8, t: int)
        requires
            self.leads(i, w, m),
            self.has_edge(m, c as int, t),
        ensures
            self.leads(i, w.push(c), t),
    {
    }

    /// Where edges lead from `i` to `m` and from `m` to `j`, they lead from
    /// `i` to `j`, and what they read is read one after the other.
    pub proof fn lemma_leads_chain(self, i: int, u: Seq<u8>, m: int, v: Seq<u8>, j: int)
        requires
            self.leads(i, u, m),
            self.leads(m, v, j),
        ensures
            self.leads(i, u + v, j),
    {
        let x = Set::new(|p: (int, Seq<u8>)| self.leads(i, u + p.1, p.0));
        assert(self.edge_closed(x)) by {
            assert forall|n: int, w: Seq<u8>, t: int|
                #![trigger x.contains((n, w)), self.has_edge(n, EPSILON as int, t)]
                x.contains((n, w)) && self.has_edge(n, EPSILON as int, t) implies x.contains(
                (t, w),
            ) by {
                self.lemma_leads_eps(i, u + w, n, t);
            }
            assert forall|n: int, w: Seq<u8>, c: u8, t: int|
                #![trigger x.contains((n, w)), self.has_edge(n, c as int, t)]
                x.contains((n, w)) && self.has_edge(n, c as int, t) implies x.contains(
                (t, w.push(c)),
            ) by {
                self.lemma_leads_byte(i, u + w, n, c, t);
                assert((u + w).push(c) =~= u + w.push(c));
            }
        }
        assert(u + Seq::<u8>::empty() =~= u);
        assert(x.contains((m, Seq::<u8>::empty())));
        assert(x.contains((j, v)));
    }

    /// Reading nothing, edges lead from `t` exactly to what is reached from
    /// `t` over epsilon edges.
    pub proof fn lemma_leads_nothing(self, t: int, j: int)
        ensures
            self.leads(t, Seq::empty(), j) <==> self.reaches(set![t], j),
    {
        if self.reaches(set![t], j) {
            let s = Set::new(|n: int| self.leads(t, Seq::empty(), n));
            assert(self.eps_closed(s)) by {
                assert forall|n: int, k: int|
                    s.contains(n) && #[trigger] self.has_edge(n, EPSILON as int, k) implies s.contains(
                    k,
                ) by {
                    self.lemma_leads_eps(t, Seq::empty(), n, k);
                }
            }
            assert(self.covers(s, set![t]));
            self.lemma_reaches_within(set![t], s, j);
        }
        if self.leads(t, Seq::empty(), j) {
            let x = Set::new(|p: (int, Seq<u8>)| p.1.len() > 0 || self.reaches(set![t], p.0));
            assert(self.edge_closed(x)) by {
                assert forall|n: int, w: Seq<u8>, k: int|
                    #![trigger x.contains((n, w)), self.has_edge(n, EPSILON as int, k)]
                    x.contains((n, w)) && self.has_edge(n, EPSILON as int, k) implies x.contains(
                    (k, w),
                ) by {
                    if w.len() == 0 {
                        self.lemma_reaches_onward(set![t], n, k);
                    }
                }
            }
            if self.is_node(t) {
                self.lemma_reaches_source(set![t], t);
            }
            assert(x.contains((j, Seq::<u8>::empty())));
        }
    }

    /// Where edges lead to `j` and read a word that is not empty, the last
    /// byte of the word is read by an edge on the way, and only epsilon
    /// edges follow it.
    pub proof fn lemma_leads_last(self, i: int, w: Seq<u8>, j: int) -> (via: (int, int))
        requires
            self.wf(),
            self.leads(i, w, j),
            w.len() > 0,
        ensures
            self.leads(i, w.drop_last(), via.0),
            self.has_edge(via.0, w.last() as int, via.1),
            self.leads(via.1, Seq::empty(), j),
    {
        let x = Set::new(
            |p: (int, Seq<u8>)|
                self.leads(i, p.1, p.0) && (p.1.len() > 0 ==> exists|m: int, t: int|
                    self.leads(i, p.1.drop_last(), m) && #[trigger] self.has_edge(
                        m,
                        p.1.last() as int,
                        t,
                    ) && self.leads(t, Seq::empty(), p.0)),
        );
        assert(self.edge_closed(x)) by {
            assert forall|n: int, v: Seq<u8>, k: int|
                #![trigger x.contains((n, v)), self.has_edge(n, EPSILON as int, k)]
                x.contains((n, v)) && self.has_edge(n, EPSILON as int, k) implies x.contains(
                (k, v),
            ) by {
                self.lemma_leads_eps(i, v, n, k);
                if v.len() > 0 {
                    let (m, t) = choose|m: int, t: int|
                        self.leads(i, v.drop_last(), m) && #[trigger] self.has_edge(
                            m,
                            v.last() as int,
                            t,
                        ) && self.leads(t, Seq::empty(), n);
                    self.lemma_leads_eps(t, Seq::empty(), n, k);
                }
            }
            assert forall|n: int, v: Seq<u8>, c: u8, k: int|
                #![trigger x.contains((n, v)), self.has_edge(n, c as int, k)]
                x.contains((n, v)) && self.has_edge(n, c as int, k) implies x.contains(
                (k, v.push(c)),
            ) by {
                let longer = v.push(c);
                self.lemma_leads_byte(i, v, n, c, k);
                assert(longer.drop_last() =~= v);
                assert(longer.last() == c);
                assert(self.nodes[n].edges_within(self.nodes.len() as int));
                self.lemma_leads_here(k);
                assert(self.leads(i, longer.drop_last(), n) && self.has_edge(
                    n,
                    longer.last() as int,
                    k,
                ) && self.leads(k, Seq::empty(), k));
            }
        }
        if self.is_node(i) {
            self.lemma_leads_here(i);
        }
        assert(x.contains((j, w)));
        choose|m: int, t: int|
            self.leads(i, w.drop_last(), m) && #[trigger] self.has_edge(m, w.last() as int, t)
                && self.leads(t, Seq::empty(), j)
    }

    /// What is reached from a set is reached from one of its nodes.
    pub proof fn lemma_reaches_from_one(self, sources: Set<int>, j: int) -> (t: int)
        requires
            self.reaches(sources, j),
        ensures
            sources.contains(t),
            self.reaches(set![t], j),
    {
        self.lemma_reaches_iff_walk(sources, j);
        let path = choose|path: Seq<int>|
            #[trigger] self.eps_walk(path) && sources.contains(path[0]) && path.last() == j;
        self.lemma_walk_reaches(set![path[0]], path);
        path[0]
    }

    /// What is reached from a node of a set is reached from the set.
    pub proof fn lemma_reaches_from_set(self, sources: Set<int>, t: int, j: int)
        requires
            sources.contains(t),
            self.reaches(set![t], j),
        ensures
            self.reaches(sources, j),
    {
        self.lemma_reaches_iff_walk(set![t], j);
        let path = choose|path: Seq<int>|
            #[trigger] self.eps_walk(path) && set![t].contains(path[0]) && path.last() == j;
        self.lemma_walk_reaches(sources, path);
    }

    /// Stepping sets of nodes over the bytes of `w` ends in the useful
    /// nodes among those that edges lead to from the start node reading
    /// `w`.
    pub proof fn lemma_run_leads(self, w: Seq<u8>, j: int)
        requires
            self.wf(),
        ensures
            self.run(w).contains(j) <==> self.useful(j) && self.leads(self.start, w, j),
        decreases w.len(),
    {
        if w.len() == 0 {
            assert(w =~= Seq::<u8>::empty());
            self.lemma_leads_nothing(self.start, j);
        } else {
            let v = w.drop_last();
            let c = w.last();
            let targets = self.byte_targets(self.run(v), c);
            assert(v.push(c) =~= w);
            if self.run(w).contains(j) {
                let t = self.lemma_reaches_from_one(targets, j);
                let m = choose|m: int| self.run(v).contains(m) && #[trigger] self.has_edge(
                    m,
                    c as int,
                    t,
                );
                self.lemma_run_leads(v, m);
                self.lemma_leads_byte(self.start, v, m, c, t);
                self.lemma_leads_nothing(t, j);
                self.lemma_leads_chain(self.start, w, t, Seq::empty(), j);
                assert(w + Seq::<u8>::empty() =~= w);
            }
            if self.useful(j) && self.leads(self.start, w, j) {
                let (m, t) = self.lemma_leads_last(self.start, w, j);
                self.lemma_run_leads(v, m);
                assert(self.nodes[m].reads_byte());
                assert(self.run(v).contains(m));
                assert(targets.contains(t));
                self.lemma_leads_nothing(t, j);
                self.lemma_reaches_from_set(targets, t, j);
            }
        }
    }

    /// The automaton matches exactly the words, other than the empty one,
    /// that its edges spell from the start node to the accept node.
    pub proof fn lemma_accepts_iff_spells(self, w: Seq<u8>)
        requires
            self.wf(),
            self.is_node(self.accept),
        ensures
            self.accepts(w) <==> w.len() > 0 && self.spells(w),
    {
        self.lemma_run_leads(w, self.accept);
    }
}

} // verus!
