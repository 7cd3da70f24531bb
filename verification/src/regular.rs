//! The language of a pattern in postfix form, and the proof that the
//! automaton built from it spells exactly that language.

use crate::automaton::{Automaton, Node, EPSILON};
use crate::ranges::Range;
use crate::re::{tokenize, Op};
use crate::search::lemma_matches_accepted;
use crate::thompson::{
    compile, compile_postfix, depth_after, fragments_after, lemma_fragments_sound,
    lemma_thompson_wf, node_demand, sound, thompson, thompson_step, well_formed, Fragments,
};
use crate::yard::to_postfix;
use vstd::prelude::*;

verus! {

/// The one word that is the byte `c`.
pub open spec fn literal(c: u8) -> Set<Seq<u8>> {
    Set::new(|w: Seq<u8>| w.len() == 1 && w[0] == c)
}

/// The words of `first` and those of `second`.
pub open spec fn either(first: Set<Seq<u8>>, second: Set<Seq<u8>>) -> Set<Seq<u8>> {
    Set::new(|w: Seq<u8>| first.contains(w) || second.contains(w))
}

/// The words that are a word of `first` followed by a word of `second`.
pub open spec fn joined(first: Set<Seq<u8>>, second: Set<Seq<u8>>) -> Set<Seq<u8>> {
    Set::new(
        |w: Seq<u8>|
            exists|k: int|
                0 <= k <= w.len() && first.contains(#[trigger] w.take(k)) && second.contains(
                    w.skip(k),
                ),
    )
}

/// Whether `y` holds the empty word and, with each word, the word followed
/// by any word of `l`.
pub open spec fn repeat_closed(l: Set<Seq<u8>>, y: Set<Seq<u8>>) -> bool {
    &&& y.contains(Seq::empty())
    &&& forall|u: Seq<u8>, v: Seq<u8>| y.contains(u) && l.contains(v) ==> #[trigger] y.contains(u + v)
}

/// The words that are any number of words of `l`, one after the other:
/// the smallest set that holds the empty word and, with each word, the
/// word followed by any word of `l`.
pub open spec fn repeated(l: Set<Seq<u8>>) -> Set<Seq<u8>> {
    Set::new(|w: Seq<u8>| forall|y: Set<Seq<u8>>| #[trigger] repeat_closed(l, y) ==> y.contains(w))
}

/// The stack of languages after one more token of a postfix form.
pub open spec fn language_step(stack: Seq<Set<Seq<u8>>>, op: Op) -> Seq<Set<Seq<u8>>> {
    let top = stack.last();
    let below = stack[stack.len() - 2];
    match op {
        Op::Word(c) => stack.push(literal(c)),
        Op::Dupstar => stack.drop_last().push(repeated(top)),
        Op::Alter => stack.drop_last().drop_last().push(either(below, top)),
        Op::Concat => stack.drop_last().drop_last().push(joined(below, top)),
        Op::Leftparen | Op::Rightparen => stack,
    }
}

/// The stack of languages after all of `postfix`.
pub open spec fn languages_after(postfix: Seq<Op>) -> Seq<Set<Seq<u8>>>
    decreases postfix.len(),
{
    if postfix.len() == 0 {
        Seq::empty()
    } else {
        language_step(languages_after(postfix.drop_last()), postfix.last())
    }
}

/// The language of a well-formed postfix form: the words that the pattern
/// stands for.
pub open spec fn language(postfix: Seq<Op>) -> Set<Seq<u8>> {
    languages_after(postfix).last()
}

/// The empty word is any number of words.
pub proof fn lemma_repeated_none(l: Set<Seq<u8>>)
    ensures
        repeated(l).contains(Seq::empty()),
{
}

/// One more word of `l` keeps a word among the repeated ones.
pub proof fn lemma_repeated_more(l: Set<Seq<u8>>, u: Seq<u8>, v: Seq<u8>)
    requires
        repeated(l).contains(u),
        l.contains(v),
    ensures
        repeated(l).contains(u + v),
{
}

/// Whether every edge that leaves a node from `lo` up to `hi` leads to
/// such a node.
pub open spec fn closed_in(g: Automaton, lo: int, hi: int) -> bool {
    forall|m: int, l: int, t: int|
        lo <= m < hi && #[trigger] g.has_edge(m, l, t) ==> lo <= t < hi
}

/// Whether `h` has every node and every edge of `g`.
pub open spec fn extends(g: Automaton, h: Automaton) -> bool {
    &&& g.nodes.len() <= h.nodes.len()
    &&& forall|m: int, l: int, t: int| #[trigger] g.has_edge(m, l, t) ==> h.has_edge(m, l, t)
}

/// Whether `g` and `h` have the same edges from the nodes from `lo` up to
/// `hi`, which are nodes of both.
pub open spec fn same_in(g: Automaton, h: Automaton, lo: int, hi: int) -> bool {
    &&& 0 <= lo <= hi <= g.nodes.len()
    &&& hi <= h.nodes.len()
    &&& forall|m: int, l: int, t: int|
        #![trigger g.has_edge(m, l, t)]
        #![trigger h.has_edge(m, l, t)]
        lo <= m < hi ==> (g.has_edge(m, l, t) <==> h.has_edge(m, l, t))
}

/// More edges lead no less far.
pub proof fn lemma_leads_more(g: Automaton, h: Automaton, i: int, w: Seq<u8>, j: int)
    requires
        extends(g, h),
        g.leads(i, w, j),
    ensures
        h.leads(i, w, j),
{
    assert forall|x: Set<(int, Seq<u8>)>|
        #[trigger] h.edge_closed(x) && (h.is_node(i) ==> x.contains(
            (i, Seq::empty()),
        )) implies x.contains((j, w)) by {
        assert(g.edge_closed(x));
    }
}

/// From within a part of the nodes that no edge leaves, edges lead only
/// into that part, and lead the same in any automaton that has the same
/// edges there.
pub proof fn lemma_leads_local(
    g: Automaton,
    h: Automaton,
    lo: int,
    hi: int,
    s: int,
    w: Seq<u8>,
    j: int,
)
    requires
        same_in(g, h, lo, hi),
        closed_in(g, lo, hi),
        lo <= s < hi,
        g.leads(s, w, j),
    ensures
        h.leads(s, w, j),
        lo <= j < hi,
{
    let x = Set::new(|p: (int, Seq<u8>)| lo <= p.0 < hi && h.leads(s, p.1, p.0));
    assert(g.edge_closed(x)) by {
        assert forall|m: int, v: Seq<u8>, t: int|
            #![trigger x.contains((m, v)), g.has_edge(m, EPSILON as int, t)]
            x.contains((m, v)) && g.has_edge(m, EPSILON as int, t) implies x.contains((t, v)) by {
            h.lemma_leads_eps(s, v, m, t);
        }
        assert forall|m: int, v: Seq<u8>, c: u8, t: int|
            #![trigger x.contains((m, v)), g.has_edge(m, c as int, t)]
            x.contains((m, v)) && g.has_edge(m, c as int, t) implies x.contains(
            (t, v.push(c)),
        ) by {
            h.lemma_leads_byte(s, v, m, c, t);
        }
    }
    h.lemma_leads_here(s);
    assert(x.contains((j, w)));
}

/// A new edge for the byte `c`, from a node without another edge to a node
/// without any, spells the word `c` and no other.
pub proof fn lemma_spells_literal(h: Automaton, s: int, a: int, c: u8, w: Seq<u8>)
    requires
        h.is_node(s),
        h.is_node(a),
        s != a,
        forall|l: int, t: int| #[trigger] h.has_edge(s, l, t) <==> l == c && t == a,
        forall|l: int, t: int| !#[trigger] h.has_edge(a, l, t),
    ensures
        h.leads(s, w, a) <==> literal(c).contains(w),
{
    if literal(c).contains(w) {
        h.lemma_leads_here(s);
        h.lemma_leads_byte(s, Seq::empty(), s, c, a);
        assert(Seq::<u8>::empty().push(c) =~= w);
    }
    if h.leads(s, w, a) {
        let x = Set::new(
            |p: (int, Seq<u8>)| (p.0 == s && p.1.len() == 0) || (p.0 == a && literal(c).contains(p.1)),
        );
        assert(h.edge_closed(x));
        assert(x.contains((a, w)));
    }
}

/// Within a part of the nodes that no edge leaves, two automata with the
/// same edges there lead the same.
pub proof fn lemma_leads_same(
    g: Automaton,
    h: Automaton,
    lo: int,
    hi: int,
    s: int,
    w: Seq<u8>,
    j: int,
)
    requires
        same_in(g, h, lo, hi),
        closed_in(g, lo, hi),
        lo <= s < hi,
    ensures
        g.leads(s, w, j) <==> h.leads(s, w, j),
        closed_in(h, lo, hi),
{
    assert(same_in(h, g, lo, hi));
    if g.leads(s, w, j) {
        lemma_leads_local(g, h, lo, hi, s, w, j);
    }
    if h.leads(s, w, j) {
        lemma_leads_local(h, g, lo, hi, s, w, j);
    }
}

/// Whether `w` falls into two parts, of which edges of `g` read the first
/// from `s1` to `a1` and the second from `s2` to `j`.
pub open spec fn leads_in_two(
    g: Automaton,
    s1: int,
    a1: int,
    s2: int,
    w: Seq<u8>,
    j: int,
) -> bool {
    exists|k: int|
        0 <= k <= w.len() && g.leads(s1, #[trigger] w.take(k), a1) && g.leads(s2, w.skip(k), j)
}

/// Whether `w` falls into two parts, of which the first is any number of
/// words of `l` and edges of `g` read the second from `s0` to `j`.
pub open spec fn leads_after_repeats(
    g: Automaton,
    l: Set<Seq<u8>>,
    s0: int,
    w: Seq<u8>,
    j: int,
) -> bool {
    exists|k: int|
        0 <= k <= w.len() && repeated(l).contains(#[trigger] w.take(k)) && g.leads(
            s0,
            w.skip(k),
            j,
        )
}

/// Whether `h` is `g` with one more epsilon edge, from `a1` to `s2`,
/// between two parts of the nodes: the first from `lo` up to `mid` with
/// `s1` and `a1`, the second from `mid` up to `hi` with `s2` and `a2`.
pub open spec fn joins(
    g: Automaton,
    h: Automaton,
    lo: int,
    mid: int,
    hi: int,
    s1: int,
    a1: int,
    s2: int,
    a2: int,
) -> bool {
    &&& 0 <= lo <= s1 < mid && lo <= a1 < mid
    &&& mid <= s2 < hi && mid <= a2 < hi
    &&& hi <= g.nodes.len() == h.nodes.len()
    &&& closed_in(g, lo, mid)
    &&& closed_in(g, mid, hi)
    &&& forall|m: int, l: int, t: int|
        #![trigger g.has_edge(m, l, t)]
        #![trigger h.has_edge(m, l, t)]
        h.has_edge(m, l, t) <==> g.has_edge(m, l, t) || (m == a1 && l == EPSILON && t == s2)
}

/// Two fragments joined spell the words of the first followed by the
/// words of the second.
pub proof fn lemma_spells_joined(
    g: Automaton,
    h: Automaton,
    lo: int,
    mid: int,
    hi: int,
    s1: int,
    a1: int,
    s2: int,
    a2: int,
    w: Seq<u8>,
)
    requires
        joins(g, h, lo, mid, hi, s1, a1, s2, a2),
    ensures
        h.leads(s1, w, a2) <==> leads_in_two(g, s1, a1, s2, w, a2),
        closed_in(h, lo, hi),
{
    assert(extends(g, h));
    if leads_in_two(g, s1, a1, s2, w, a2) {
        let k = choose|k: int|
            0 <= k <= w.len() && g.leads(s1, #[trigger] w.take(k), a1) && g.leads(
                s2,
                w.skip(k),
                a2,
            );
        lemma_leads_more(g, h, s1, w.take(k), a1);
        lemma_leads_more(g, h, s2, w.skip(k), a2);
        h.lemma_leads_eps(s1, w.take(k), a1, s2);
        h.lemma_leads_chain(s1, w.take(k), s2, w.skip(k), a2);
        assert(w.take(k) + w.skip(k) =~= w);
    }
    if h.leads(s1, w, a2) {
        let x = Set::new(
            |p: (int, Seq<u8>)|
                (lo <= p.0 < mid && g.leads(s1, p.1, p.0)) || (mid <= p.0 < hi && leads_in_two(
                    g,
                    s1,
                    a1,
                    s2,
                    p.1,
                    p.0,
                )),
        );
        assert(h.edge_closed(x)) by {
            assert forall|m: int, v: Seq<u8>, t: int|
                #![trigger x.contains((m, v)), h.has_edge(m, EPSILON as int, t)]
                x.contains((m, v)) && h.has_edge(m, EPSILON as int, t) implies x.contains(
                (t, v),
            ) by {
                if m < mid {
                    if g.has_edge(m, EPSILON as int, t) {
                        g.lemma_leads_eps(s1, v, m, t);
                    } else {
                        let k = v.len() as int;
                        assert(v.take(k) =~= v);
                        assert(v.skip(k) =~= Seq::<u8>::empty());
                        g.lemma_leads_here(s2);
                        assert(g.leads(s1, v.take(k), a1) && g.leads(s2, v.skip(k), t));
                        assert(leads_in_two(g, s1, a1, s2, v, t));
                    }
                } else {
                    let k = choose|k: int|
                        0 <= k <= v.len() && g.leads(s1, #[trigger] v.take(k), a1) && g.leads(
                            s2,
                            v.skip(k),
                            m,
                        );
                    assert(g.has_edge(m, EPSILON as int, t));
                    g.lemma_leads_eps(s2, v.skip(k), m, t);
                    assert(g.leads(s1, v.take(k), a1) && g.leads(s2, v.skip(k), t));
                    assert(leads_in_two(g, s1, a1, s2, v, t));
                }
            }
            assert forall|m: int, v: Seq<u8>, c: u8, t: int|
                #![trigger x.contains((m, v)), h.has_edge(m, c as int, t)]
                x.contains((m, v)) && h.has_edge(m, c as int, t) implies x.contains(
                (t, v.push(c)),
            ) by {
                let longer = v.push(c);
                assert(g.has_edge(m, c as int, t));
                if m < mid {
                    g.lemma_leads_byte(s1, v, m, c, t);
                } else {
                    let k = choose|k: int|
                        0 <= k <= v.len() && g.leads(s1, #[trigger] v.take(k), a1) && g.leads(
                            s2,
                            v.skip(k),
                            m,
                        );
                    g.lemma_leads_byte(s2, v.skip(k), m, c, t);
                    assert(longer.take(k) =~= v.take(k));
                    assert(longer.skip(k) =~= v.skip(k).push(c));
                    assert(g.leads(s1, longer.take(k), a1) && g.leads(s2, longer.skip(k), t));
                    assert(leads_in_two(g, s1, a1, s2, longer, t));
                }
            }
        }
        g.lemma_leads_here(s1);
        assert(x.contains((a2, w)));
    }
}

/// Whether `h` is `g` with two more nodes, `s` and after it `a`, and with
/// epsilon edges from `s` to `s1` and `s2` and from `a1` and `a2` to `a`,
/// where `g` has two parts of nodes: the first from `lo` up to `mid` with
/// `s1` and `a1`, the second from `mid` up to `s` with `s2` and `a2`.
pub open spec fn branches(
    g: Automaton,
    h: Automaton,
    lo: int,
    mid: int,
    s: int,
    s1: int,
    a1: int,
    s2: int,
    a2: int,
) -> bool {
    &&& 0 <= lo <= s1 < mid && lo <= a1 < mid
    &&& mid <= s2 < s && mid <= a2 < s
    &&& s == g.nodes.len() && h.nodes.len() == s + 2
    &&& closed_in(g, lo, mid)
    &&& closed_in(g, mid, s)
    &&& forall|m: int, l: int, t: int|
        #![trigger g.has_edge(m, l, t)]
        #![trigger h.has_edge(m, l, t)]
        h.has_edge(m, l, t) <==> g.has_edge(m, l, t) || (l == EPSILON && ((m == s && (t == s1 || t
            == s2)) || ((m == a1 || m == a2) && t == s + 1)))
}

/// Two fragments side by side spell the words of the one and the words of
/// the other.
pub proof fn lemma_spells_either(
    g: Automaton,
    h: Automaton,
    lo: int,
    mid: int,
    s: int,
    s1: int,
    a1: int,
    s2: int,
    a2: int,
    w: Seq<u8>,
)
    requires
        branches(g, h, lo, mid, s, s1, a1, s2, a2),
    ensures
        h.leads(s, w, s + 1) <==> g.leads(s1, w, a1) || g.leads(s2, w, a2),
        closed_in(h, lo, s + 2),
{
    let a = s + 1;
    let none = Seq::<u8>::empty();
    assert(extends(g, h));
    assert(none + w =~= w);
    if g.leads(s1, w, a1) {
        h.lemma_leads_here(s);
        h.lemma_leads_eps(s, none, s, s1);
        lemma_leads_more(g, h, s1, w, a1);
        h.lemma_leads_chain(s, none, s1, w, a1);
        h.lemma_leads_eps(s, w, a1, a);
    }
    if g.leads(s2, w, a2) {
        h.lemma_leads_here(s);
        h.lemma_leads_eps(s, none, s, s2);
        lemma_leads_more(g, h, s2, w, a2);
        h.lemma_leads_chain(s, none, s2, w, a2);
        h.lemma_leads_eps(s, w, a2, a);
    }
    if h.leads(s, w, a) {
        let x = Set::new(
            |p: (int, Seq<u8>)|
                {
                    ||| p.0 == s && p.1.len() == 0
                    ||| lo <= p.0 < mid && g.leads(s1, p.1, p.0)
                    ||| mid <= p.0 < s && g.leads(s2, p.1, p.0)
                    ||| p.0 == a && (g.leads(s1, p.1, a1) || g.leads(s2, p.1, a2))
                },
        );
        assert(h.edge_closed(x)) by {
            assert forall|m: int, v: Seq<u8>, t: int|
                #![trigger x.contains((m, v)), h.has_edge(m, EPSILON as int, t)]
                x.contains((m, v)) && h.has_edge(m, EPSILON as int, t) implies x.contains(
                (t, v),
            ) by {
                if m == s {
                    assert(v =~= none);
                    g.lemma_leads_here(s1);
                    g.lemma_leads_here(s2);
                } else if m < mid {
                    if g.has_edge(m, EPSILON as int, t) {
                        g.lemma_leads_eps(s1, v, m, t);
                    }
                } else if m < s {
                    if g.has_edge(m, EPSILON as int, t) {
                        g.lemma_leads_eps(s2, v, m, t);
                    }
                }
            }
            assert forall|m: int, v: Seq<u8>, c: u8, t: int|
                #![trigger x.contains((m, v)), h.has_edge(m, c as int, t)]
                x.contains((m, v)) && h.has_edge(m, c as int, t) implies x.contains(
                (t, v.push(c)),
            ) by {
                if lo <= m < mid {
                    g.lemma_leads_byte(s1, v, m, c, t);
                } else if mid <= m < s {
                    g.lemma_leads_byte(s2, v, m, c, t);
                }
            }
        }
        assert(x.contains((a, w)));
    }
}

/// Whether `h` is `g` with two more nodes, `s` and after it `a`, and with
/// epsilon edges from `s` and from `a0` to `s0` and to `a`, where `g` has
/// a part of nodes from `lo` up to `s` with `s0` and `a0`.
pub open spec fn loops(g: Automaton, h: Automaton, lo: int, s: int, s0: int, a0: int) -> bool {
    &&& 0 <= lo <= s0 < s && lo <= a0 < s
    &&& s == g.nodes.len() && h.nodes.len() == s + 2
    &&& closed_in(g, lo, s)
    &&& forall|m: int, l: int, t: int|
        #![trigger g.has_edge(m, l, t)]
        #![trigger h.has_edge(m, l, t)]
        h.has_edge(m, l, t) <==> g.has_edge(m, l, t) || (l == EPSILON && (m == s || m == a0) && (t
            == s0 || t == s + 1))
}

/// A fragment in a loop spells any number of its words.
pub proof fn lemma_spells_repeated(
    g: Automaton,
    h: Automaton,
    lo: int,
    s: int,
    s0: int,
    a0: int,
    l0: Set<Seq<u8>>,
    w: Seq<u8>,
)
    requires
        loops(g, h, lo, s, s0, a0),
        forall|v: Seq<u8>| g.leads(s0, v, a0) <==> #[trigger] l0.contains(v),
    ensures
        h.leads(s, w, s + 1) <==> repeated(l0).contains(w),
        closed_in(h, lo, s + 2),
{
    let a = s + 1;
    let none = Seq::<u8>::empty();
    assert(extends(g, h));
    if repeated(l0).contains(w) {
        let y = Set::new(|v: Seq<u8>| h.leads(s, v, a) && h.leads(s, v, s0));
        assert(repeat_closed(l0, y)) by {
            h.lemma_leads_here(s);
            h.lemma_leads_eps(s, none, s, s0);
            h.lemma_leads_eps(s, none, s, a);
            assert forall|u: Seq<u8>, v: Seq<u8>| y.contains(u) && l0.contains(v) implies #[trigger] y.contains(
                u + v,
            ) by {
                lemma_leads_more(g, h, s0, v, a0);
                h.lemma_leads_chain(s, u, s0, v, a0);
                h.lemma_leads_eps(s, u + v, a0, s0);
                h.lemma_leads_eps(s, u + v, a0, a);
            }
        }
        assert(y.contains(w));
    }
    if h.leads(s, w, a) {
        let x = Set::new(
            |p: (int, Seq<u8>)|
                {
                    ||| p.0 == s && p.1.len() == 0
                    ||| lo <= p.0 < s && leads_after_repeats(g, l0, s0, p.1, p.0)
                    ||| p.0 == a && repeated(l0).contains(p.1)
                },
        );
        assert(h.edge_closed(x)) by {
            assert forall|m: int, v: Seq<u8>, t: int|
                #![trigger x.contains((m, v)), h.has_edge(m, EPSILON as int, t)]
                x.contains((m, v)) && h.has_edge(m, EPSILON as int, t) implies x.contains(
                (t, v),
            ) by {
                let all = v.len() as int;
                assert(v.take(all) =~= v);
                assert(v.skip(all) =~= none);
                g.lemma_leads_here(s0);
                lemma_repeated_none(l0);
                if m == s {
                    assert(v =~= none);
                    assert(repeated(l0).contains(v.take(all)) && g.leads(s0, v.skip(all), s0));
                    assert(leads_after_repeats(g, l0, s0, v, s0));
                } else if m < s {
                    let k = choose|k: int|
                        0 <= k <= v.len() && repeated(l0).contains(#[trigger] v.take(k))
                            && g.leads(s0, v.skip(k), m);
                    if g.has_edge(m, EPSILON as int, t) {
                        g.lemma_leads_eps(s0, v.skip(k), m, t);
                        assert(repeated(l0).contains(v.take(k)) && g.leads(s0, v.skip(k), t));
                        assert(leads_after_repeats(g, l0, s0, v, t));
                    } else {
                        assert(l0.contains(v.skip(k)));
                        lemma_repeated_more(l0, v.take(k), v.skip(k));
                        assert(v.take(k) + v.skip(k) =~= v);
                        assert(repeated(l0).contains(v.take(all)) && g.leads(
                            s0,
                            v.skip(all),
                            s0,
                        ));
                        assert(leads_after_repeats(g, l0, s0, v, s0));
                    }
                }
            }
            assert forall|m: int, v: Seq<u8>, c: u8, t: int|
                #![trigger x.contains((m, v)), h.has_edge(m, c as int, t)]
                x.contains((m, v)) && h.has_edge(m, c as int, t) implies x.contains(
                (t, v.push(c)),
            ) by {
                let longer = v.push(c);
                if lo <= m < s {
                    let k = choose|k: int|
                        0 <= k <= v.len() && repeated(l0).contains(#[trigger] v.take(k))
                            && g.leads(s0, v.skip(k), m);
                    g.lemma_leads_byte(s0, v.skip(k), m, c, t);
                    assert(longer.take(k) =~= v.take(k));
                    assert(longer.skip(k) =~= v.skip(k).push(c));
                    assert(repeated(l0).contains(longer.take(k)) && g.leads(
                        s0,
                        longer.skip(k),
                        t,
                    ));
                    assert(leads_after_repeats(g, l0, s0, longer, t));
                }
            }
        }
        assert(x.contains((a, w)));
    }
}

/// The nodes as an automaton, whatever its start and accept nodes.
pub open spec fn graph(nodes: Seq<Node>) -> Automaton {
    Automaton { nodes, start: 0, accept: 0 }
}

/// Where edges lead depends on the nodes alone.
pub proof fn lemma_leads_by_nodes(a: Automaton, b: Automaton, i: int, w: Seq<u8>, j: int)
    requires
        a.nodes == b.nodes,
    ensures
        a.leads(i, w, j) <==> b.leads(i, w, j),
{
    assert(extends(a, b));
    assert(extends(b, a));
    if a.leads(i, w, j) {
        lemma_leads_more(a, b, i, w, j);
    }
    if b.leads(i, w, j) {
        lemma_leads_more(b, a, i, w, j);
    }
}

/// Where the fragments on the stack begin among the nodes, after one more
/// token: a literal begins behind the `n` nodes there are, a repetition
/// where its operand did, the other two where their first operand did.
pub open spec fn bounds_step(lo: Seq<int>, n: int, op: Op) -> Seq<int> {
    match op {
        Op::Word(_) => lo.push(n),
        Op::Alter | Op::Concat => lo.drop_last(),
        _ => lo,
    }
}

/// Where the fragments on the stack begin among the nodes, after all of
/// `postfix`.
pub open spec fn bounds_after(postfix: Seq<Op>) -> Seq<int>
    decreases postfix.len(),
{
    if postfix.len() == 0 {
        Seq::empty()
    } else {
        bounds_step(
            bounds_after(postfix.drop_last()),
            fragments_after(postfix.drop_last()).nodes.len() as int,
            postfix.last(),
        )
    }
}

/// Where fragment `k` ends among the nodes: where the next begins, or
/// with the last node.
pub open spec fn upper(f: Fragments, lo: Seq<int>, k: int) -> int {
    if k + 1 < lo.len() {
        lo[k + 1]
    } else {
        f.nodes.len() as int
    }
}

/// Whether fragment `k` keeps to its nodes and spells the language
/// `langs[k]` from its start node to its accept node.
pub open spec fn tells_at(f: Fragments, lo: Seq<int>, langs: Seq<Set<Seq<u8>>>, k: int) -> bool {
    let g = graph(f.nodes);
    let s = f.stack[k].0 as int;
    let a = f.stack[k].1 as int;
    let hi = upper(f, lo, k);
    &&& 0 <= lo[k] <= s < hi && lo[k] <= a < hi && hi <= f.nodes.len()
    &&& closed_in(g, lo[k], hi)
    &&& forall|w: Seq<u8>| g.leads(s, w, a) <==> #[trigger] langs[k].contains(w)
}

/// Whether each fragment on the stack spells its language, the fragments
/// lying one after the other among the nodes.
pub open spec fn tells(f: Fragments, lo: Seq<int>, langs: Seq<Set<Seq<u8>>>) -> bool {
    &&& lo.len() == f.stack.len()
    &&& langs.len() == f.stack.len()
    &&& forall|j: int, k: int| 0 <= j < k < lo.len() ==> #[trigger] lo[j] < #[trigger] lo[k]
    &&& forall|k: int| 0 <= k < f.stack.len() ==> #[trigger] tells_at(f, lo, langs, k)
}

/// A fragment whose nodes a token leaves as they are spells after it what
/// it spelled before.
pub proof fn lemma_untouched(
    f: Fragments,
    lo: Seq<int>,
    langs: Seq<Set<Seq<u8>>>,
    f2: Fragments,
    lo2: Seq<int>,
    langs2: Seq<Set<Seq<u8>>>,
    k: int,
)
    requires
        0 <= k < f.stack.len(),
        k < f2.stack.len(),
        tells_at(f, lo, langs, k),
        same_in(graph(f.nodes), graph(f2.nodes), lo[k], upper(f, lo, k)),
        f2.stack[k] == f.stack[k],
        lo2[k] == lo[k],
        langs2[k] == langs[k],
        upper(f2, lo2, k) == upper(f, lo, k),
    ensures
        tells_at(f2, lo2, langs2, k),
{
    let g = graph(f.nodes);
    let h = graph(f2.nodes);
    let s = f.stack[k].0 as int;
    let a = f.stack[k].1 as int;
    lemma_leads_same(g, h, lo[k], upper(f, lo, k), s, Seq::empty(), a);
    assert forall|w: Seq<u8>| h.leads(s, w, a) <==> #[trigger] langs2[k].contains(w) by {
        lemma_leads_same(g, h, lo[k], upper(f, lo, k), s, w, a);
    }
}

/// A literal puts on the stack a fragment that spells its byte.
pub proof fn lemma_step_word(f: Fragments, lo: Seq<int>, langs: Seq<Set<Seq<u8>>>, c: u8)
    requires
        sound(f),
        tells(f, lo, langs),
        f.nodes.len() + 2 <= usize::MAX - 2,
    ensures
        tells(
            thompson_step(f, Op::Word(c)),
            bounds_step(lo, f.nodes.len() as int, Op::Word(c)),
            language_step(langs, Op::Word(c)),
        ),
{
    let op = Op::Word(c);
    let f2 = thompson_step(f, op);
    let lo2 = bounds_step(lo, f.nodes.len() as int, op);
    let langs2 = language_step(langs, op);
    let g = graph(f.nodes);
    let h = graph(f2.nodes);
    let n = f.nodes.len() as int;
    let top = f.stack.len() as int;
    assert forall|m: int, l: int, t: int|
        #![trigger g.has_edge(m, l, t)]
        #![trigger h.has_edge(m, l, t)]
        h.has_edge(m, l, t) <==> g.has_edge(m, l, t) || (m == n && l == c && t == n + 1) by {}
    assert forall|j: int| 0 <= j < top implies lo[j] < n by {
        assert(tells_at(f, lo, langs, j));
    }
    assert forall|k: int| 0 <= k < f2.stack.len() implies #[trigger] tells_at(
        f2,
        lo2,
        langs2,
        k,
    ) by {
        if k < top {
            assert(tells_at(f, lo, langs, k));
            lemma_untouched(f, lo, langs, f2, lo2, langs2, k);
        } else {
            assert forall|w: Seq<u8>| h.leads(n, w, n + 1) <==> #[trigger] langs2[k].contains(
                w,
            ) by {
                lemma_spells_literal(h, n, n + 1, c, w);
            }
        }
    }
}

/// A concatenation joins the two fragments on top of the stack into one
/// that spells the words of the first followed by words of the second.
pub proof fn lemma_step_concat(f: Fragments, lo: Seq<int>, langs: Seq<Set<Seq<u8>>>)
    requires
        sound(f),
        tells(f, lo, langs),
        f.stack.len() >= 2,
    ensures
        tells(
            thompson_step(f, Op::Concat),
            bounds_step(lo, f.nodes.len() as int, Op::Concat),
            language_step(langs, Op::Concat),
        ),
{
    let op = Op::Concat;
    let f2 = thompson_step(f, op);
    let lo2 = bounds_step(lo, f.nodes.len() as int, op);
    let langs2 = language_step(langs, op);
    let g = graph(f.nodes);
    let h = graph(f2.nodes);
    let n = f.nodes.len() as int;
    let top = f.stack.len() - 1;
    let s1 = f.stack[top - 1].0 as int;
    let a1 = f.stack[top - 1].1 as int;
    let s2 = f.stack[top].0 as int;
    let a2 = f.stack[top].1 as int;
    assert(tells_at(f, lo, langs, top));
    assert(tells_at(f, lo, langs, top - 1));
    assert forall|m: int, l: int, t: int|
        #![trigger g.has_edge(m, l, t)]
        #![trigger h.has_edge(m, l, t)]
        h.has_edge(m, l, t) <==> g.has_edge(m, l, t) || (m == a1 && l == EPSILON && t == s2) by {}
    assert(joins(g, h, lo[top - 1], lo[top], n, s1, a1, s2, a2));
    assert forall|k: int| 0 <= k < f2.stack.len() implies #[trigger] tells_at(
        f2,
        lo2,
        langs2,
        k,
    ) by {
        if k < top - 1 {
            assert(tells_at(f, lo, langs, k));
            lemma_untouched(f, lo, langs, f2, lo2, langs2, k);
        } else {
            lemma_spells_joined(g, h, lo[top - 1], lo[top], n, s1, a1, s2, a2, Seq::empty());
            assert forall|w: Seq<u8>| h.leads(s1, w, a2) <==> #[trigger] langs2[k].contains(
                w,
            ) by {
                lemma_spells_joined(g, h, lo[top - 1], lo[top], n, s1, a1, s2, a2, w);
                if leads_in_two(g, s1, a1, s2, w, a2) {
                    let i = choose|i: int|
                        0 <= i <= w.len() && g.leads(s1, #[trigger] w.take(i), a1) && g.leads(
                            s2,
                            w.skip(i),
                            a2,
                        );
                    assert(langs[top - 1].contains(w.take(i)) && langs[top].contains(w.skip(i)));
                }
                if langs2[k].contains(w) {
                    let i = choose|i: int|
                        0 <= i <= w.len() && langs[top - 1].contains(#[trigger] w.take(i))
                            && langs[top].contains(w.skip(i));
                    assert(g.leads(s1, w.take(i), a1) && g.leads(s2, w.skip(i), a2));
                }
            }
        }
    }
}

/// An alternation puts the two fragments on top of the stack side by side
/// in one that spells the words of both.
pub proof fn lemma_step_alter(f: Fragments, lo: Seq<int>, langs: Seq<Set<Seq<u8>>>)
    requires
        sound(f),
        tells(f, lo, langs),
        f.stack.len() >= 2,
        f.nodes.len() + 2 <= usize::MAX - 2,
    ensures
        tells(
            thompson_step(f, Op::Alter),
            bounds_step(lo, f.nodes.len() as int, Op::Alter),
            language_step(langs, Op::Alter),
        ),
{
    let op = Op::Alter;
    let f2 = thompson_step(f, op);
    let lo2 = bounds_step(lo, f.nodes.len() as int, op);
    let langs2 = language_step(langs, op);
    let g = graph(f.nodes);
    let h = graph(f2.nodes);
    let n = f.nodes.len() as int;
    let top = f.stack.len() - 1;
    let s1 = f.stack[top - 1].0 as int;
    let a1 = f.stack[top - 1].1 as int;
    let s2 = f.stack[top].0 as int;
    let a2 = f.stack[top].1 as int;
    assert(tells_at(f, lo, langs, top));
    assert(tells_at(f, lo, langs, top - 1));
    assert forall|m: int, l: int, t: int|
        #![trigger g.has_edge(m, l, t)]
        #![trigger h.has_edge(m, l, t)]
        h.has_edge(m, l, t) <==> g.has_edge(m, l, t) || (l == EPSILON && ((m == n && (t == s1 || t
            == s2)) || ((m == a1 || m == a2) && t == n + 1))) by {}
    assert(branches(g, h, lo[top - 1], lo[top], n, s1, a1, s2, a2));
    assert forall|k: int| 0 <= k < f2.stack.len() implies #[trigger] tells_at(
        f2,
        lo2,
        langs2,
        k,
    ) by {
        if k < top - 1 {
            assert(tells_at(f, lo, langs, k));
            lemma_untouched(f, lo, langs, f2, lo2, langs2, k);
        } else {
            lemma_spells_either(g, h, lo[top - 1], lo[top], n, s1, a1, s2, a2, Seq::empty());
            assert forall|w: Seq<u8>| h.leads(n, w, n + 1) <==> #[trigger] langs2[k].contains(
                w,
            ) by {
                lemma_spells_either(g, h, lo[top - 1], lo[top], n, s1, a1, s2, a2, w);
                assert(langs[top - 1].contains(w) <==> g.leads(s1, w, a1));
                assert(langs[top].contains(w) <==> g.leads(s2, w, a2));
            }
        }
    }
}

/// A repetition puts the fragment on top of the stack in a loop that
/// spells any number of its words.
pub proof fn lemma_step_star(f: Fragments, lo: Seq<int>, langs: Seq<Set<Seq<u8>>>)
    requires
        sound(f),
        tells(f, lo, langs),
        f.stack.len() >= 1,
        f.nodes.len() + 2 <= usize::MAX - 2,
    ensures
        tells(
            thompson_step(f, Op::Dupstar),
            bounds_step(lo, f.nodes.len() as int, Op::Dupstar),
            language_step(langs, Op::Dupstar),
        ),
{
    let op = Op::Dupstar;
    let f2 = thompson_step(f, op);
    let lo2 = bounds_step(lo, f.nodes.len() as int, op);
    let langs2 = language_step(langs, op);
    let g = graph(f.nodes);
    let h = graph(f2.nodes);
    let n = f.nodes.len() as int;
    let top = f.stack.len() - 1;
    let s0 = f.stack[top].0 as int;
    let a0 = f.stack[top].1 as int;
    assert(tells_at(f, lo, langs, top));
    assert forall|m: int, l: int, t: int|
        #![trigger g.has_edge(m, l, t)]
        #![trigger h.has_edge(m, l, t)]
        h.has_edge(m, l, t) <==> g.has_edge(m, l, t) || (l == EPSILON && (m == n || m == a0) && (t
            == s0 || t == n + 1)) by {}
    assert(loops(g, h, lo[top], n, s0, a0));
    assert forall|k: int| 0 <= k < f2.stack.len() implies #[trigger] tells_at(
        f2,
        lo2,
        langs2,
        k,
    ) by {
        if k < top {
            assert(tells_at(f, lo, langs, k));
            lemma_untouched(f, lo, langs, f2, lo2, langs2, k);
        } else {
            lemma_spells_repeated(g, h, lo[top], n, s0, a0, langs[top], Seq::empty());
            assert forall|w: Seq<u8>| h.leads(n, w, n + 1) <==> #[trigger] langs2[k].contains(
                w,
            ) by {
                lemma_spells_repeated(g, h, lo[top], n, s0, a0, langs[top], w);
            }
        }
    }
}

/// After a postfix form that can be evaluated, each fragment on the stack
/// spells the language that the tokens evaluate to.
pub proof fn lemma_fragments_tell(postfix: Seq<Op>)
    requires
        depth_after(postfix) is Some,
        node_demand(postfix) <= usize::MAX - 2,
    ensures
        tells(fragments_after(postfix), bounds_after(postfix), languages_after(postfix)),
    decreases postfix.len(),
{
    if postfix.len() > 0 {
        let before = postfix.drop_last();
        let f = fragments_after(before);
        let lo = bounds_after(before);
        let langs = languages_after(before);
        lemma_fragments_tell(before);
        lemma_fragments_sound(before);
        match postfix.last() {
            Op::Word(c) => lemma_step_word(f, lo, langs, c),
            Op::Dupstar => lemma_step_star(f, lo, langs),
            Op::Alter => lemma_step_alter(f, lo, langs),
            Op::Concat => lemma_step_concat(f, lo, langs),
            _ => {},
        }
    }
}

/// The automaton built from a well-formed postfix form spells, from its
/// start node to its accept node, exactly the language of the pattern.
pub proof fn lemma_thompson_spells(postfix: Seq<Op>, w: Seq<u8>)
    requires
        well_formed(postfix),
        node_demand(postfix) <= usize::MAX - 2,
    ensures
        thompson(postfix).spells(w) <==> language(postfix).contains(w),
{
    let f = fragments_after(postfix);
    let a = thompson(postfix);
    lemma_fragments_tell(postfix);
    lemma_fragments_sound(postfix);
    assert(tells_at(f, bounds_after(postfix), languages_after(postfix), 0));
    lemma_leads_by_nodes(a, graph(f.nodes), a.start, w, a.accept);
}

/// An automaton that was built from a postfix form matches exactly the
/// words of the pattern's language, the empty word left out.
pub proof fn lemma_compiled_language(postfix: Seq<Op>, w: Seq<u8>)
    ensures
        compile_postfix(postfix) matches Ok(a) ==> (a.accepts(w) <==> w.len() > 0 && language(
            postfix,
        ).contains(w)),
{
    if let Ok(a) = compile_postfix(postfix) {
        lemma_thompson_wf(postfix);
        lemma_thompson_spells(postfix, w);
        a.lemma_accepts_iff_spells(w);
    }
}

/// An automaton that was compiled from a pattern matches exactly the
/// words of the pattern's language, the empty word left out.
pub proof fn lemma_pattern_language(pattern: Seq<u8>, w: Seq<u8>)
    ensures
        compile(pattern) matches Ok(a) ==> (a.accepts(w) <==> w.len() > 0 && language(
            to_postfix(tokenize(pattern)).unwrap(),
        ).contains(w)),
{
    if let Some(postfix) = to_postfix(tokenize(pattern)) {
        lemma_compiled_language(postfix, w);
    }
}

/// Every range that a search finds with an automaton built from a postfix
/// form is a word of the pattern's language.
pub proof fn lemma_matches_in_language(postfix: Seq<Op>, text: Seq<u8>)
    requires
        text.len() <= usize::MAX,
    ensures
        compile_postfix(postfix) matches Ok(a) ==> forall|k: int|
            0 <= k < crate::search::matches(a, text).len() ==> language(postfix).contains(
                text.subrange(
                    (#[trigger] crate::search::matches(a, text)[k]).0 as int,
                    crate::search::matches(a, text)[k].1 + 1,
                ),
            ),
{
    if let Ok(a) = compile_postfix(postfix) {
        let found: Seq<Range> = crate::search::matches(a, text);
        lemma_matches_accepted(a, text);
        assert forall|k: int| 0 <= k < found.len() implies language(postfix).contains(
            text.subrange((#[trigger] found[k]).0 as int, found[k].1 + 1),
        ) by {
            lemma_compiled_language(postfix, text.subrange(found[k].0 as int, found[k].1 + 1));
        }
    }
}

} // verus!
