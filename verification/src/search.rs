//! The search for the matches of a pattern in a text: match attempts that
//! start at every place of the text and are stepped together, the
//! candidates that they yield, and what is kept of those.

use crate::automaton::Automaton;
use crate::bits::{lemma_members_of_nonzero, lemma_members_of_zero, members};
use crate::nfa::Nfa;
use crate::ranges::{
    apart, first_per_origin, lemma_resolve_apart, lemma_resolve_nothing, lemma_resolve_subset,
    resolve, sort_candidates, sweep, within, Range,
};
use vstd::prelude::*;
use vstd::utf8::encode_utf8;

verus! {

/// A match attempt in progress.
pub struct Thread {
    /// The place of the text at which the attempt began.
    pub origin: usize,
    /// The nodes that the attempt is in.
    pub state: Set<int>,
}

/// The attempts that are left after a byte was read, and the origin of the
/// attempt that reached the accept node on it, if one did.
pub struct Frontier {
    pub threads: Seq<Thread>,
    pub hit: Option<usize>,
}

/// The outcome of reading the byte `c` in each of `threads`, oldest first.
/// An attempt whose set becomes empty is dropped. The first attempt whose
/// set holds the accept node is a hit: it goes on, and the attempts after
/// it are dropped unread.
pub open spec fn advance(a: Automaton, threads: Seq<Thread>, c: u8) -> Frontier
    decreases threads.len(),
{
    if threads.len() == 0 {
        Frontier { threads: Seq::empty(), hit: None }
    } else {
        let before = advance(a, threads.drop_last(), c);
        let next = a.step(threads.last().state, c);
        if before.hit is Some || next == Set::<int>::empty() {
            before
        } else {
            Frontier {
                threads: before.threads.push(Thread { origin: threads.last().origin, state: next }),
                hit: if a.accepting(next) {
                    Some(threads.last().origin)
                } else {
                    None
                },
            }
        }
    }
}

/// The state of a search between two bytes of the text.
pub struct Search {
    /// The attempts in progress, oldest first.
    pub threads: Seq<Thread>,
    /// The candidates found so far: for each hit the origin of the attempt
    /// and the place of the byte on which it hit.
    pub candidates: Seq<Range>,
}

/// The state of the search after all of `text`. At each place an attempt
/// is started, then the byte at that place is read in every attempt.
pub open spec fn search_after(a: Automaton, text: Seq<u8>) -> Search
    decreases text.len(),
{
    if text.len() == 0 {
        Search { threads: Seq::empty(), candidates: Seq::empty() }
    } else {
        let before = search_after(a, text.drop_last());
        let place = (text.len() - 1) as usize;
        let f = advance(
            a,
            before.threads.push(Thread { origin: place, state: a.start_state() }),
            text.last(),
        );
        Search {
            threads: f.threads,
            candidates: match f.hit {
                Some(origin) => before.candidates.push((origin, place)),
                None => before.candidates,
            },
        }
    }
}

/// The matches of an automaton in a text: what is left of the candidates
/// of the search.
pub open spec fn matches(a: Automaton, text: Seq<u8>) -> Seq<Range> {
    resolve(search_after(a, text).candidates)
}

/// The attempts that pairs of an origin and a word of bits stand for.
pub open spec fn threads_of(state: Seq<(usize, u64)>) -> Seq<Thread> {
    Seq::new(state.len(), |k: int| Thread { origin: state[k].0, state: members(state[k].1) })
}

/// After a hit, the attempts that follow change nothing.
pub proof fn lemma_advance_after_hit(a: Automaton, threads: Seq<Thread>, c: u8, k: int)
    requires
        0 <= k <= threads.len(),
        advance(a, threads.take(k), c).hit is Some,
    ensures
        advance(a, threads, c) == advance(a, threads.take(k), c),
    decreases threads.len() - k,
{
    if k < threads.len() {
        assert(threads.take(k + 1).drop_last() =~= threads.take(k));
        lemma_advance_after_hit(a, threads, c, k + 1);
    } else {
        assert(threads.take(k) =~= threads);
    }
}

/// Reading a byte starts no attempt: what is left of attempts that began
/// before `bound` began before `bound`, and so did the one that hit.
pub proof fn lemma_advance_origins(a: Automaton, threads: Seq<Thread>, c: u8, bound: int)
    requires
        forall|k: int| 0 <= k < threads.len() ==> (#[trigger] threads[k]).origin < bound,
    ensures
        forall|k: int|
            0 <= k < advance(a, threads, c).threads.len() ==> (#[trigger] advance(
                a,
                threads,
                c,
            ).threads[k]).origin < bound,
        advance(a, threads, c).hit matches Some(origin) ==> origin < bound,
    decreases threads.len(),
{
    if threads.len() > 0 {
        lemma_advance_origins(a, threads.drop_last(), c, bound);
    }
}

/// The attempts of a search began within the text, and each candidate is a
/// range of the text that does not end before it begins.
pub proof fn lemma_candidates_within(a: Automaton, text: Seq<u8>)
    requires
        text.len() <= usize::MAX,
    ensures
        forall|k: int|
            0 <= k < search_after(a, text).threads.len() ==> (#[trigger] search_after(
                a,
                text,
            ).threads[k]).origin < text.len(),
        within(search_after(a, text).candidates, text.len() as int),
    decreases text.len(),
{
    if text.len() > 0 {
        let before = search_after(a, text.drop_last());
        let place = (text.len() - 1) as usize;
        let threads = before.threads.push(Thread { origin: place, state: a.start_state() });
        lemma_candidates_within(a, text.drop_last());
        lemma_advance_origins(a, threads, text.last(), text.len() as int);
    }
}

/// Whether each of `threads` began at or before `len` and is in the set of
/// nodes that reading `text` from there up to `len` leads to.
pub open spec fn tracks(a: Automaton, threads: Seq<Thread>, text: Seq<u8>, len: int) -> bool {
    forall|k: int|
        0 <= k < threads.len() ==> {
            &&& (#[trigger] threads[k]).origin <= len
            &&& threads[k].state == a.run(text.subrange(threads[k].origin as int, len))
        }
}

/// Whether the automaton matches each of `ranges` of `text`.
pub open spec fn all_accepted(a: Automaton, ranges: Seq<Range>, text: Seq<u8>) -> bool {
    forall|k: int|
        0 <= k < ranges.len() ==> {
            &&& (#[trigger] ranges[k]).0 <= ranges[k].1 < text.len()
            &&& a.accepts(text.subrange(ranges[k].0 as int, ranges[k].1 + 1))
        }
}

/// Reading the byte at `len` in attempts that track the text up to `len`
/// leaves attempts that track it up to `len + 1`, and the automaton
/// matches the text from where a hit began up to that byte.
pub proof fn lemma_advance_tracks(a: Automaton, threads: Seq<Thread>, text: Seq<u8>, len: int)
    requires
        0 <= len < text.len(),
        tracks(a, threads, text, len),
    ensures
        tracks(a, advance(a, threads, text[len]).threads, text, len + 1),
        advance(a, threads, text[len]).hit matches Some(origin) ==> origin <= len && a.accepts(
            text.subrange(origin as int, len + 1),
        ),
    decreases threads.len(),
{
    if threads.len() > 0 {
        let t = threads.last();
        lemma_advance_tracks(a, threads.drop_last(), text, len);
        assert(t == threads[threads.len() - 1]);
        assert(text.subrange(t.origin as int, len + 1).drop_last() =~= text.subrange(
            t.origin as int,
            len,
        ));
    }
}

/// While a text is searched, the attempts track the text, and the
/// automaton matches every candidate.
pub proof fn lemma_search_tracks(a: Automaton, text: Seq<u8>, len: int)
    requires
        0 <= len <= text.len() <= usize::MAX,
    ensures
        tracks(a, search_after(a, text.take(len)).threads, text, len),
        all_accepted(a, search_after(a, text.take(len)).candidates, text),
        forall|k: int|
            0 <= k < search_after(a, text.take(len)).candidates.len() ==> (#[trigger] search_after(
                a,
                text.take(len),
            ).candidates[k]).1 < len,
    decreases len,
{
    if len > 0 {
        let before = search_after(a, text.take(len - 1));
        let place = (len - 1) as usize;
        let threads = before.threads.push(Thread { origin: place, state: a.start_state() });
        lemma_search_tracks(a, text, len - 1);
        assert(text.take(len).drop_last() =~= text.take(len - 1));
        assert(text.take(len).last() == text[len - 1]);
        assert(text.subrange(place as int, len - 1) =~= Seq::<u8>::empty());
        assert(tracks(a, threads, text, len - 1));
        lemma_advance_tracks(a, threads, text, len - 1);
    }
}

/// The automaton matches every range that a search finds.
pub proof fn lemma_matches_accepted(a: Automaton, text: Seq<u8>)
    requires
        text.len() <= usize::MAX,
    ensures
        all_accepted(a, matches(a, text), text),
{
    let candidates = search_after(a, text).candidates;
    let found = matches(a, text);
    lemma_search_tracks(a, text, text.len() as int);
    assert(text.take(text.len() as int) =~= text);
    lemma_resolve_subset(candidates);
    assert forall|k: int| 0 <= k < found.len() implies {
        &&& (#[trigger] found[k]).0 <= found[k].1 < text.len()
        &&& a.accepts(text.subrange(found[k].0 as int, found[k].1 + 1))
    } by {
        assert(candidates.contains(found[k]));
        let from = choose|from: int| 0 <= from < candidates.len() && candidates[from] == found[k];
        assert(candidates[from].0 <= candidates[from].1);
    }
}

/// A search of the empty text finds nothing, whatever the automaton.
pub proof fn lemma_empty_text_no_match(a: Automaton)
    ensures
        matches(a, Seq::<u8>::empty()) == Seq::<Range>::empty(),
{
    lemma_resolve_nothing();
}

/// What a search finds depends on the automaton and the text alone: two
/// searches of one text with one automaton find the same.
pub proof fn lemma_search_repeatable(
    a: Automaton,
    text: Seq<u8>,
    first: Seq<Range>,
    second: Seq<Range>,
)
    requires
        first == matches(a, text),
        second == matches(a, text),
    ensures
        first == second,
{
}

/// The matches of a search are ranges of the text, none ending before it
/// begins, that go from left to right without overlap.
pub proof fn lemma_matches_apart(a: Automaton, text: Seq<u8>)
    requires
        text.len() <= usize::MAX,
    ensures
        within(matches(a, text), text.len() as int),
        apart(matches(a, text)),
{
    lemma_candidates_within(a, text);
    lemma_resolve_apart(search_after(a, text).candidates, text.len() as int);
}

impl Nfa {
    /// Of candidates in any order, keeps the longest for each origin, and
    /// of those, from left to right, each that begins behind the one kept
    /// before it.
    pub fn remove_overlap_range(&self, range: Vec<Range>) -> (kept: Vec<Range>)
        ensures
            kept@ == resolve(range@),
    {
        let sorted = sort_candidates(&range);
        let mut kept: Vec<Range> = Vec::new();
        let mut cursor: usize = 0;
        let mut room: bool = true;
        let mut k: usize = 0;
        while k < sorted.len()
            invariant
                k <= sorted.len(),
                kept@ == sweep(first_per_origin(sorted@.take(k as int))).kept,
                room ==> cursor == sweep(first_per_origin(sorted@.take(k as int))).cursor,
                !room ==> sweep(first_per_origin(sorted@.take(k as int))).cursor > usize::MAX,
            decreases sorted.len() - k,
        {
            let r = sorted[k];
            proof {
                assert(sorted@.take(k + 1).drop_last() =~= sorted@.take(k as int));
                let firsts = first_per_origin(sorted@.take(k as int));
                assert(firsts.push(r).drop_last() =~= firsts);
            }
            if k == 0 || sorted[k - 1].0 != r.0 {
                if room && r.0 >= cursor {
                    kept.push(r);
                    if r.1 == usize::MAX {
                        room = false;
                    } else {
                        cursor = r.1 + 1;
                    }
                }
            }
            k = k + 1;
        }
        proof {
            assert(sorted@.take(k as int) =~= sorted@);
        }
        kept
    }

    /// The matches of the pattern in a text given as a string: the bytes
    /// of its UTF-8 encoding are the text, and the ranges count bytes.
    pub fn partial_match(&self, s: &String) -> (found: Vec<Range>)
        ensures
            found@ == matches(self@, encode_utf8(s@)),
            within(found@, encode_utf8(s@).len() as int),
            apart(found@),
            all_accepted(self@, found@, encode_utf8(s@)),
    {
        self.search(s.as_str().as_bytes())
    }

    /// Reads the byte `c` in each of the attempts `state`, oldest first,
    /// up to the first that reaches the accept node. Gives the attempts
    /// that are left and the origin of the one that hit, if one did.
    pub fn advance_threads(&self, state: &Vec<(usize, u64)>, c: u8) -> (res: (
        Vec<(usize, u64)>,
        Option<usize>,
    ))
        ensures
            (Frontier { threads: threads_of(res.0@), hit: res.1 }) == advance(
                self@,
                threads_of(state@),
                c,
            ),
    {
        let ghost a = self@;
        let ghost threads = threads_of(state@);
        let mut new_state: Vec<(usize, u64)> = Vec::new();
        let mut k: usize = 0;
        proof {
            assert(threads_of(new_state@) =~= Seq::<Thread>::empty());
            assert(threads.take(0).len() == 0);
        }
        while k < state.len()
            invariant
                k <= state.len(),
                a == self@,
                threads == threads_of(state@),
                (Frontier { threads: threads_of(new_state@), hit: None }) == advance(
                    a,
                    threads.take(k as int),
                    c,
                ),
            decreases state.len() - k,
        {
            let (from, set) = state[k];
            let new_set = self.step(set, c);
            proof {
                assert(threads.take(k + 1).drop_last() =~= threads.take(k as int));
                lemma_members_of_zero();
                if new_set != 0 {
                    lemma_members_of_nonzero(new_set);
                }
            }
            if new_set != 0 {
                let ghost kept = threads_of(new_state@);
                new_state.push((from, new_set));
                proof {
                    assert(threads_of(new_state@) =~= kept.push(
                        Thread { origin: from, state: members(new_set) },
                    ));
                }
                if self.is_accept_state(new_set) {
                    proof {
                        lemma_advance_after_hit(a, threads, c, k + 1);
                    }
                    return (new_state, Some(from));
                }
            }
            k = k + 1;
        }
        proof {
            assert(threads.take(k as int) =~= threads);
        }
        (new_state, None)
    }

    /// The matches of the pattern in a text, from left to right: ranges of
    /// the text, first and last byte included, that do not overlap.
    ///
    /// An attempt to match starts at every place of the text. An attempt
    /// that has reached the accept node goes on as long as the bytes allow,
    /// so that of the matches that begin at one place the longest is found;
    /// and whenever an attempt reaches the accept node, the attempts that
    /// began after it are given up. A match is at least one byte long.
    pub fn search(&self, text: &[u8]) -> (found: Vec<Range>)
        ensures
            found@ == matches(self@, text@),
            within(found@, text@.len() as int),
            apart(found@),
            all_accepted(self@, found@, text@),
    {
        let ghost a = self@;
        let mut state: Vec<(usize, u64)> = Vec::new();
        let mut res: Vec<Range> = Vec::new();
        let start_set = self.get_start_state();
        let mut i: usize = 0;
        while i < text.len()
            invariant
                i <= text.len(),
                a == self@,
                members(start_set) == a.start_state(),
                threads_of(state@) == search_after(a, text@.take(i as int)).threads,
                res@ == search_after(a, text@.take(i as int)).candidates,
            decreases text.len() - i,
        {
            let ghost before = search_after(a, text@.take(i as int));
            state.push((i, start_set));
            proof {
                assert(text@.take(i + 1).drop_last() =~= text@.take(i as int));
                assert(threads_of(state@) =~= before.threads.push(
                    Thread { origin: i, state: a.start_state() },
                ));
            }
            let (new_state, hit) = self.advance_threads(&state, text[i]);
            if let Some(from) = hit {
                res.push((from, i));
            }
            state = new_state;
            i = i + 1;
        }
        proof {
            assert(text@.take(i as int) =~= text@);
            lemma_matches_apart(a, text@);
            lemma_matches_accepted(a, text@);
        }
        self.remove_overlap_range(res)
    }
}

} // verus!
