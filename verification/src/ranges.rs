//! From the candidates of a search to its result: the candidates in order,
//! one kept for each origin, and of those the ones that do not overlap.

use vstd::multiset::group_multiset_axioms;
use vstd::prelude::*;
use vstd::relations::{sorted_by, total_ordering};
use vstd::seq_lib::{
    group_to_multiset_ensures, lemma_multiset_commutative, lemma_sorted_unique, to_multiset_build,
    to_multiset_len,
};

verus! {

/// A range of a text, from its first byte to its last, both included.
pub type Range = (usize, usize);

/// The order of candidates: by where they begin, and of two that begin at
/// one place the longer first.
pub open spec fn candidate_leq(x: Range, y: Range) -> bool {
    x.0 < y.0 || (x.0 == y.0 && x.1 >= y.1)
}

/// The order of candidates as a relation.
pub open spec fn candidate_order() -> spec_fn(Range, Range) -> bool {
    |x: Range, y: Range| candidate_leq(x, y)
}

/// The candidates in order.
pub open spec fn sorted_candidates(candidates: Seq<Range>) -> Seq<Range> {
    candidates.sort_by(candidate_order())
}

/// Of each run of ranges that begin at one place, the first.
pub open spec fn first_per_origin(ranges: Seq<Range>) -> Seq<Range>
    decreases ranges.len(),
{
    if ranges.len() == 0 {
        ranges
    } else {
        let before = first_per_origin(ranges.drop_last());
        if ranges.len() >= 2 && ranges[ranges.len() - 2].0 == ranges.last().0 {
            before
        } else {
            before.push(ranges.last())
        }
    }
}

/// The state of a sweep over ranges from left to right.
pub struct Sweep {
    /// The ranges kept so far.
    pub kept: Seq<Range>,
    /// The first place at which the next range kept may begin.
    pub cursor: int,
}

/// The sweep over `ranges`: a range that begins before the cursor is
/// passed over; any other is kept, and the cursor moves just behind it.
pub open spec fn sweep(ranges: Seq<Range>) -> Sweep
    decreases ranges.len(),
{
    if ranges.len() == 0 {
        Sweep { kept: Seq::empty(), cursor: 0 }
    } else {
        let before = sweep(ranges.drop_last());
        let r = ranges.last();
        if r.0 < before.cursor {
            before
        } else {
            Sweep { kept: before.kept.push(r), cursor: r.1 + 1 }
        }
    }
}

/// What is left of the candidates of a search: they are put in order, the
/// longest is kept of those that begin at one place, and what is left is
/// swept from left to right.
pub open spec fn resolve(candidates: Seq<Range>) -> Seq<Range> {
    sweep(first_per_origin(sorted_candidates(candidates))).kept
}

/// Whether each of `ranges` lies in a text of `len` bytes and does not end
/// before it begins.
pub open spec fn within(ranges: Seq<Range>, len: int) -> bool {
    forall|k: int| 0 <= k < ranges.len() ==> (#[trigger] ranges[k]).0 <= ranges[k].1 < len
}

/// Whether `ranges` go from left to right without overlap: each ends
/// before any later one begins.
pub open spec fn apart(ranges: Seq<Range>) -> bool {
    forall|k: int, l: int|
        0 <= k < l < ranges.len() ==> (#[trigger] ranges[k]).1 < (#[trigger] ranges[l]).0
}

/// The order of candidates is total.
pub proof fn lemma_candidate_order_total()
    ensures
        total_ordering(candidate_order()),
{
    let leq = candidate_order();
    assert forall|x: Range, y: Range| #[trigger] leq(x, y) && leq(y, x) implies x == y by {}
}

/// The candidates in order are the same candidates, each as often as
/// before, and each comes before those behind it.
pub proof fn lemma_sorted_candidates(candidates: Seq<Range>)
    ensures
        sorted_candidates(candidates).to_multiset() == candidates.to_multiset(),
        sorted_by(sorted_candidates(candidates), candidate_order()),
{
    lemma_candidate_order_total();
    candidates.lemma_sort_by_ensures(candidate_order());
}

/// Whether `x` comes before `y` in the order of candidates, or is `y`.
pub fn candidate_before(x: Range, y: Range) -> (b: bool)
    ensures
        b == candidate_leq(x, y),
{
    x.0 < y.0 || (x.0 == y.0 && x.1 >= y.1)
}

/// Merges two sequences that are in order into one.
fn merge(left: &Vec<Range>, right: &Vec<Range>) -> (out: Vec<Range>)
    requires
        sorted_by(left@, candidate_order()),
        sorted_by(right@, candidate_order()),
    ensures
        sorted_by(out@, candidate_order()),
        out@.to_multiset() == left@.to_multiset().add(right@.to_multiset()),
{
    broadcast use group_multiset_axioms;
    broadcast use group_to_multiset_ensures;

    let ghost leq = candidate_order();
    let mut out: Vec<Range> = Vec::new();
    let mut i: usize = 0;
    let mut j: usize = 0;
    while i < left.len() || j < right.len()
        invariant
            i <= left.len(),
            j <= right.len(),
            leq == candidate_order(),
            sorted_by(left@, leq),
            sorted_by(right@, leq),
            sorted_by(out@, leq),
            out@.to_multiset() =~= left@.take(i as int).to_multiset().add(
                right@.take(j as int).to_multiset(),
            ),
            forall|k: int, p: int|
                0 <= k < out.len() && i <= p < left.len() ==> #[trigger] leq(out@[k], left@[p]),
            forall|k: int, q: int|
                0 <= k < out.len() && j <= q < right.len() ==> #[trigger] leq(out@[k], right@[q]),
        decreases left.len() - i + right.len() - j,
    {
        let ghost before = out@;
        if j >= right.len() || (i < left.len() && candidate_before(left[i], right[j])) {
            let x = left[i];
            proof {
                assert(left@.take(i + 1) =~= left@.take(i as int).push(x));
                assert forall|q: int| j <= q < right.len() implies leq(x, right@[q]) by {
                    assert(leq(x, right@[j as int]));
                    if j < q {
                        assert(leq(right@[j as int], right@[q]));
                    }
                }
                assert forall|p: int| i + 1 <= p < left.len() implies leq(x, left@[p]) by {
                    assert(leq(left@[i as int], left@[p]));
                }
            }
            out.push(x);
            proof {
                let a = left@.take(i as int).to_multiset();
                let b = right@.take(j as int).to_multiset();
                to_multiset_build(before, x);
                to_multiset_build(left@.take(i as int), x);
                assert(a.add(b).insert(x) =~= a.insert(x).add(b));
            }
            i = i + 1;
        } else {
            let x = right[j];
            proof {
                assert(right@.take(j + 1) =~= right@.take(j as int).push(x));
                assert forall|p: int| i <= p < left.len() implies leq(x, left@[p]) by {
                    assert(leq(x, left@[i as int]));
                    if i < p {
                        assert(leq(left@[i as int], left@[p]));
                    }
                }
                assert forall|q: int| j + 1 <= q < right.len() implies leq(x, right@[q]) by {
                    assert(leq(right@[j as int], right@[q]));
                }
            }
            out.push(x);
            proof {
                let a = left@.take(i as int).to_multiset();
                let b = right@.take(j as int).to_multiset();
                to_multiset_build(before, x);
                to_multiset_build(right@.take(j as int), x);
                assert(a.add(b).insert(x) =~= a.add(b.insert(x)));
            }
            j = j + 1;
        }
        proof {
            assert forall|k: int, l: int| 0 <= k < l < out.len() implies leq(out@[k], out@[l]) by {
                if l < before.len() {
                    assert(leq(before[k], before[l]));
                }
            }
        }
    }
    proof {
        assert(left@.take(i as int) =~= left@);
        assert(right@.take(j as int) =~= right@);
    }
    out
}

/// The ranges `v[lo..hi]` in the order of candidates.
fn sort_range(v: &Vec<Range>, lo: usize, hi: usize) -> (out: Vec<Range>)
    requires
        lo <= hi <= v.len(),
    ensures
        sorted_by(out@, candidate_order()),
        out@.to_multiset() == v@.subrange(lo as int, hi as int).to_multiset(),
    decreases hi - lo,
{
    let mut out: Vec<Range> = Vec::new();
    if hi - lo == 0 {
        proof {
            assert(v@.subrange(lo as int, hi as int) =~= out@);
        }
        out
    } else if hi - lo == 1 {
        out.push(v[lo]);
        proof {
            assert(v@.subrange(lo as int, hi as int) =~= out@);
        }
        out
    } else {
        let mid = lo + (hi - lo) / 2;
        let left = sort_range(v, lo, mid);
        let right = sort_range(v, mid, hi);
        proof {
            lemma_multiset_commutative(
                v@.subrange(lo as int, mid as int),
                v@.subrange(mid as int, hi as int),
            );
            assert(v@.subrange(lo as int, mid as int) + v@.subrange(mid as int, hi as int)
                =~= v@.subrange(lo as int, hi as int));
        }
        merge(&left, &right)
    }
}

/// Puts candidates in order.
pub fn sort_candidates(candidates: &Vec<Range>) -> (out: Vec<Range>)
    ensures
        out@ == sorted_candidates(candidates@),
{
    let out = sort_range(candidates, 0, candidates.len());
    proof {
        assert(candidates@.subrange(0, candidates.len() as int) =~= candidates@);
        lemma_candidate_order_total();
        candidates@.lemma_sort_by_ensures(candidate_order());
        lemma_sorted_unique(out@, sorted_candidates(candidates@), candidate_order());
    }
    out
}

/// What is left of candidates is among them.
pub proof fn lemma_resolve_subset(candidates: Seq<Range>)
    ensures
        forall|k: int|
            0 <= k < resolve(candidates).len() ==> candidates.contains(
                #[trigger] resolve(candidates)[k],
            ),
{
    let sorted = sorted_candidates(candidates);
    let firsts = first_per_origin(sorted);
    lemma_candidate_order_total();
    candidates.lemma_sort_by_ensures(candidate_order());
    lemma_first_per_origin_subset(sorted);
    lemma_sweep_subset(firsts);
    assert forall|k: int| 0 <= k < resolve(candidates).len() implies candidates.contains(
        #[trigger] resolve(candidates)[k],
    ) by {
        assert(firsts.contains(sweep(firsts).kept[k]));
        assert(sorted.contains(sweep(firsts).kept[k]));
    }
}

/// The ranges kept for the origins are among the ranges.
pub proof fn lemma_first_per_origin_subset(ranges: Seq<Range>)
    ensures
        forall|k: int|
            0 <= k < first_per_origin(ranges).len() ==> ranges.contains(
                #[trigger] first_per_origin(ranges)[k],
            ),
    decreases ranges.len(),
{
    if ranges.len() > 0 {
        lemma_first_per_origin_subset(ranges.drop_last());
        assert forall|k: int| 0 <= k < first_per_origin(ranges).len() implies ranges.contains(
            #[trigger] first_per_origin(ranges)[k],
        ) by {
            let r = first_per_origin(ranges)[k];
            if k < first_per_origin(ranges.drop_last()).len() {
                assert(ranges.drop_last().contains(r));
                let from = choose|from: int|
                    0 <= from < ranges.drop_last().len() && ranges.drop_last()[from] == r;
                assert(ranges[from] == r);
            } else {
                assert(ranges[ranges.len() - 1] == r);
            }
        }
    }
}

/// The ranges kept by a sweep are among the ranges swept.
pub proof fn lemma_sweep_subset(ranges: Seq<Range>)
    ensures
        forall|k: int|
            0 <= k < sweep(ranges).kept.len() ==> ranges.contains(#[trigger] sweep(ranges).kept[k]),
    decreases ranges.len(),
{
    if ranges.len() > 0 {
        lemma_sweep_subset(ranges.drop_last());
        assert forall|k: int| 0 <= k < sweep(ranges).kept.len() implies ranges.contains(
            #[trigger] sweep(ranges).kept[k],
        ) by {
            let r = sweep(ranges).kept[k];
            if k < sweep(ranges.drop_last()).kept.len() {
                assert(ranges.drop_last().contains(r));
                let from = choose|from: int|
                    0 <= from < ranges.drop_last().len() && ranges.drop_last()[from] == r;
                assert(ranges[from] == r);
            } else {
                assert(ranges[ranges.len() - 1] == r);
            }
        }
    }
}

/// Putting candidates in order keeps them within the text.
pub proof fn lemma_sorted_within(candidates: Seq<Range>, len: int)
    requires
        within(candidates, len),
    ensures
        within(sorted_candidates(candidates), len),
{
    let sorted = sorted_candidates(candidates);
    lemma_candidate_order_total();
    candidates.lemma_sort_by_ensures(candidate_order());
    assert forall|k: int| 0 <= k < sorted.len() implies (#[trigger] sorted[k]).0 <= sorted[k].1
        < len by {
        assert(sorted.contains(sorted[k]));
        let from = choose|from: int| 0 <= from < candidates.len() && candidates[from] == sorted[k];
        assert(candidates[from].0 <= candidates[from].1 < len);
    }
}

/// Keeping one range for each origin keeps the ranges within the text.
pub proof fn lemma_first_per_origin_within(ranges: Seq<Range>, len: int)
    requires
        within(ranges, len),
    ensures
        within(first_per_origin(ranges), len),
    decreases ranges.len(),
{
    if ranges.len() > 0 {
        lemma_first_per_origin_within(ranges.drop_last(), len);
    }
}

/// A sweep over ranges within a text keeps ranges within it that go from
/// left to right without overlap, each of them before the cursor.
pub proof fn lemma_sweep_apart(ranges: Seq<Range>, len: int)
    requires
        within(ranges, len),
    ensures
        within(sweep(ranges).kept, len),
        apart(sweep(ranges).kept),
        0 <= sweep(ranges).cursor,
        forall|k: int|
            0 <= k < sweep(ranges).kept.len() ==> (#[trigger] sweep(ranges).kept[k]).1 < sweep(
                ranges,
            ).cursor,
    decreases ranges.len(),
{
    if ranges.len() > 0 {
        lemma_sweep_apart(ranges.drop_last(), len);
    }
}

/// What is left of candidates within a text is within the text, and goes
/// from left to right without overlap.
pub proof fn lemma_resolve_apart(candidates: Seq<Range>, len: int)
    requires
        within(candidates, len),
    ensures
        within(resolve(candidates), len),
        apart(resolve(candidates)),
{
    lemma_sorted_within(candidates, len);
    lemma_first_per_origin_within(sorted_candidates(candidates), len);
    lemma_sweep_apart(first_per_origin(sorted_candidates(candidates)), len);
}

/// Of no candidates nothing is left.
pub proof fn lemma_resolve_nothing()
    ensures
        resolve(Seq::<Range>::empty()) == Seq::<Range>::empty(),
{
    let none = Seq::<Range>::empty();
    lemma_candidate_order_total();
    none.lemma_sort_by_ensures(candidate_order());
    to_multiset_len(none);
    to_multiset_len(sorted_candidates(none));
    assert(sorted_candidates(none) =~= none);
}

} // verus!
