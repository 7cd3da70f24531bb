//! Sets of node numbers below 64, each held in one `u64`: bit `i` of the
//! word says whether `i` is in the set.

use vstd::prelude::*;
use vstd::set_lib::{lemma_int_range, lemma_len_subset, set_int_range};
use vstd::std_specs::bits::{axiom_u64_trailing_zeros, u64_trailing_zeros};

verus! {

/// Whether `i` is in the set that `word` holds.
pub open spec fn has_bit(word: u64, i: int) -> bool {
    0 <= i < 64 && (word >> (i as u64)) & 1 == 1
}

/// The set that `word` holds.
pub open spec fn members(word: u64) -> Set<int> {
    Set::new(|i: int| has_bit(word, i))
}

proof fn lemma_bit_of_zero(j: u64)
    by (bit_vector)
    requires
        j < 64,
    ensures
        (0u64 >> j) & 1 == 0,
{
}

proof fn lemma_bit_of_single(i: u64, j: u64)
    by (bit_vector)
    requires
        i < 64,
        j < 64,
    ensures
        ((1u64 << i) >> j) & 1 == 1 <==> i == j,
{
}

proof fn lemma_bit_of_or(a: u64, b: u64, j: u64)
    by (bit_vector)
    requires
        j < 64,
    ensures
        ((a | b) >> j) & 1 == 1 <==> ((a >> j) & 1 == 1 || (b >> j) & 1 == 1),
{
}

proof fn lemma_bit_of_cleared(a: u64, i: u64, j: u64)
    by (bit_vector)
    requires
        i < 64,
        j < 64,
    ensures
        ((a & !(1u64 << i)) >> j) & 1 == 1 <==> ((a >> j) & 1 == 1 && i != j),
{
}

proof fn lemma_bit_of_xor(a: u64, b: u64, j: u64)
    by (bit_vector)
    requires
        j < 64,
    ensures
        ((a ^ b) >> j) & 1 == 1 <==> ((a >> j) & 1 == 1) != ((b >> j) & 1 == 1),
{
}

proof fn lemma_xor_of_equals(a: u64, b: u64)
    by (bit_vector)
    requires
        a ^ b == 0,
    ensures
        a == b,
{
}

/// The empty set is the word 0.
pub proof fn lemma_members_of_zero()
    ensures
        members(0) == Set::<int>::empty(),
{
    assert forall|j: int| !has_bit(0, j) by {
        if 0 <= j < 64 {
            lemma_bit_of_zero(j as u64);
        }
    }
    assert(members(0) =~= Set::<int>::empty());
}

/// A word other than 0 holds a set that is not empty.
pub proof fn lemma_members_of_nonzero(word: u64)
    requires
        word != 0,
    ensures
        has_bit(word, u64_trailing_zeros(word) as int),
        members(word) != Set::<int>::empty(),
{
    axiom_u64_trailing_zeros(word);
    assert(members(word).contains(u64_trailing_zeros(word) as int));
}

/// Two words that hold the same set are the same word.
pub proof fn lemma_members_injective(a: u64, b: u64)
    requires
        members(a) == members(b),
    ensures
        a == b,
{
    if a ^ b != 0 {
        axiom_u64_trailing_zeros(a ^ b);
        let j = u64_trailing_zeros(a ^ b) as u64;
        assert(j < 64);
        assert(((a ^ b) >> j) & 1 == 1);
        lemma_bit_of_xor(a, b, j);
        assert(members(a).contains(j as int) == has_bit(a, j as int));
        assert(members(b).contains(j as int) == has_bit(b, j as int));
    }
    lemma_xor_of_equals(a, b);
}

/// A word holds at most 64 numbers.
pub proof fn lemma_members_bounded(word: u64)
    ensures
        members(word).finite(),
        members(word).len() <= 64,
{
    lemma_int_range(0, 64);
    assert(members(word).subset_of(set_int_range(0, 64)));
    lemma_len_subset(members(word), set_int_range(0, 64));
}

/// Whether `i` is in the set.
pub fn test_bit(word: u64, i: usize) -> (b: bool)
    requires
        i < 64,
    ensures
        b == has_bit(word, i as int),
{
    (word >> (i as u64)) & 1 == 1
}

/// The set that holds `i` alone.
pub fn single_bit(i: usize) -> (word: u64)
    requires
        i < 64,
    ensures
        members(word) == set![i as int],
{
    let word = 1u64 << (i as u64);
    proof {
        assert forall|j: int| has_bit(word, j) <==> j == i by {
            if 0 <= j < 64 {
                lemma_bit_of_single(i as u64, j as u64);
            }
        }
        assert(members(word) =~= set![i as int]);
    }
    word
}

/// The set with `i` added.
pub fn with_bit(word: u64, i: usize) -> (res: u64)
    requires
        i < 64,
    ensures
        members(res) == members(word).insert(i as int),
{
    let res = word | (1u64 << (i as u64));
    proof {
        assert forall|j: int| has_bit(res, j) <==> (has_bit(word, j) || j == i) by {
            if 0 <= j < 64 {
                lemma_bit_of_or(word, 1u64 << (i as u64), j as u64);
                lemma_bit_of_single(i as u64, j as u64);
            }
        }
        assert(members(res) =~= members(word).insert(i as int));
    }
    res
}

/// The set with `i` taken out.
pub fn without_bit(word: u64, i: usize) -> (res: u64)
    requires
        i < 64,
    ensures
        members(res) == members(word).remove(i as int),
{
    let res = word & !(1u64 << (i as u64));
    proof {
        assert forall|j: int| has_bit(res, j) <==> (has_bit(word, j) && j != i) by {
            if 0 <= j < 64 {
                lemma_bit_of_cleared(word, i as u64, j as u64);
            }
        }
        assert(members(res) =~= members(word).remove(i as int));
    }
    res
}

/// The least number of a set that is not empty.
pub fn lowest_bit(word: u64) -> (i: usize)
    requires
        word != 0,
    ensures
        has_bit(word, i as int),
        forall|j: int| 0 <= j < i ==> !has_bit(word, j),
{
    proof {
        lemma_members_of_nonzero(word);
        axiom_u64_trailing_zeros(word);
        assert forall|j: int| 0 <= j < u64_trailing_zeros(word) implies !has_bit(word, j) by {
            assert((word >> (j as u64)) & 1u64 == 0u64);
        }
    }
    word.trailing_zeros() as usize
}

} // verus!
