//! The work that is spread over threads, and the sorting routines.
use rayon::iter::{IndexedParallelIterator, IntoParallelRefIterator, ParallelIterator};
use rayon::slice::ParallelSliceMut;
use vstd::prelude::*;

verus! {

/// `rayon`'s indexed parallel iterator over a slice, enumerated, mapped and collected: the result
/// holds, in the order of `items`, what `f` returned for each position and item. The calls may
/// run at the same time and in any order.
#[verifier::external_body]
pub(crate) fn par_map<R: Send, F: Fn(usize, usize) -> R + Sync>(items: &[usize], f: F) -> (results:
    Vec<R>)
    requires
        forall|i: usize| i < items@.len() ==> #[trigger] f.requires((i, items@[i as int])),
    ensures
        results@.len() == items@.len(),
        forall|i: usize|
            i < results@.len() ==> f.ensures((i, items@[i as int]), #[trigger] results@[i as int]),
{
    items.par_iter().enumerate().map(|(i, &item)| f(i, item)).collect()
}

/// The order of numbers.
pub open spec fn number_le() -> spec_fn(u32, u32) -> bool {
    |a: u32, b: u32| a <= b
}

/// The lexicographic order of pairs.
pub open spec fn pair_le() -> spec_fn((usize, usize), (usize, usize)) -> bool {
    |a: (usize, usize), b: (usize, usize)| a.0 < b.0 || (a.0 == b.0 && a.1 <= b.1)
}

pub proof fn lemma_pair_order()
    ensures
        vstd::relations::total_ordering(pair_le()),
{
}

/// `rayon`'s `par_sort_unstable` on a slice of `u32`: the same numbers, in ascending order.
#[verifier::external_body]
pub(crate) fn par_sort_numbers(numbers: &mut Vec<u32>)
    ensures
        final(numbers)@.to_multiset() == old(numbers)@.to_multiset(),
        vstd::relations::sorted_by(final(numbers)@, number_le()),
{
    numbers.par_sort_unstable();
}

/// The standard library's `sort_unstable` on a slice of pairs, which it compares
/// lexicographically: the same pairs, in ascending order.
#[verifier::external_body]
pub(crate) fn sort_pairs(pairs: &mut Vec<(usize, usize)>)
    ensures
        final(pairs)@.to_multiset() == old(pairs)@.to_multiset(),
        vstd::relations::sorted_by(final(pairs)@, pair_le()),
{
    pairs.sort_unstable();
}

} // verus!
