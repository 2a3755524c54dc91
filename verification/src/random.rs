//! The source of randomness of the level assignment.
use crate::egb::node_ids;
use crate::permutation::is_permutation;
use rand::rngs::StdRng;
use rand::seq::SliceRandom;
use rand::SeedableRng;
use vstd::prelude::*;

verus! {

/// The generator of the `rand` crate.
#[verifier::external_type_specification]
#[verifier::external_body]
pub struct ExStdRng(StdRng);

/// The seed of the level assignment, which makes it the same in every run.
pub const LEVEL_SEED: u64 = 523;

/// The standard generator of the `rand` crate in the state that `seed` puts it in.
pub uninterp spec fn seeded_generator(seed: u64) -> StdRng;

/// `rand`'s `SeedableRng::seed_from_u64` for its standard generator: the state of the new
/// generator depends on the seed alone. Nothing is claimed of the numbers it will draw.
#[verifier::external_body]
fn seeded(seed: u64) -> (rng: StdRng)
    ensures
        rng == seeded_generator(seed),
{
    StdRng::seed_from_u64(seed)
}

/// The order that shuffling with the generator `rng` brings `ids` in.
pub uninterp spec fn shuffled_items(ids: Seq<usize>, rng: StdRng) -> Seq<usize>;

/// The state that shuffling `ids` leaves the generator `rng` in.
pub uninterp spec fn rng_after_shuffle(ids: Seq<usize>, rng: StdRng) -> StdRng;

/// `rand`'s `SliceRandom::shuffle`: the same items in another order. The new order and the state
/// of the generator afterwards depend on the items and on the state of the generator alone.
#[verifier::external_body]
fn shuffle(ids: &mut Vec<usize>, rng: &mut StdRng)
    ensures
        final(ids)@.to_multiset() == old(ids)@.to_multiset(),
        final(ids)@ == shuffled_items(old(ids)@, *old(rng)),
        *final(rng) == rng_after_shuffle(old(ids)@, *old(rng)),
{
    ids.shuffle(rng)
}

/// The generator that the levels are drawn with: the one of the seed `LEVEL_SEED`, so every call
/// returns the same one.
pub fn level_rng() -> (rng: StdRng)
    ensures
        rng == seeded_generator(LEVEL_SEED),
{
    seeded(LEVEL_SEED)
}

/// The ids `0..n`, in order.
pub open spec fn counted_up(n: usize) -> Seq<usize> {
    Seq::new(n as nat, |i: int| i as usize)
}

/// The ids `0..n` in the random order that the generator gives.
pub fn shuffled_ids(n: usize, rng: &mut StdRng) -> (ids: Vec<usize>)
    ensures
        is_permutation(ids@),
        ids@.len() == n,
        ids@ == shuffled_items(counted_up(n), *old(rng)),
        *final(rng) == rng_after_shuffle(counted_up(n), *old(rng)),
{
    let mut ids = node_ids(n);
    let ghost before = ids@;
    assert(before =~= counted_up(n));
    shuffle(&mut ids, rng);
    proof {
        before.lemma_multiset_has_no_duplicates();
        ids@.lemma_multiset_has_no_duplicates_conv();
        before.to_multiset_ensures();
        ids@.to_multiset_ensures();
        assert forall|i: int| 0 <= i < ids@.len() implies #[trigger] ids@[i] < ids@.len() by {
            assert(ids@.contains(ids@[i]));
            assert(ids@.to_multiset().count(ids@[i]) > 0);
            assert(before.contains(ids@[i]));
        }
    }
    ids
}

} // verus!
