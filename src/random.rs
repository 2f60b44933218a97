use vstd::prelude::*;
use rand::rngs::StdRng;
use rand::seq::SliceRandom;
use rand::SeedableRng;
use crate::direction::Direction;

verus! {

#[verifier::external_type_specification]
#[verifier::external_body]
pub struct ExStdRng(StdRng);

/// Relies on rand's `SeedableRng::seed_from_u64` for `StdRng`: a generator
/// whose whole output is fixed by the seed.
#[verifier::external_body]
fn std_rng_from_seed(seed: u64) -> (r: StdRng) {
    StdRng::seed_from_u64(seed)
}

/// Relies on rand's `SliceRandom::shuffle`, which only swaps elements: the
/// result holds the same directions, each as often as before.
#[verifier::external_body]
fn shuffle_in_place(rng: &mut StdRng, v: &mut Vec<Direction>)
    ensures
        final(v)@.to_multiset() == old(v)@.to_multiset(),
{
    v.shuffle(rng)
}

/// Relies on rand's `seq::index::sample`: `amount` distinct indices drawn
/// from `0..length`, in random order. It panics when `amount > length`.
#[verifier::external_body]
fn sample_distinct(rng: &mut StdRng, length: usize, amount: usize) -> (r: Vec<usize>)
    requires
        amount <= length,
    ensures
        r@.len() == amount,
        r@.no_duplicates(),
        forall|k: int| 0 <= k < r@.len() ==> r@[k] < length,
{
    rand::seq::index::sample(rng, length, amount).into_vec()
}

/// The source of randomness for maze generation and for the walker.
///
/// Seeding it makes every run reproducible.
pub struct RandomSource {
    rng: StdRng,
}

impl RandomSource {
    /// Wraps an already constructed generator.
    pub fn new(rng: StdRng) -> (r: RandomSource) {
        RandomSource { rng }
    }

    /// A source whose sequence of draws depends on `seed` alone.
    pub fn seeded(seed: u64) -> (r: RandomSource) {
        RandomSource { rng: std_rng_from_seed(seed) }
    }

    /// Puts the directions of `v` into a random order.
    pub fn shuffle(&mut self, v: &mut Vec<Direction>)
        ensures
            final(v)@.to_multiset() == old(v)@.to_multiset(),
            final(v)@.len() == old(v)@.len(),
            forall|d: Direction| final(v)@.contains(d) <==> old(v)@.contains(d),
    {
        shuffle_in_place(&mut self.rng, v);
        proof {
            v@.to_multiset_ensures();
            old(v)@.to_multiset_ensures();
            assert forall|d: Direction| v@.contains(d) <==> old(v)@.contains(d) by {
                assert(v@.to_multiset().count(d) == old(v)@.to_multiset().count(d));
            }
        }
    }

    /// `amount` distinct indices below `length`, in random order.
    pub fn sample(&mut self, length: usize, amount: usize) -> (r: Vec<usize>)
        requires
            amount <= length,
        ensures
            r@.len() == amount,
            r@.no_duplicates(),
            forall|k: int| 0 <= k < r@.len() ==> r@[k] < length,
    {
        sample_distinct(&mut self.rng, length, amount)
    }
}

} // verus!
