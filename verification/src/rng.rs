//! A seedable source of randomness, threaded explicitly through sampling and
//! selection so that a fixed seed reproduces a whole schedule.

use vstd::prelude::*;

verus! {

/// The pseudo-random generator type of the `rand` crate, declared so that a
/// value of it can sit inside a verified struct.
#[verifier::external_type_specification]
#[verifier::external_body]
pub struct ExStdRng(rand::rngs::StdRng);

/// A handle on a pseudo-random generator. Verified code learns nothing about
/// the values drawn from it beyond what each drawing method promises of every
/// outcome.
pub struct RandomSource {
    inner: rand::rngs::StdRng,
}

impl RandomSource {
    /// Relies on `rand::SeedableRng::seed_from_u64`: builds the standard
    /// generator deterministically from a 64-bit seed.
    #[verifier::external_body]
    pub fn from_seed(seed: u64) -> RandomSource {
        RandomSource { inner: <rand::rngs::StdRng as rand::SeedableRng>::seed_from_u64(seed) }
    }

    /// Relies on `rand::SeedableRng::from_entropy`: seeds the generator from
    /// the operating system.
    #[verifier::external_body]
    pub fn from_entropy() -> RandomSource {
        RandomSource { inner: <rand::rngs::StdRng as rand::SeedableRng>::from_entropy() }
    }

    /// Relies on `rand::Rng::gen::<bool>`: a fair coin flip. Nothing can be
    /// promised of the outcome.
    #[verifier::external_body]
    pub fn coin_flip(&mut self) -> bool {
        rand::Rng::gen::<bool>(&mut self.inner)
    }

    /// Relies on `rand::seq::IteratorRandom::choose_multiple`: reservoir
    /// sampling that returns `min(amount, pool.len())` elements taken at
    /// pairwise distinct positions of `pool`, in no promised order.
    #[verifier::external_body]
    pub fn choose_distinct(&mut self, pool: &Vec<usize>, amount: usize) -> (r: Vec<usize>)
        ensures
            r@.len() == if amount <= pool@.len() {
                amount as int
            } else {
                pool@.len() as int
            },
            forall|i: int| 0 <= i < r@.len() ==> pool@.contains(#[trigger] r@[i]),
            (forall|i: int, j: int| 0 <= i < j < pool@.len() ==> pool@[i] != pool@[j])
                ==> (forall|i: int, j: int| 0 <= i < j < r@.len() ==> r@[i] != r@[j]),
    {
        rand::seq::IteratorRandom::choose_multiple(pool.iter().cloned(), &mut self.inner, amount)
    }
}

} // verus!
