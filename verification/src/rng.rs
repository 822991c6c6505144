use vstd::prelude::*;

verus! {

/// The seedable random source injected into election, population creation
/// and partitioner initialisation, so that runs are reproducible.
#[verifier::external_type_specification]
#[verifier::external_body]
pub struct ExStdRng(rand::rngs::StdRng);

/// Relies on rand's `StdRng::seed_from_u64`: builds a deterministic
/// generator from a seed. Nothing about the values it will produce is
/// assumed.
#[verifier::external_body]
pub fn rng_from_seed(seed: u64) -> rand::rngs::StdRng {
    <rand::rngs::StdRng as rand::SeedableRng>::seed_from_u64(seed)
}

/// Relies on rand's `RngCore::next_u32`: one uniform 32-bit draw. Every
/// outcome is possible, so nothing is assumed beyond the type.
#[verifier::external_body]
pub fn draw_u32(rng: &mut rand::rngs::StdRng) -> u32 {
    rand::RngCore::next_u32(rng)
}

/// Relies on rand's `Rng::random_range` over `0..bound`: a uniform value
/// below `bound`. It panics on an empty range, which the precondition
/// rules out; of the value only the bound is assumed.
#[verifier::external_body]
pub fn rand_below(rng: &mut rand::rngs::StdRng, bound: u64) -> (r: u64)
    requires
        bound >= 1,
    ensures
        r < bound,
{
    rand::Rng::random_range(rng, 0..bound)
}

/// Relies on rand's `seq::index::sample`: exactly `amount` distinct
/// indices drawn from `0..length` without replacement, in arbitrary
/// order. It panics when `amount > length`, which the precondition rules
/// out.
#[verifier::external_body]
pub fn sample_indices(rng: &mut rand::rngs::StdRng, length: usize, amount: usize) -> (r: Vec<
    usize,
>)
    requires
        amount <= length,
    ensures
        r@.len() == amount,
        forall|i: int| 0 <= i < r@.len() ==> r@[i] < length,
        forall|i: int, j: int| 0 <= i < j < r@.len() ==> r@[i] != r@[j],
{
    rand::seq::index::sample(rng, length, amount).into_vec()
}

} // verus!
