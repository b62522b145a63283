//! The random number generator of the search (the `rand` crate's `StdRng`).

use rand::rngs::StdRng;
use rand::Rng;
use rand::SeedableRng;
use vstd::prelude::*;

verus! {

/// The `rand` crate's standard generator, carried through the search as an
/// opaque value.
#[verifier::external_type_specification]
#[verifier::external_body]
pub struct ExStdRng(StdRng);

/// The generator that `StdRng::seed_from_u64` makes from `seed`: its
/// state is a function of the seed alone.
pub uninterp spec fn seeded_generator(seed: u64) -> StdRng;

/// `StdRng::seed_from_u64`: the generator whose state the seed fixes
/// (`seeded_generator(seed)`); the same seed gives the same generator.
/// Nothing else is stated of the generator.
#[verifier::external_body]
pub(crate) fn rng_from_seed(seed: u64) -> (r: StdRng)
    ensures
        r == seeded_generator(seed),
{
    StdRng::seed_from_u64(seed)
}

/// The `rand` crate's error type (`rand_core::Error`), as the operating
/// system's entropy source reports a failure with it.
#[verifier::external_type_specification]
#[verifier::external_body]
pub struct ExRandError(rand::Error);

/// `StdRng::from_rng(OsRng)`: a generator seeded with bytes that the
/// operating system's entropy source (`getrandom`) supplies, or the error that
/// the source reported. The call does not panic. Which of the two comes back,
/// and the generator's state, depend on the machine: nothing is stated of them.
#[verifier::external_body]
pub(crate) fn rng_from_os() -> Result<StdRng, rand::Error> {
    StdRng::from_rng(rand::rngs::OsRng)
}

/// The generator of a search: seeded with `seed`, or from the operating
/// system when there is none. Where the operating system cannot supply
/// entropy, the generator seeded with 0 stands in for it.
pub fn generator_for(seed: Option<u64>) -> (r: StdRng)
    ensures
        seed matches Some(s) ==> r == seeded_generator(s),
{
    match seed {
        Some(s) => rng_from_seed(s),
        None => match rng_from_os() {
            Ok(r) => r,
            Err(_) => rng_from_seed(0),
        },
    }
}

/// `rng.gen::<u64>()`: the next 64 random bits. Any value may come back.
/// (`rng.gen::<f64>()` draws exactly this value and returns its top 53 bits
/// divided by `2^53`.)
#[verifier::external_body]
pub(crate) fn draw_u64(rng: &mut StdRng) -> u64 {
    rng.gen::<u64>()
}

/// `rng.gen_range(0..n)`: a random index below `n` (the call panics on an
/// empty range, which `requires` rules out).
#[verifier::external_body]
pub(crate) fn draw_below(rng: &mut StdRng, n: usize) -> (r: usize)
    requires
        n > 0,
    ensures
        r < n,
{
    rng.gen_range(0..n)
}

} // verus!
