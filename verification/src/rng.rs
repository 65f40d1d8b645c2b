//! The randomness source for mine placement, taken on trust from the `rand`
//! crate: a thread-local generator and uniform sampling below a bound.

use vstd::prelude::*;

use rand::Rng;

verus! {

/// `rand::rngs::ThreadRng`, the lazily seeded thread-local generator.
/// Opaque here: nothing is assumed about the values it produces beyond the
/// range stated at each sampling call.
#[verifier::external_type_specification]
#[verifier::external_body]
pub struct ExThreadRng(rand::rngs::ThreadRng);

/// Relies on `rand::thread_rng`: returns a handle to the thread-local
/// generator. Nothing is assumed of it.
#[verifier::external_body]
pub(crate) fn new_rng() -> rand::rngs::ThreadRng {
    rand::thread_rng()
}

/// Relies on `rand::Rng::gen_range` over `0..n`: it returns a uniformly
/// random value of a non-empty range, hence one below `n`. It panics on an
/// empty range, which the precondition keeps out. No two calls are assumed
/// to be related: only the bound holds of every outcome.
#[verifier::external_body]
pub(crate) fn rand_below(rng: &mut rand::rngs::ThreadRng, n: usize) -> (r: usize)
    requires
        n >= 1,
    ensures
        r < n,
{
    rng.gen_range(0..n)
}

} // verus!
