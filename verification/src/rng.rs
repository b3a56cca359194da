//! The random source: rand's standard generator behind a seeded handle,
//! threaded explicitly through every sampling call so that a fixed seed
//! reproduces a render exactly.

use rand::rngs::StdRng;
use rand::Rng;
use rand::SeedableRng;
use vstd::prelude::*;

verus! {

/// rand's standard generator; its state is opaque here.
#[verifier::external_type_specification]
#[verifier::external_body]
pub struct ExStdRng(StdRng);

/// Relies on rand's `StdRng::seed_from_u64`: builds a generator from a
/// seed without panicking.  Nothing is assumed about the stream it yields.
#[verifier::external_body]
pub fn seed_rng(seed: u64) -> (rng: StdRng) {
    StdRng::seed_from_u64(seed)
}

/// Relies on rand's `Rng::gen_range` over an integer half-open range: it
/// returns a value drawn from `[lo, hi)` and panics only when the range
/// is empty, which the precondition rules out.
#[verifier::external_body]
pub fn rand_range(rng: &mut StdRng, lo: i64, hi: i64) -> (r: i64)
    requires
        lo < hi,
    ensures
        lo <= r < hi,
{
    rng.gen_range(lo..hi)
}

} // verus!
