use vstd::prelude::*;

verus! {

/// Draws a uniformly random value in `[low, high)` with `rand`'s thread-local
/// generator (`rand::Rng::gen_range`). The contract claims only the range,
/// which `gen_range` documents; the value itself rests on chance.
#[verifier::external_body]
pub(crate) fn random_in_range(low: usize, high: usize) -> (r: usize)
    requires
        low < high,
    ensures
        low <= r < high,
{
    rand::Rng::gen_range(&mut rand::thread_rng(), low, high)
}

/// Draws a uniformly random `u64` with `rand`'s thread-local generator
/// (`rand::Rng::gen`). Nothing is claimed of the value: it rests on chance.
#[verifier::external_body]
pub(crate) fn random_u64() -> (r: u64) {
    rand::Rng::gen::<u64>(&mut rand::thread_rng())
}

} // verus!
