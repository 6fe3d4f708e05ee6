use vstd::prelude::*;

verus! {

/// `rand::rngs::ThreadRng` carried opaquely; nothing is assumed of its state.
#[verifier::external_type_specification]
#[verifier::external_body]
pub struct ExThreadRng(rand::rngs::ThreadRng);

/// Relies on `rand::thread_rng`: returns a handle to the thread-local
/// generator. Nothing is claimed about the values it will produce.
#[verifier::external_body]
pub(crate) fn fresh_rng() -> rand::rngs::ThreadRng {
    rand::thread_rng()
}

/// Relies on `rand::Rng::gen_range(0..bound)`: returns a value uniformly
/// drawn from `[0, bound)`; it panics only on an empty range, which the
/// precondition excludes.
#[verifier::external_body]
pub(crate) fn draw_below(rng: &mut rand::rngs::ThreadRng, bound: u64) -> (r: u64)
    requires
        bound > 0,
    ensures
        r < bound,
{
    rand::Rng::gen_range(rng, 0..bound)
}

} // verus!
