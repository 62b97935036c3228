//! The one call that the sampler makes into the random source.
use rand::Rng;
use vstd::prelude::*;

verus! {

/// Calls `rand::Rng::gen_range(0, bound)` on `rng`.
///
/// Trusted, not proved: the value returned lies in `[0, bound)`. `gen_range`
/// panics on an empty range, so `bound` must be positive. Which value of the
/// range comes back is the random source's affair and nothing is claimed of
/// it. For integers `gen_range` asks the source for fresh bits until a
/// candidate passes its rejection test, so it returns only if the source
/// eventually yields such bits, as any source but a degenerate one does.
#[verifier::external_body]
pub(crate) fn draw_below<R>(rng: &mut R, bound: usize) -> (index: usize) where R: Rng
    requires
        bound > 0,
    ensures
        index < bound,
{
    rng.gen_range(0, bound)
}

} // verus!
