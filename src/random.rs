use rand::Rng;
use vstd::prelude::*;

verus! {

/// Relies on `rand::thread_rng` and `Rng::gen_range` (rand 0.7): a value drawn
/// from the half-open range `[low, high)`; `gen_range` panics when
/// `low >= high`.
#[verifier::external_body]
pub(crate) fn sample_range(low: u32, high: u32) -> (r: u32)
    requires
        low < high,
    ensures
        low <= r < high,
{
    rand::thread_rng().gen_range(low, high)
}

} // verus!
