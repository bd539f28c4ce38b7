//! The one place where chance enters: a draw from the thread's generator.

use rand::rngs::ThreadRng;
use rand::Rng;
use vstd::prelude::*;

verus! {

/// `rand::rngs::ThreadRng`, taken as it is.
#[verifier::external_type_specification]
#[verifier::external_body]
pub struct ExThreadRng(ThreadRng);

/// `Rng::gen_range` on `i32`: some value from `low` up to but not including
/// `high`. The call panics unless `low < high`, so only such a range is
/// admitted. Nothing else is known of the value drawn.
#[verifier::external_body]
pub(crate) fn sample_between(rng: &mut ThreadRng, low: i32, high: i32) -> (value: i32)
    requires
        low < high,
    ensures
        low <= value < high,
{
    rng.gen_range(low, high)
}

} // verus!
