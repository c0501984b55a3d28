use vstd::prelude::*;

verus! {

/// `macroquad::rand::RandomRange::gen_range` on `i32` (quad-rand): it takes the
/// next value `r` of the global generator and returns `low + (high - low) * r / 2^32`
/// truncated toward zero, computed in `f64`. For small non-negative bounds this is
/// exact, so the result lies in `[low, high)`; which value comes out depends on
/// the generator's state and is not stated.
#[verifier::external_body]
pub(crate) fn gen_range_i32(low: i32, high: i32) -> (r: i32)
    requires
        0 <= low < high <= 1024,
    ensures
        low <= r < high,
{
    macroquad::rand::RandomRange::gen_range(low, high)
}

} // verus!
