pub mod diffusion;
pub mod engine;
pub mod network;
pub mod params;
pub mod rng;

use vstd::prelude::*;

verus! {

/// The sum of two words.
pub fn add(left: u64, right: u64) -> (r: u64)
    requires
        left + right <= u64::MAX,
    ensures
        r == left + right,
{
    left + right
}

} // verus!
