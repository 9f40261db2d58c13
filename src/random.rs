//! Where the shuffle draws its random positions from.
use vstd::prelude::*;
use rand::Rng;

verus! {

/// A source of random positions.
pub trait RandomSource {
    /// A position drawn from `0 .. n`.
    fn uniform(&mut self, n: usize) -> (r: usize)
        requires
            n > 0,
        ensures
            r < n,
    ;
}

#[verifier::external_type_specification]
#[verifier::external_body]
pub struct ExSmallRng(rand::rngs::SmallRng);

/// Relies on `rand::Rng::gen_range`: on a non-empty half-open range it
/// returns a value inside the range (it panics only on an empty one).
#[verifier::external_body]
fn gen_below(rng: &mut rand::rngs::SmallRng, n: usize) -> (r: usize)
    requires
        n > 0,
    ensures
        r < n,
{
    rng.gen_range(0..n)
}

impl RandomSource for rand::rngs::SmallRng {
    fn uniform(&mut self, n: usize) -> (r: usize) {
        gen_below(self, n)
    }
}

} // verus!
