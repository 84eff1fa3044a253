//! The random draws that seed a board.

use rand::rngs::SmallRng;
use rand::{FromEntropy, Rng};
use vstd::prelude::*;

verus! {

/// `SmallRng` of rand: a random number generator. Its state is not looked
/// into.
#[verifier::external_type_specification]
#[verifier::external_body]
pub struct ExSmallRng(SmallRng);

/// `SmallRng::from_entropy` of rand: a generator seeded from the system's
/// entropy. Nothing is claimed of its state. rand panics here where the
/// system can give no entropy at all.
#[verifier::external_body]
pub(crate) fn seeded() -> SmallRng {
    SmallRng::from_entropy()
}

/// `Rng::gen_ratio` of rand: `true` with a chance of `numerator` in
/// `denominator`. rand promises `true` where the two are equal and `false`
/// where the numerator is zero, and nothing else of a single draw. It panics
/// on the ratios that `requires` leaves out.
#[verifier::external_body]
pub(crate) fn draw(rng: &mut SmallRng, numerator: u32, denominator: u32) -> (hit: bool)
    requires
        0 < denominator,
        numerator <= denominator,
    ensures
        numerator == denominator ==> hit,
        numerator == 0 ==> !hit,
{
    rng.gen_ratio(numerator, denominator)
}

} // verus!
