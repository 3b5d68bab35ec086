//! The process-wide random source used by the stochastic rules.

use vstd::prelude::*;

verus! {

/// Relies on macroquad::rand::rand: the next value of the shared generator.
/// Nothing is known of the value.
#[verifier::external_body]
pub(crate) fn random_u32() -> u32 {
    macroquad::rand::rand()
}

/// Relies on macroquad::rand::gen_range for usize: for low < high it
/// returns a value in [low, high). Its arithmetic goes through f64, exact
/// for bounds up to u32::MAX.
#[verifier::external_body]
pub(crate) fn random_below(bound: usize) -> (r: usize)
    requires
        0 < bound <= u32::MAX,
    ensures
        r < bound,
{
    macroquad::rand::gen_range(0, bound)
}

/// A coin flip from the shared generator.
pub fn rand_bool() -> bool {
    random_u32() % 2 == 0
}

} // verus!
