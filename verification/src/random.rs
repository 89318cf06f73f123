//! The random source of the simulation and the draws taken from it.
//!
//! Nothing here is proved: each function hands a request to the `rand`
//! crate and states what holds of every value that can come back.
use rand::rngs::StdRng;
use rand::seq::SliceRandom;
use rand::Rng;
use vstd::prelude::*;
use crate::point::Point;

verus! {

/// `rand::rngs::StdRng`, the seedable generator that the engine draws from.
#[verifier::external_type_specification]
#[verifier::external_body]
pub struct ExStdRng(StdRng);

/// Calls `Rng::gen_range` on the range `0..len`. The range must not be
/// empty; the value drawn lies in it.
#[verifier::external_body]
pub(crate) fn random_index(rng: &mut StdRng, len: usize) -> (i: usize)
    requires
        len > 0,
    ensures
        i < len,
{
    rng.gen_range(0..len)
}

/// Calls `Rng::gen` for a `bool`: a coin flip, of which nothing is known.
#[verifier::external_body]
pub(crate) fn random_bool(rng: &mut StdRng) -> bool {
    rng.gen::<bool>()
}

/// Calls `SliceRandom::choose` on the points: one of them, or `None` when
/// there is none to choose from.
#[verifier::external_body]
pub(crate) fn choose_point(rng: &mut StdRng, points: &Vec<Point>) -> (chosen: Option<Point>)
    ensures
        chosen is None <==> points@.len() == 0,
        chosen is Some ==> points@.contains(chosen.unwrap()),
{
    points.choose(rng).copied()
}

} // verus!
