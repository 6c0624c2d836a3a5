//! The random source the simulation draws from.
//!
//! All randomness is taken from a `rand::StdRng` handed in by the caller.
//! The generator's state is opaque to the verifier, so the contracts below
//! state only what holds of every draw.

use vstd::prelude::*;

verus! {

/// `rand::StdRng`, the generator all draws are taken from. Nothing is
/// claimed of its state: it is only carried through to the draws below.
#[verifier::external_type_specification]
#[verifier::external_body]
pub struct ExStdRng(rand::StdRng);

/// `rand::Rng::choose`: a uniformly drawn element of `values`.
///
/// Trusted: the result is `None` exactly when `values` is empty, and is
/// otherwise one of the elements of `values`.
#[verifier::external_body]
pub(crate) fn pick<T: Copy>(rng: &mut rand::StdRng, values: &Vec<T>) -> (picked: Option<T>)
    ensures
        values@.len() == 0 <==> picked is None,
        picked matches Some(v) ==> exists|i: int| 0 <= i < values@.len() && values@[i] == v,
{
    rand::Rng::choose(rng, values.as_slice()).copied()
}

/// `rand::Rng::gen_range(0, high)`: a uniformly drawn integer below `high`.
///
/// Trusted: the result lies in `[0, high)`. The outside function panics
/// unless `0 < high`, which the precondition rules out.
#[verifier::external_body]
pub(crate) fn below(rng: &mut rand::StdRng, high: i32) -> (picked: i32)
    requires
        0 < high,
    ensures
        0 <= picked < high,
{
    rand::Rng::gen_range(rng, 0, high)
}

} // verus!
