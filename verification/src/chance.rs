//! The random source.  Nothing here is proved: each contract states what
//! the `rand` crate documents for every outcome of a draw.

use rand::seq::SliceRandom;
use rand::Rng;
use vstd::prelude::*;

verus! {

/// `rand::rngs::ThreadRng`, carried through as an opaque handle.
#[verifier::external_type_specification]
#[verifier::external_body]
pub struct ExThreadRng(rand::rngs::ThreadRng);

/// Calls `rand::thread_rng` for the generator of the current thread.  Nothing
/// is claimed of the handle.  The call gives up only when the operating
/// system supplies no seed.
#[verifier::external_body]
pub(crate) fn thread_source() -> rand::rngs::ThreadRng {
    rand::thread_rng()
}

/// Calls `Rng::gen_range` on the half-open range from zero to `bound`.  The
/// range must not be empty; the draw lies inside it.
#[verifier::external_body]
pub(crate) fn draw_below(rng: &mut rand::rngs::ThreadRng, bound: usize) -> (r: usize)
    requires
        bound > 0,
    ensures
        r < bound,
{
    rng.gen_range(0..bound)
}

/// Calls `SliceRandom::choose` on the items.  An empty list gives `None`;
/// any other gives one of its items.
#[verifier::external_body]
pub(crate) fn pick<T: Copy>(rng: &mut rand::rngs::ThreadRng, items: &Vec<T>) -> (r: Option<T>)
    ensures
        items@.len() == 0 ==> r is None,
        items@.len() > 0 ==> r is Some && items@.contains(r.unwrap()),
{
    items.choose(rng).copied()
}

} // verus!
