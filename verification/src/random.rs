//! The random source that the generation strategies draw from.
//!
//! The draws themselves are made by the `rand` crate. Nothing is proved of
//! them; each function below states what the crate's source guarantees of
//! every outcome.

use rand::Rng;
use rand::StdRng;
use vstd::prelude::*;

verus! {

/// `rand::StdRng`, the random source. The proofs see nothing inside it:
/// it is only handed on to the functions below.
#[verifier::external_type_specification]
#[verifier::external_body]
pub struct ExStdRng(StdRng);

/// `Rng::gen_range`: a value in `[low, high)`. The outside function panics
/// unless `low < high`.
#[verifier::external_body]
pub(crate) fn gen_range(rng: &mut StdRng, low: usize, high: usize) -> (r: usize)
    requires
        low < high,
    ensures
        low <= r < high,
{
    rng.gen_range(low, high)
}

/// `Rng::gen` at type `bool`: a coin toss, of which nothing is known.
#[verifier::external_body]
pub(crate) fn gen_bool(rng: &mut StdRng) -> bool {
    rng.gen()
}

/// `Rng::shuffle`: reorders the values in place by swapping them, so the
/// same values are there afterwards, each as often as before.
#[verifier::external_body]
pub(crate) fn shuffle<T>(rng: &mut StdRng, values: &mut Vec<T>)
    ensures
        final(values)@.to_multiset() == old(values)@.to_multiset(),
{
    rng.shuffle(values.as_mut_slice())
}

/// `Rng::choose`: one of the values, or `None` exactly if there is none.
#[verifier::external_body]
pub(crate) fn pick<'a, T>(rng: &mut StdRng, values: &'a Vec<T>) -> (r: Option<&'a T>)
    ensures
        match r {
            Some(v) => values@.contains(*v),
            None => values@.len() == 0,
        },
{
    rng.choose(values.as_slice())
}

} // verus!
