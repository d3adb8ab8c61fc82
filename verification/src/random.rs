//! The random numbers the game draws.

use vstd::prelude::*;
use rand::Rng;
use rand::seq::IteratorRandom;

verus! {

/// A number drawn uniformly from `low..high` by `rand::Rng::gen_range` on the
/// thread-local generator. The contract claims only that the number lies in
/// that range, which is what `gen_range` documents for a non-empty range
/// (it panics on an empty one, which `requires` rules out).
#[verifier::external_body]
pub(crate) fn random_in_range(low: u64, high: u64) -> (r: u64)
    requires
        low < high,
    ensures
        low <= r < high,
{
    rand::thread_rng().gen_range(low..high)
}

/// A number drawn by `rand::random` from the thread-local generator. Any
/// 32-bit value may come back, so the contract states nothing of it.
#[verifier::external_body]
pub(crate) fn random_u32() -> u32 {
    rand::random::<u32>()
}

/// An index drawn from `0..n` by `rand::seq::IteratorRandom::choose` on the
/// thread-local generator. For a range, whose length is known, `choose`
/// returns `None` when it is empty and otherwise the element at an index
/// drawn below its length; the contract claims only that.
#[verifier::external_body]
pub(crate) fn choose_below(n: usize) -> (r: Option<usize>)
    ensures
        n == 0 ==> r == None::<usize>,
        n > 0 ==> r.is_some() && r.unwrap() < n,
{
    (0..n).choose(&mut rand::thread_rng())
}

} // verus!
