//! The random draws the library makes, through rand's thread-local
//! generator.
use rand::Rng;
use vstd::prelude::*;

verus! {

/// Relies on rand's `Rng::gen_range(low, high)`, which for `low < high`
/// returns a value in `[low, high)`; it panics otherwise, hence `n > 0`.
#[verifier::external_body]
pub(crate) fn random_below(n: usize) -> (r: usize)
    requires
        n > 0,
    ensures
        r < n,
{
    rand::thread_rng().gen_range(0, n)
}

/// Relies on rand's `seq::sample_iter` over `0..len`: it fills a reservoir
/// with the first `amount` elements of the range and lets each later one
/// replace a slot or be dropped, so the result holds `amount` (or, for a
/// shorter range, all) distinct elements of the range.
#[verifier::external_body]
pub(crate) fn sample_indices(len: usize, amount: usize) -> (r: Vec<usize>)
    requires
        amount <= len,
    ensures
        r@.len() == amount,
        forall|i: int| 0 <= i < r@.len() ==> r@[i] < len,
        r@.no_duplicates(),
{
    match rand::seq::sample_iter(&mut rand::thread_rng(), 0..len, amount) {
        Ok(v) => v,
        Err(v) => v,
    }
}

} // verus!
