//! The one place the library touches a random source. Node placement draws
//! through this module; everything that happens after a draw is verified for
//! every possible outcome.

use vstd::prelude::*;

verus! {

/// Draws `k` pairwise-distinct indices below `n`, in random order.
///
/// Relies on `rand::seq::index::sample`: it returns exactly `amount`
/// distinct indices from `0..length`, fully shuffled, and panics only when
/// `amount > length`, which the precondition rules out. Nothing is promised
/// about which indices come back.
#[verifier::external_body]
pub(crate) fn sample_distinct_indices(n: usize, k: usize) -> (r: Vec<usize>)
    requires
        k <= n,
    ensures
        r@.len() == k,
        forall|i: int| 0 <= i < r@.len() ==> #[trigger] r@[i] < n,
        forall|i: int, j: int| 0 <= i < j < r@.len() ==> r@[i] != r@[j],
{
    rand::seq::index::sample(&mut rand::thread_rng(), n, k).into_vec()
}

} // verus!
