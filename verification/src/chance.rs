//! The one source of chance.

use rand::Rng;
use vstd::prelude::*;

verus! {

/// `gen_range(0, n)` of the crate `rand`, called on the generator of the
/// current thread (`rand::thread_rng()`): a number drawn from `0..n`. All
/// that is claimed is that the number lies in that range; two calls may
/// differ. `gen_range` panics on an empty range, so `n` must not be zero.
#[verifier::external_body]
pub(crate) fn random_below(n: usize) -> (r: usize)
    requires
        n > 0,
    ensures
        r < n,
{
    rand::thread_rng().gen_range(0, n)
}

} // verus!
