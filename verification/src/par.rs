//! Data-parallel fan-out on the work-stealing pool of `rayon`.

use rayon::iter::{IntoParallelIterator, ParallelIterator};
use vstd::prelude::*;

verus! {

/// Runs `f` on every number below `n`, side by side, and hands back the
/// results in the order of the numbers.
///
/// Calls `rayon`'s `into_par_iter`, `map` and `collect` on the range `0..n`.
/// Trusted: that collecting this indexed parallel iterator into a vector
/// yields one item per number of the range, in the order of the range, each
/// being what one call of `f` on that number returned.
#[verifier::external_body]
pub(crate) fn par_map_range<T: Send, F: Fn(usize) -> T + Sync + Send>(n: usize, f: F) -> (out: Vec<
    T,
>)
    requires
        forall|i: usize| i < n ==> call_requires(f, (i,)),
    ensures
        out.len() == n,
        forall|i: int| 0 <= i < n ==> call_ensures(f, (i as usize,), #[trigger] out[i]),
{
    (0..n).into_par_iter().map(f).collect()
}

} // verus!
