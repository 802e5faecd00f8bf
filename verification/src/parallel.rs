//! Work handed out item by item to a pool of threads.
use rayon::iter::{IntoParallelIterator, ParallelIterator};
use vstd::prelude::*;

verus! {

/// Calls rayon's `into_par_iter`, `map` and `collect` on `0..count`. Claims that
/// there is one result for each index, in the order of the indices, and that each
/// is a result of `work` on its index.
#[verifier::external_body]
pub(crate) fn map_indices<R: Send, F: Fn(usize) -> R + Send + Sync>(count: usize, work: F) -> (out:
    Vec<R>)
    requires
        forall|i: usize| i < count ==> call_requires(work, (i,)),
    ensures
        out@.len() == count,
        forall|i: usize| i < count ==> call_ensures(work, (i,), #[trigger] out@[i as int]),
{
    (0..count).into_par_iter().map(work).collect()
}

} // verus!
