//! Work that is shared out among threads.
use rayon::iter::{IntoParallelIterator, ParallelIterator};
use vstd::prelude::*;

verus! {

/// `rayon`'s parallel iterator over a vector (`into_par_iter`, `map`, `collect`): it
/// calls the function once on every item, and collects the results in the order of the
/// items.
#[verifier::external_body]
pub(crate) fn par_map<T: Send, U: Send, F: Fn(T) -> U + Sync + Send>(items: Vec<T>, f: F) -> (r: Vec<U>)
    requires
        forall|i: int| 0 <= i < items@.len() ==> call_requires(f, (#[trigger] items@[i],)),
    ensures
        r@.len() == items@.len(),
        forall|i: int|
            0 <= i < items@.len() ==> call_ensures(f, (items@[i],), #[trigger] r@[i]),
{
    items.into_par_iter().map(f).collect()
}

} // verus!
