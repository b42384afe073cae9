//! Work on the items of a list in parallel.
use rayon::iter::{IntoParallelRefIterator, ParallelIterator};
use vstd::prelude::*;

verus! {

/// `par_iter`, `map` and `collect` of rayon: calls `f` on each item, on
/// whatever thread, and gathers the results in the order of the items.
#[verifier::external_body]
pub(crate) fn par_map<T: Sync, U: Send, F: Fn(&T) -> U + Sync + Send>(items: &[T], f: F) -> (r: Vec<
    U,
>)
    requires
        forall|i: int| 0 <= i < items@.len() ==> call_requires(f, (&#[trigger] items@[i],)),
    ensures
        r@.len() == items@.len(),
        forall|i: int|
            0 <= i < items@.len() ==> call_ensures(f, (&items@[i],), #[trigger] r@[i]),
{
    items.par_iter().map(f).collect()
}

} // verus!
