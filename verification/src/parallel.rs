//! The worker pool. Work is handed to `rayon`, whose code is not verified
//! here: each function in this module states what the corresponding parallel
//! operation returns.

use rayon::iter::IntoParallelRefIterator;
use rayon::iter::ParallelIterator;
use vstd::prelude::*;

verus! {

/// Sum of the first `n` items of `values`.
pub open spec fn prefix_total(values: Seq<u128>, n: int) -> nat
    decreases n,
{
    if n <= 0 {
        0
    } else {
        (prefix_total(values, n - 1) + values[n - 1]) as nat
    }
}

/// Sum of all items of `values`.
pub open spec fn total(values: Seq<u128>) -> nat {
    prefix_total(values, values.len() as int)
}

/// `par_iter().map(f).collect()` on a vector: `f` is called once on each item,
/// on whatever worker, and the results stand in the order of the items.
#[verifier::external_body]
pub(crate) fn par_map<T: Send, F: Fn(usize) -> T + Sync + Send>(items: &Vec<usize>, f: F) -> (out:
    Vec<T>)
    requires
        forall|i: int| 0 <= i < items@.len() ==> call_requires(f, (items@[i],)),
    ensures
        out@.len() == items@.len(),
        forall|i: int|
            0 <= i < items@.len() ==> call_ensures(f, (items@[i],), #[trigger] out@[i]),
{
    items.par_iter().map(|item| f(*item)).collect()
}

/// `par_iter().sum()` on a vector: the sum of the items. The workers add in an
/// order of their own; no partial sum exceeds the total, which fits.
#[verifier::external_body]
pub(crate) fn par_sum(values: &Vec<u128>) -> (sum: u128)
    requires
        total(values@) <= u128::MAX,
    ensures
        sum == total(values@),
{
    values.par_iter().sum()
}

/// `par_iter().copied().max()` on a vector: `None` for an empty vector, else
/// an item that no other item exceeds.
#[verifier::external_body]
pub(crate) fn par_max(values: &Vec<usize>) -> (max: Option<usize>)
    ensures
        max is None <==> values@.len() == 0,
        max matches Some(m) ==> values@.contains(m) && forall|i: int|
            0 <= i < values@.len() ==> values@[i] <= m,
{
    values.par_iter().copied().max()
}

} // verus!
