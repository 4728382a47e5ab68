//! Keys in ascending order, for output that does not depend on the order in
//! which a hash table is walked.

use crate::table::graph_keys;
use crate::table::graph_rows;
use crate::table::lists;
use crate::table::row_entries;
use crate::table::row_keys;
use crate::table::Graph;
use crate::table::Row;
use vstd::prelude::*;

verus! {

/// Each item is smaller than every later one.
pub open spec fn ascending(keys: Seq<usize>) -> bool {
    forall|i: int, j: int| 0 <= i < j < keys.len() ==> keys[i] < keys[j]
}

/// `sort_unstable` of the standard library, on a vector of numbers: the
/// vector keeps its items, each as often as before, and ends in
/// non-decreasing order.
#[verifier::external_body]
pub(crate) fn sort_numbers(keys: &mut Vec<usize>)
    ensures
        final(keys)@.to_multiset() == old(keys)@.to_multiset(),
        forall|i: int, j: int|
            0 <= i <= j < final(keys)@.len() ==> final(keys)@[i] <= final(keys)@[j],
{
    keys.sort_unstable()
}

/// Puts distinct numbers in ascending order.
pub fn sort_distinct(keys: &mut Vec<usize>)
    requires
        old(keys)@.no_duplicates(),
    ensures
        final(keys)@.to_set() == old(keys)@.to_set(),
        ascending(final(keys)@),
{
    let ghost walked = keys@;
    sort_numbers(keys);
    proof {
        broadcast use vstd::seq_lib::to_multiset_contains;

        walked.lemma_multiset_has_no_duplicates();
        keys@.lemma_multiset_has_no_duplicates_conv();
        assert forall|x: usize| keys@.to_set().contains(x) <==> walked.to_set().contains(x) by {
            assert(keys@.contains(x) <==> keys@.to_multiset().count(x) > 0);
            assert(walked.contains(x) <==> walked.to_multiset().count(x) > 0);
        }
        assert(keys@.to_set() =~= walked.to_set());
    }
}

/// The keys of `row` in ascending order.
pub fn sorted_keys(row: &Row) -> (keys: Vec<usize>)
    ensures
        lists(keys@, row_entries(*row).dom()),
        ascending(keys@),
{
    let mut keys = row_keys(row);
    sort_distinct(&mut keys);
    keys
}

/// The nodes of `g` in ascending order.
pub fn sorted_nodes(g: &Graph) -> (nodes: Vec<usize>)
    ensures
        lists(nodes@, graph_rows(*g).dom()),
        ascending(nodes@),
{
    let mut nodes = graph_keys(g);
    sort_distinct(&mut nodes);
    nodes
}

/// Two ascending listings of one set are the same listing.
pub proof fn lemma_ascending_is_unique(a: Seq<usize>, b: Seq<usize>, set: Set<usize>)
    requires
        lists(a, set),
        lists(b, set),
        ascending(a),
        ascending(b),
    ensures
        a == b,
    decreases a.len(),
{
    crate::finite::lemma_listing_len(a, set);
    crate::finite::lemma_listing_len(b, set);
    if a.len() > 0 {
        // Both end in the largest element of the set.
        let x = a.last();
        let y = b.last();
        assert(a.to_set().contains(x));
        assert(b.to_set().contains(y));
        assert(b.to_set().contains(x));
        assert(a.to_set().contains(y));
        let i = choose|i: int| 0 <= i < b.len() && b[i] == x;
        let j = choose|j: int| 0 <= j < a.len() && a[j] == y;
        assert(x == y) by {
            if i < b.len() - 1 {
                assert(b[i] < b[b.len() - 1]);
            }
            if j < a.len() - 1 {
                assert(a[j] < a[a.len() - 1]);
            }
        }
        crate::finite::lemma_listing_drop_last(a, set);
        crate::finite::lemma_listing_drop_last(b, set);
        lemma_ascending_is_unique(a.drop_last(), b.drop_last(), set.remove(x));
        assert(a =~= a.drop_last().push(x));
        assert(b =~= b.drop_last().push(y));
    }
}

} // verus!
