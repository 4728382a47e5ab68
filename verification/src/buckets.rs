//! Grouping per-node amounts by a per-node key: the step behind the
//! degree-bucketed coefficient distribution.

use crate::finite::hits;
use crate::finite::lemma_count_of_listing;
use crate::finite::lemma_sum_of_listing;
use crate::finite::masked;
use crate::finite::prefix_count;
use crate::finite::prefix_sum;
use crate::finite::set_sum;
use crate::finite::takes;
use crate::functions::lemma_words_fit;
use crate::functions::tally;
use crate::sorting::ascending;
use crate::sorting::lemma_ascending_is_unique;
use crate::sorting::sorted_keys;
use crate::table::lists;
use crate::table::row_entries;
use crate::table::row_get;
use crate::table::row_new;
use crate::table::row_slot;
use crate::table::Row;
use vstd::prelude::*;

verus! {

/// One bucket of a coefficient distribution: the nodes of one degree, and the
/// closed pairs among the neighbors of all of them. Each of these nodes has
/// `degree * (degree - 1) / 2` pairs of neighbors, so the mean coefficient of
/// the bucket is `closed` over `nodes` times that number, and 0 where the
/// degree is under 2.
#[derive(Clone, Copy, Debug, PartialEq, Eq, Structural)]
pub struct DegreeBucket {
    pub degree: usize,
    pub nodes: usize,
    pub closed: u128,
}

/// How many of the first `n` entries have the key `d`.
pub open spec fn key_count(entries: Seq<(usize, usize)>, d: usize, n: int) -> nat
    decreases n,
{
    if n <= 0 {
        0
    } else {
        key_count(entries, d, n - 1) + if entries[n - 1].0 == d {
            1nat
        } else {
            0nat
        }
    }
}

/// The sum of the amounts of those of the first `n` entries that have the key
/// `d`.
pub open spec fn key_sum(entries: Seq<(usize, usize)>, d: usize, n: int) -> nat
    decreases n,
{
    if n <= 0 {
        0
    } else {
        key_sum(entries, d, n - 1) + if entries[n - 1].0 == d {
            entries[n - 1].1 as nat
        } else {
            0nat
        }
    }
}

/// Some entry has the key `d`.
pub open spec fn has_key(entries: Seq<(usize, usize)>, d: usize) -> bool {
    exists|i: int| 0 <= i < entries.len() && (#[trigger] entries[i]).0 == d
}

/// `buckets` groups the `(key, amount)` entries by key: one bucket for each
/// key that occurs, in ascending order of the keys, with the number of entries
/// of that key and the sum of their amounts.
pub open spec fn is_bucketing(buckets: Seq<DegreeBucket>, entries: Seq<(usize, usize)>) -> bool {
    &&& forall|i: int, j: int|
        0 <= i < j < buckets.len() ==> (#[trigger] buckets[i]).degree < (#[trigger] buckets[j]).degree
    &&& forall|d: usize|
        has_key(entries, d) <==> exists|i: int|
            0 <= i < buckets.len() && (#[trigger] buckets[i]).degree == d
    &&& forall|i: int|
        0 <= i < buckets.len() ==> {
            &&& (#[trigger] buckets[i]).nodes == key_count(
                entries,
                buckets[i].degree,
                entries.len() as int,
            )
            &&& buckets[i].closed == key_sum(entries, buckets[i].degree, entries.len() as int)
        }
}

/// The counts and sums of a key stay within what the entries seen so far allow.
pub proof fn lemma_key_bounds(entries: Seq<(usize, usize)>, d: usize, n: int)
    requires
        0 <= n,
    ensures
        key_count(entries, d, n) <= n,
        key_sum(entries, d, n) <= n * usize::MAX,
    decreases n,
{
    if n > 0 {
        lemma_key_bounds(entries, d, n - 1);
        assert(n * usize::MAX == (n - 1) * usize::MAX + usize::MAX) by (nonlinear_arith);
    } else {
        assert(n * usize::MAX == 0) by (nonlinear_arith)
            requires
                n == 0,
        ;
    }
}

/// The keys of the entries, in their order.
pub fn keys_of(entries: &Vec<(usize, usize)>) -> (keys: Vec<usize>)
    ensures
        keys@.len() == entries@.len(),
        forall|i: int| 0 <= i < keys@.len() ==> #[trigger] keys@[i] == entries@[i].0,
{
    let n = entries.len();
    let mut keys: Vec<usize> = Vec::new();
    for i in 0..n
        invariant
            n == entries@.len(),
            keys@.len() == i,
            forall|j: int| 0 <= j < i ==> #[trigger] keys@[j] == entries@[j].0,
    {
        keys.push(entries[i].0);
    }
    keys
}

/// A table from each of `order` to its position.
pub fn positions(order: &Vec<usize>) -> (index: Row)
    requires
        order@.no_duplicates(),
    ensures
        row_entries(index).dom() == order@.to_set(),
        forall|p: int| 0 <= p < order@.len() ==> #[trigger] row_entries(index)[order@[p]] == p,
{
    let m = order.len();
    let mut index = row_new();
    for p in 0..m
        invariant
            m == order@.len(),
            order@.no_duplicates(),
            forall|d: usize|
                row_entries(index).dom().contains(d) <==> exists|q: int|
                    0 <= q < p && #[trigger] order@[q] == d,
            forall|q: int| 0 <= q < p ==> #[trigger] row_entries(index)[order@[q]] == q,
    {
        let ghost before = row_entries(index);
        let slot = row_slot(&mut index, order[p], p);
        *slot = p;
        proof {
            assert(row_entries(index) == before.insert(order@[p as int], p));
            assert forall|d: usize|
                row_entries(index).dom().contains(d) <==> exists|q: int|
                    0 <= q < p + 1 && #[trigger] order@[q] == d by {
                if row_entries(index).dom().contains(d) && d != order@[p as int] {
                    let q = choose|q: int| 0 <= q < p && #[trigger] order@[q] == d;
                    assert(0 <= q < p + 1 && order@[q] == d);
                }
            }
        }
    }
    proof {
        assert forall|d: usize| row_entries(index).dom().contains(d) <==> order@.to_set().contains(
            d,
        ) by {
            if order@.to_set().contains(d) {
                let q = choose|q: int| 0 <= q < order@.len() && order@[q] == d;
                assert(0 <= q < m && order@[q] == d);
            }
        }
        assert(row_entries(index).dom() =~= order@.to_set());
    }
    index
}

/// Groups the `(key, amount)` entries by key.
pub fn bucket_sums(entries: &Vec<(usize, usize)>) -> (buckets: Vec<DegreeBucket>)
    ensures
        is_bucketing(buckets@, entries@),
{
    let n = entries.len();
    let keys = keys_of(entries);
    let seen = tally(&keys);
    let order = sorted_keys(&seen);
    let index = positions(&order);
    let m = order.len();
    proof {
        assert forall|d: usize| has_key(entries@, d) <==> order@.to_set().contains(d) by {
            if has_key(entries@, d) {
                let i = choose|i: int| 0 <= i < entries@.len() && (#[trigger] entries@[i]).0 == d;
                assert(keys@[i] == d);
                assert(keys@.contains(d));
            }
            if keys@.contains(d) {
                let i = choose|i: int| 0 <= i < keys@.len() && keys@[i] == d;
                assert(entries@[i].0 == d);
            }
        }
    }
    let mut buckets: Vec<DegreeBucket> = Vec::new();
    for p in 0..m
        invariant
            m == order@.len(),
            buckets@.len() == p,
            forall|q: int|
                0 <= q < p ==> (#[trigger] buckets@[q]) == (DegreeBucket {
                    degree: order@[q],
                    nodes: 0,
                    closed: 0,
                }),
    {
        buckets.push(DegreeBucket { degree: order[p], nodes: 0, closed: 0 });
    }
    for i in 0..n
        invariant
            n == entries@.len(),
            m == order@.len(),
            buckets@.len() == m,
            order@.no_duplicates(),
            row_entries(index).dom() == order@.to_set(),
            forall|p: int| 0 <= p < m ==> #[trigger] row_entries(index)[order@[p]] == p,
            forall|d: usize| has_key(entries@, d) <==> order@.to_set().contains(d),
            forall|p: int|
                0 <= p < m ==> {
                    &&& (#[trigger] buckets@[p]).degree == order@[p]
                    &&& buckets@[p].nodes == key_count(entries@, order@[p], i as int)
                    &&& buckets@[p].closed == key_sum(entries@, order@[p], i as int)
                },
    {
        let key = entries[i].0;
        let amount = entries[i].1;
        assert(has_key(entries@, key));
        let ghost at = choose|p: int| 0 <= p < order@.len() && order@[p] == key;
        match row_get(&index, key) {
            None => {
                assert(false);
            },
            Some(p) => {
                assert(p == at);
                let bucket = buckets[p];
                proof {
                    lemma_key_bounds(entries@, key, i as int);
                    lemma_words_fit(i as nat, n as nat);
                }
                buckets.set(
                    p,
                    DegreeBucket {
                        degree: bucket.degree,
                        nodes: bucket.nodes + 1,
                        closed: bucket.closed + amount as u128,
                    },
                );
            },
        }
    }
    proof {
        assert forall|p: int, q: int| 0 <= p < q < buckets@.len() implies (#[trigger] buckets@[p]).degree
            < (#[trigger] buckets@[q]).degree by {
            assert(order@[p] < order@[q]);
        }
        assert forall|d: usize|
            has_key(entries@, d) <==> exists|p: int|
                0 <= p < buckets@.len() && (#[trigger] buckets@[p]).degree == d by {
            if has_key(entries@, d) {
                let p = choose|p: int| 0 <= p < order@.len() && order@[p] == d;
                assert(buckets@[p].degree == d);
            }
            if exists|p: int| 0 <= p < buckets@.len() && (#[trigger] buckets@[p]).degree == d {
                let p = choose|p: int| 0 <= p < buckets@.len() && (#[trigger] buckets@[p]).degree == d;
                assert(order@[p] == d);
                assert(order@.to_set().contains(d));
            }
        }
    }
    buckets
}

/// `entries` holds, item by item, the values of `f` and `g` on `order`.
pub open spec fn entries_of(
    order: Seq<usize>,
    f: spec_fn(usize) -> nat,
    g: spec_fn(usize) -> nat,
    entries: Seq<(usize, usize)>,
) -> bool {
    &&& entries.len() == order.len()
    &&& forall|i: int|
        0 <= i < order.len() ==> (#[trigger] entries[i]).0 == f(order[i]) && entries[i].1 == g(
            order[i],
        )
}

/// `buckets` groups the elements of `set` by their value of `f`: one bucket
/// for each value that occurs, in ascending order of the values, with the
/// number of elements of that value and the sum of `g` over them.
pub open spec fn is_grouping(
    buckets: Seq<DegreeBucket>,
    set: Set<usize>,
    f: spec_fn(usize) -> nat,
    g: spec_fn(usize) -> nat,
) -> bool {
    &&& forall|i: int, j: int|
        0 <= i < j < buckets.len() ==> (#[trigger] buckets[i]).degree < (#[trigger] buckets[j]).degree
    &&& forall|d: usize| #[trigger]
        takes(set, f, d) <==> exists|i: int|
            0 <= i < buckets.len() && (#[trigger] buckets[i]).degree == d
    &&& forall|i: int|
        0 <= i < buckets.len() ==> {
            &&& (#[trigger] buckets[i]).nodes == set.filter(hits(f, buckets[i].degree)).len()
            &&& buckets[i].closed == set_sum(set, masked(hits(f, buckets[i].degree), g))
        }
}

/// Counting and summing by key along the entries is counting and summing
/// where `f` takes the key along `order`, prefix by prefix.
pub proof fn lemma_prefix_keys(
    order: Seq<usize>,
    f: spec_fn(usize) -> nat,
    g: spec_fn(usize) -> nat,
    entries: Seq<(usize, usize)>,
    d: usize,
    n: int,
)
    requires
        entries_of(order, f, g, entries),
        0 <= n <= order.len(),
    ensures
        key_count(entries, d, n) == prefix_count(order, hits(f, d), n),
        key_sum(entries, d, n) == prefix_sum(order, masked(hits(f, d), g), n),
    decreases n,
{
    if n > 0 {
        lemma_prefix_keys(order, f, g, entries, d, n - 1);
        assert(entries[n - 1].0 == f(order[n - 1]));
    }
}

/// Grouping the entries by key is grouping the set that `order` lists by `f`.
pub proof fn lemma_grouping_of_entries(
    buckets: Seq<DegreeBucket>,
    order: Seq<usize>,
    set: Set<usize>,
    f: spec_fn(usize) -> nat,
    g: spec_fn(usize) -> nat,
    entries: Seq<(usize, usize)>,
)
    requires
        lists(order, set),
        entries_of(order, f, g, entries),
        is_bucketing(buckets, entries),
    ensures
        is_grouping(buckets, set, f, g),
{
    let n = order.len() as int;
    assert forall|d: usize| #[trigger] takes(set, f, d) <==> has_key(entries, d) by {
        if takes(set, f, d) {
            let x = choose|x: usize| #[trigger] set.contains(x) && f(x) == d;
            assert(order.to_set().contains(x));
            let i = choose|i: int| 0 <= i < order.len() && order[i] == x;
            assert(entries[i].0 == d);
        }
        if has_key(entries, d) {
            let i = choose|i: int| 0 <= i < entries.len() && (#[trigger] entries[i]).0 == d;
            assert(order.to_set().contains(order[i]));
            assert(set.contains(order[i]) && f(order[i]) == d);
        }
    }
    assert forall|i: int| 0 <= i < buckets.len() implies {
        &&& (#[trigger] buckets[i]).nodes == set.filter(hits(f, buckets[i].degree)).len()
        &&& buckets[i].closed == set_sum(set, masked(hits(f, buckets[i].degree), g))
    } by {
        let d = buckets[i].degree;
        lemma_prefix_keys(order, f, g, entries, d, n);
        lemma_count_of_listing(order, set, hits(f, d));
        lemma_sum_of_listing(order, set, masked(hits(f, d), g));
    }
}

/// The keys of the buckets, in their order.
pub open spec fn degrees_of(buckets: Seq<DegreeBucket>) -> Seq<usize> {
    Seq::new(buckets.len(), |i: int| buckets[i].degree)
}

/// A set has one grouping: the thread and the worker pool, which both return
/// a grouping of the nodes by degree, return the same.
pub proof fn lemma_grouping_is_unique(
    a: Seq<DegreeBucket>,
    b: Seq<DegreeBucket>,
    set: Set<usize>,
    f: spec_fn(usize) -> nat,
    g: spec_fn(usize) -> nat,
)
    requires
        is_grouping(a, set, f, g),
        is_grouping(b, set, f, g),
    ensures
        a == b,
{
    let taken = Set::new(|d: usize| takes(set, f, d));
    lemma_degrees_list(a, set, f, g);
    lemma_degrees_list(b, set, f, g);
    lemma_ascending_is_unique(degrees_of(a), degrees_of(b), taken);
    assert(a.len() == degrees_of(a).len());
    assert(b.len() == degrees_of(b).len());
    assert forall|i: int| 0 <= i < a.len() implies a[i] == b[i] by {
        assert(degrees_of(a)[i] == a[i].degree);
        assert(degrees_of(b)[i] == b[i].degree);
    }
    assert(a =~= b);
}

/// The keys of a grouping list, in ascending order, the values that `f`
/// takes on the set.
pub proof fn lemma_degrees_list(
    buckets: Seq<DegreeBucket>,
    set: Set<usize>,
    f: spec_fn(usize) -> nat,
    g: spec_fn(usize) -> nat,
)
    requires
        is_grouping(buckets, set, f, g),
    ensures
        lists(degrees_of(buckets), Set::new(|d: usize| takes(set, f, d))),
        ascending(degrees_of(buckets)),
{
    let keys = degrees_of(buckets);
    let taken = Set::new(|d: usize| takes(set, f, d));
    assert forall|i: int, j: int| 0 <= i < j < keys.len() implies keys[i] < keys[j] by {
        assert(buckets[i].degree < buckets[j].degree);
    }
    assert forall|d: usize| keys.to_set().contains(d) <==> taken.contains(d) by {
        if keys.to_set().contains(d) {
            let i = choose|i: int| 0 <= i < keys.len() && keys[i] == d;
            assert(buckets[i].degree == d);
        }
        if takes(set, f, d) {
            let i = choose|i: int| 0 <= i < buckets.len() && (#[trigger] buckets[i]).degree == d;
            assert(keys[i] == d);
        }
    }
    assert(keys.to_set() =~= taken);
}

} // verus!
