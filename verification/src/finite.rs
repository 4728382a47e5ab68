//! Sums, counts, maxima and histograms over finite sets, and what they come to
//! when the set is walked in some order.
//!
//! A hash table is walked in an order that nothing fixes, and a worker pool
//! merges partial results in an order of its own. The lemmas here show that
//! the statistics do not depend on either.

use crate::table::lists;
use vstd::prelude::*;

verus! {

/// Sum of `f` over the elements of a finite set.
pub open spec fn set_sum<T>(set: Set<T>, f: spec_fn(T) -> nat) -> nat
    decreases set.len(),
    when set.finite()
{
    if set.len() == 0 {
        0
    } else {
        let x = set.choose();
        f(x) + set_sum(set.remove(x), f)
    }
}

/// Sum of `f` over the first `n` items of `order`.
pub open spec fn prefix_sum<T>(order: Seq<T>, f: spec_fn(T) -> nat, n: int) -> nat
    decreases n,
{
    if n <= 0 {
        0
    } else {
        prefix_sum(order, f, n - 1) + f(order[n - 1])
    }
}

/// 1 where `p` holds, 0 elsewhere.
pub open spec fn indicator(p: spec_fn(usize) -> bool) -> spec_fn(usize) -> nat {
    |x: usize|
        if p(x) {
            1nat
        } else {
            0nat
        }
}

/// How many of the first `n` items of `order` satisfy `p`.
pub open spec fn prefix_count(order: Seq<usize>, p: spec_fn(usize) -> bool, n: int) -> nat {
    prefix_sum(order, indicator(p), n)
}

/// The items on which `f` takes the value `d`.
pub open spec fn hits(f: spec_fn(usize) -> nat, d: usize) -> spec_fn(usize) -> bool {
    |x: usize| f(x) == d
}

/// `m` is the largest value of `f` on `set`, or 0 where the set is empty.
pub open spec fn is_max_of(set: Set<usize>, f: spec_fn(usize) -> nat, m: nat) -> bool {
    &&& forall|x: usize| #[trigger] set.contains(x) ==> f(x) <= m
    &&& if set.is_empty() {
        m == 0
    } else {
        exists|x: usize| #[trigger] set.contains(x) && f(x) == m
    }
}

/// `f` takes the value `d` on some element of `set`.
pub open spec fn takes(set: Set<usize>, f: spec_fn(usize) -> nat, d: usize) -> bool {
    exists|x: usize| #[trigger] set.contains(x) && f(x) == d
}

/// For each value that `f` takes on `set`, the number of elements on which it
/// takes that value.
pub open spec fn histogram(set: Set<usize>, f: spec_fn(usize) -> nat) -> Map<usize, nat> {
    Map::new(
        |d: usize| takes(set, f, d),
        |d: usize| set.filter(hits(f, d)).len(),
    )
}

/// The table `entries` holds exactly the counts of `hist`.
pub open spec fn holds_counts(entries: Map<usize, usize>, hist: Map<usize, nat>) -> bool {
    &&& entries.dom() == hist.dom()
    &&& forall|d: usize| #[trigger] entries.dom().contains(d) ==> entries[d] == hist[d]
}

/// A listing of a set has as many items as the set has elements.
pub proof fn lemma_listing_len<T>(order: Seq<T>, set: Set<T>)
    requires
        lists(order, set),
    ensures
        set.finite(),
        set.len() == order.len(),
{
    vstd::seq_lib::seq_to_set_is_finite(order);
    order.unique_seq_to_set();
}

/// All but the last item of a listing list the set without that item.
pub proof fn lemma_listing_drop_last<T>(order: Seq<T>, set: Set<T>)
    requires
        lists(order, set),
        order.len() > 0,
    ensures
        set.contains(order.last()),
        lists(order.drop_last(), set.remove(order.last())),
{
    let rest = order.drop_last();
    let x = order.last();
    assert(order[order.len() - 1] == x);
    assert(order.to_set().contains(x));
    assert forall|y: T| rest.to_set().contains(y) <==> set.remove(x).contains(y) by {
        if rest.to_set().contains(y) {
            let i = choose|i: int| 0 <= i < rest.len() && rest[i] == y;
            assert(order[i] == y);
            assert(order.to_set().contains(y));
        }
        if set.remove(x).contains(y) {
            assert(order.to_set().contains(y));
            let i = choose|i: int| 0 <= i < order.len() && order[i] == y;
            assert(rest[i] == y);
        }
    }
    assert(rest.to_set() =~= set.remove(x));
}

/// Any element may be taken out of a sum first.
pub proof fn lemma_set_sum_pick<T>(set: Set<T>, f: spec_fn(T) -> nat, x: T)
    requires
        set.finite(),
        set.contains(x),
    ensures
        set_sum(set, f) == f(x) + set_sum(set.remove(x), f),
    decreases set.len(),
{
    let c = set.choose();
    if c != x {
        lemma_set_sum_pick(set.remove(c), f, x);
        lemma_set_sum_pick(set.remove(x), f, c);
        assert(set.remove(c).remove(x) =~= set.remove(x).remove(c));
    }
}

/// A prefix sum reads only the prefix.
pub proof fn lemma_prefix_sum_agree<T>(
    a: Seq<T>,
    b: Seq<T>,
    f: spec_fn(T) -> nat,
    n: int,
)
    requires
        forall|i: int| 0 <= i < n ==> a[i] == b[i],
    ensures
        prefix_sum(a, f, n) == prefix_sum(b, f, n),
    decreases n,
{
    if n > 0 {
        lemma_prefix_sum_agree(a, b, f, n - 1);
    }
}

/// A prefix sum of values that stay under `bound` stays under `n * bound`.
pub proof fn lemma_prefix_sum_bound<T>(
    order: Seq<T>,
    f: spec_fn(T) -> nat,
    n: int,
    bound: nat,
)
    requires
        0 <= n <= order.len(),
        forall|i: int| 0 <= i < n ==> f(order[i]) <= bound,
    ensures
        prefix_sum(order, f, n) <= n * bound,
    decreases n,
{
    if n > 0 {
        lemma_prefix_sum_bound(order, f, n - 1, bound);
        assert(n * bound == (n - 1) * bound + bound) by (nonlinear_arith);
    } else {
        assert(n * bound == 0) by (nonlinear_arith)
            requires
                n == 0,
        ;
    }
}

/// A prefix sum grows with the prefix.
pub proof fn lemma_prefix_sum_grows<T>(order: Seq<T>, f: spec_fn(T) -> nat, i: int, n: int)
    requires
        i <= n,
    ensures
        prefix_sum(order, f, i) <= prefix_sum(order, f, n),
    decreases n - i,
{
    if i < n {
        lemma_prefix_sum_grows(order, f, i, n - 1);
    }
}

/// The sum over a set is the sum along any listing of it: the order in which
/// the elements are visited does not matter.
pub proof fn lemma_sum_of_listing<T>(order: Seq<T>, set: Set<T>, f: spec_fn(T) -> nat)
    requires
        lists(order, set),
    ensures
        set.finite(),
        set_sum(set, f) == prefix_sum(order, f, order.len() as int),
    decreases order.len(),
{
    lemma_listing_len(order, set);
    if order.len() > 0 {
        let x = order.last();
        let rest = order.drop_last();
        lemma_listing_drop_last(order, set);
        lemma_sum_of_listing(rest, set.remove(x), f);
        lemma_set_sum_pick(set, f, x);
        lemma_prefix_sum_agree(order, rest, f, rest.len() as int);
    }
}

/// The number of elements that satisfy `p` is the sum of its indicator.
pub proof fn lemma_filter_len(set: Set<usize>, p: spec_fn(usize) -> bool)
    requires
        set.finite(),
    ensures
        set.filter(p).finite(),
        set.filter(p).len() == set_sum(set, indicator(p)),
        set.filter(p).len() <= set.len(),
    decreases set.len(),
{
    if set.len() == 0 {
        assert(set.filter(p) =~= Set::<usize>::empty());
    } else {
        let x = set.choose();
        lemma_filter_len(set.remove(x), p);
        if p(x) {
            assert(set.filter(p) =~= set.remove(x).filter(p).insert(x));
        } else {
            assert(set.filter(p) =~= set.remove(x).filter(p));
        }
    }
}

/// The number of elements that satisfy `p` is the number of items of any
/// listing that satisfy it.
pub proof fn lemma_count_of_listing(order: Seq<usize>, set: Set<usize>, p: spec_fn(usize) -> bool)
    requires
        lists(order, set),
    ensures
        set.finite(),
        set.filter(p).len() == prefix_count(order, p, order.len() as int),
{
    lemma_sum_of_listing(order, set, indicator(p));
    lemma_filter_len(set, p);
}

/// A count over a prefix is at most the length of the prefix.
pub proof fn lemma_prefix_count_bound(order: Seq<usize>, p: spec_fn(usize) -> bool, n: int)
    requires
        0 <= n,
    ensures
        prefix_count(order, p, n) <= n,
    decreases n,
{
    if n > 0 {
        lemma_prefix_count_bound(order, p, n - 1);
    }
}

/// A positive count over a prefix has a witness in the prefix, and conversely.
pub proof fn lemma_prefix_count_positive(order: Seq<usize>, p: spec_fn(usize) -> bool, n: int)
    requires
        0 <= n,
    ensures
        prefix_count(order, p, n) > 0 <==> exists|i: int| 0 <= i < n && p(#[trigger] order[i]),
    decreases n,
{
    if n > 0 {
        lemma_prefix_count_positive(order, p, n - 1);
        if prefix_count(order, p, n) > 0 {
            if p(order[n - 1]) {
            } else {
                let i = choose|i: int| 0 <= i < n - 1 && p(#[trigger] order[i]);
                assert(0 <= i < n && p(order[i]));
            }
        }
        if exists|i: int| 0 <= i < n && p(#[trigger] order[i]) {
            let i = choose|i: int| 0 <= i < n && p(#[trigger] order[i]);
            if i < n - 1 {
                assert(0 <= i < n - 1 && p(order[i]));
            }
        }
    }
}

/// Membership in `set`, as a predicate.
pub open spec fn member_of(set: Set<usize>) -> spec_fn(usize) -> bool {
    |x: usize| set.contains(x)
}

/// Being equal to `d`, as a predicate.
pub open spec fn equals(d: usize) -> spec_fn(usize) -> bool {
    |x: usize| x == d
}

/// A number as itself.
pub open spec fn itself() -> spec_fn(usize) -> nat {
    |x: usize| x as nat
}

/// `values` holds, item by item, the value of `f` on `order`.
pub open spec fn values_of(order: Seq<usize>, f: spec_fn(usize) -> nat, values: Seq<usize>) -> bool {
    &&& values.len() == order.len()
    &&& forall|i: int| 0 <= i < order.len() ==> #[trigger] values[i] == f(order[i])
}

/// The sum of all items of `values`.
pub open spec fn sum_of(values: Seq<usize>) -> nat {
    prefix_sum(values, itself(), values.len() as int)
}

/// `m` is the largest item of `values`, or 0 where there is none.
pub open spec fn is_max_in(values: Seq<usize>, m: usize) -> bool {
    &&& forall|i: int| 0 <= i < values.len() ==> #[trigger] values[i] <= m
    &&& if values.len() == 0 {
        m == 0
    } else {
        values.contains(m)
    }
}

/// For each item of `values`, how often it occurs.
pub open spec fn occurrences(values: Seq<usize>) -> Map<usize, nat> {
    Map::new(
        |d: usize| values.contains(d),
        |d: usize| prefix_count(values, equals(d), values.len() as int),
    )
}

/// The sum of the values is the sum of `f` over the set that `order` lists.
pub proof fn lemma_sum_of_values(
    order: Seq<usize>,
    set: Set<usize>,
    f: spec_fn(usize) -> nat,
    values: Seq<usize>,
)
    requires
        lists(order, set),
        values_of(order, f, values),
    ensures
        set.finite(),
        sum_of(values) == set_sum(set, f),
{
    lemma_sum_of_listing(order, set, f);
    lemma_prefix_values(order, f, values, order.len() as int);
}

/// Summing the values is summing `f` along `order`, prefix by prefix.
pub proof fn lemma_prefix_values(
    order: Seq<usize>,
    f: spec_fn(usize) -> nat,
    values: Seq<usize>,
    n: int,
)
    requires
        values_of(order, f, values),
        0 <= n <= order.len(),
    ensures
        prefix_sum(values, itself(), n) == prefix_sum(order, f, n),
    decreases n,
{
    if n > 0 {
        lemma_prefix_values(order, f, values, n - 1);
        assert(values[n - 1] == f(order[n - 1]));
    }
}

/// Counting a value among the values is counting where `f` takes it along
/// `order`, prefix by prefix.
pub proof fn lemma_prefix_occurrences(
    order: Seq<usize>,
    f: spec_fn(usize) -> nat,
    values: Seq<usize>,
    d: usize,
    n: int,
)
    requires
        values_of(order, f, values),
        0 <= n <= order.len(),
    ensures
        prefix_count(values, equals(d), n) == prefix_count(order, hits(f, d), n),
    decreases n,
{
    if n > 0 {
        lemma_prefix_occurrences(order, f, values, d, n - 1);
        assert(values[n - 1] == f(order[n - 1]));
    }
}

/// The largest of the values is the largest value of `f` on the set that
/// `order` lists.
pub proof fn lemma_max_of_values(
    order: Seq<usize>,
    set: Set<usize>,
    f: spec_fn(usize) -> nat,
    values: Seq<usize>,
    m: usize,
)
    requires
        lists(order, set),
        values_of(order, f, values),
        is_max_in(values, m),
    ensures
        is_max_of(set, f, m as nat),
{
    assert forall|x: usize| #[trigger] set.contains(x) implies f(x) <= m by {
        assert(order.to_set().contains(x));
        let i = choose|i: int| 0 <= i < order.len() && order[i] == x;
        assert(values[i] == f(order[i]));
    }
    if values.len() == 0 {
        assert forall|x: usize| !set.contains(x) by {
            if set.contains(x) {
                assert(order.to_set().contains(x));
            }
        }
        assert(set =~= Set::<usize>::empty());
    } else {
        let i = choose|i: int| 0 <= i < values.len() && values[i] == m;
        assert(values[i] == f(order[i]));
        assert(order.to_set().contains(order[i]));
        assert(set.contains(order[i]) && f(order[i]) == m);
        assert(!(set =~= Set::<usize>::empty()));
    }
}

/// The occurrences of the values are the histogram of `f` on the set that
/// `order` lists.
pub proof fn lemma_histogram_of_values(
    order: Seq<usize>,
    set: Set<usize>,
    f: spec_fn(usize) -> nat,
    values: Seq<usize>,
)
    requires
        lists(order, set),
        values_of(order, f, values),
    ensures
        occurrences(values) =~= histogram(set, f),
{
    let n = order.len() as int;
    assert forall|d: usize| occurrences(values).dom().contains(d) <==> histogram(
        set,
        f,
    ).dom().contains(d) by {
        if values.contains(d) {
            let i = choose|i: int| 0 <= i < values.len() && values[i] == d;
            assert(values[i] == f(order[i]));
            assert(order.to_set().contains(order[i]));
            assert(set.contains(order[i]) && f(order[i]) == d);
        }
        if exists|x: usize| #[trigger] set.contains(x) && f(x) == d {
            let x = choose|x: usize| #[trigger] set.contains(x) && f(x) == d;
            assert(order.to_set().contains(x));
            let i = choose|i: int| 0 <= i < order.len() && order[i] == x;
            assert(values[i] == f(order[i]));
        }
    }
    assert forall|d: usize| occurrences(values).dom().contains(d) implies occurrences(values)[d]
        == histogram(set, f)[d] by {
        lemma_prefix_occurrences(order, f, values, d, n);
        lemma_count_of_listing(order, set, hits(f, d));
    }
}

/// A set has one largest value, and a histogram one table.
pub proof fn lemma_max_is_unique(set: Set<usize>, f: spec_fn(usize) -> nat, a: nat, b: nat)
    requires
        is_max_of(set, f, a),
        is_max_of(set, f, b),
    ensures
        a == b,
{
}

/// Two tables that hold the counts of one histogram hold the same entries.
pub proof fn lemma_counts_are_unique(
    a: Map<usize, usize>,
    b: Map<usize, usize>,
    hist: Map<usize, nat>,
)
    requires
        holds_counts(a, hist),
        holds_counts(b, hist),
    ensures
        a == b,
{
    assert(a =~= b);
}

/// `g` where `p` holds, 0 elsewhere.
pub open spec fn masked(p: spec_fn(usize) -> bool, g: spec_fn(usize) -> nat) -> spec_fn(
    usize,
) -> nat {
    |x: usize|
        if p(x) {
            g(x)
        } else {
            0nat
        }
}

/// The items that `r` relates to `u`, as a predicate.
pub open spec fn sources(r: spec_fn(usize, usize) -> bool, u: usize) -> spec_fn(usize) -> bool {
    |w: usize| r(w, u)
}

/// The items that `r` relates `w` to, as a predicate.
pub open spec fn targets(r: spec_fn(usize, usize) -> bool, w: usize) -> spec_fn(usize) -> bool {
    |u: usize| r(w, u)
}

/// For each item, the number of elements of `set` that `r` relates to it.
pub open spec fn in_count(set: Set<usize>, r: spec_fn(usize, usize) -> bool) -> spec_fn(
    usize,
) -> nat {
    |u: usize| set.filter(sources(r, u)).len()
}

/// For each item, the number of elements of `set` that `r` relates it to.
pub open spec fn out_count(set: Set<usize>, r: spec_fn(usize, usize) -> bool) -> spec_fn(
    usize,
) -> nat {
    |w: usize| set.filter(targets(r, w)).len()
}

/// Functions that agree on the set have the same sum.
pub proof fn lemma_set_sum_same(
    set: Set<usize>,
    f: spec_fn(usize) -> nat,
    g: spec_fn(usize) -> nat,
)
    requires
        set.finite(),
        forall|x: usize| #[trigger] set.contains(x) ==> f(x) == g(x),
    ensures
        set_sum(set, f) == set_sum(set, g),
    decreases set.len(),
{
    if set.len() > 0 {
        let x = set.choose();
        lemma_set_sum_same(set.remove(x), f, g);
    }
}

/// A function that stays under another on the set has the smaller sum.
pub proof fn lemma_set_sum_below(
    set: Set<usize>,
    f: spec_fn(usize) -> nat,
    g: spec_fn(usize) -> nat,
)
    requires
        set.finite(),
        forall|x: usize| #[trigger] set.contains(x) ==> f(x) <= g(x),
    ensures
        set_sum(set, f) <= set_sum(set, g),
    decreases set.len(),
{
    if set.len() > 0 {
        let x = set.choose();
        lemma_set_sum_below(set.remove(x), f, g);
    }
}

/// The sum of a sum is the sum of the sums.
pub proof fn lemma_set_sum_add(
    set: Set<usize>,
    f: spec_fn(usize) -> nat,
    g: spec_fn(usize) -> nat,
    h: spec_fn(usize) -> nat,
)
    requires
        set.finite(),
        forall|x: usize| #[trigger] set.contains(x) ==> f(x) == g(x) + h(x),
    ensures
        set_sum(set, f) == set_sum(set, g) + set_sum(set, h),
    decreases set.len(),
{
    if set.len() > 0 {
        let x = set.choose();
        lemma_set_sum_add(set.remove(x), f, g, h);
    }
}

/// The sum of a constant is the constant times the size of the set.
pub proof fn lemma_set_sum_constant(set: Set<usize>, f: spec_fn(usize) -> nat, c: nat)
    requires
        set.finite(),
        forall|x: usize| #[trigger] set.contains(x) ==> f(x) == c,
    ensures
        set_sum(set, f) == set.len() * c,
    decreases set.len(),
{
    if set.len() > 0 {
        let x = set.choose();
        lemma_set_sum_constant(set.remove(x), f, c);
        assert(set.len() * c == (set.len() - 1) * c + c) by (nonlinear_arith);
    } else {
        assert(set.len() * c == 0) by (nonlinear_arith)
            requires
                set.len() == 0,
        ;
    }
}

/// Taking `x` out of a set takes it out of the elements that satisfy `p`.
pub proof fn lemma_filter_remove(set: Set<usize>, p: spec_fn(usize) -> bool, x: usize)
    requires
        set.finite(),
        set.contains(x),
    ensures
        set.filter(p).len() == set.remove(x).filter(p).len() + indicator(p)(x),
{
    lemma_filter_len(set.remove(x), p);
    if p(x) {
        assert(set.filter(p) =~= set.remove(x).filter(p).insert(x));
    } else {
        assert(set.filter(p) =~= set.remove(x).filter(p));
    }
}

/// Double counting: the pairs of a relation on a finite set, counted by their
/// second item or by their first, are as many.
pub proof fn lemma_double_count(set: Set<usize>, r: spec_fn(usize, usize) -> bool)
    requires
        set.finite(),
    ensures
        set_sum(set, in_count(set, r)) == set_sum(set, out_count(set, r)),
    decreases set.len(),
{
    if set.len() > 0 {
        let x = set.choose();
        let rest = set.remove(x);
        lemma_double_count(rest, r);
        // By second item: each remaining item gains `x` as a possible first.
        assert forall|u: usize| #[trigger] rest.contains(u) implies in_count(set, r)(u)
            == in_count(rest, r)(u) + indicator(targets(r, x))(u) by {
            lemma_filter_remove(set, sources(r, u), x);
        }
        lemma_set_sum_add(rest, in_count(set, r), in_count(rest, r), indicator(targets(r, x)));
        lemma_filter_len(rest, targets(r, x));
        lemma_filter_remove(set, sources(r, x), x);
        // By first item: each remaining item gains `x` as a possible second.
        assert forall|w: usize| #[trigger] rest.contains(w) implies out_count(set, r)(w)
            == out_count(rest, r)(w) + indicator(sources(r, x))(w) by {
            lemma_filter_remove(set, targets(r, w), x);
        }
        lemma_set_sum_add(rest, out_count(set, r), out_count(rest, r), indicator(sources(r, x)));
        lemma_filter_len(rest, sources(r, x));
        lemma_filter_remove(set, targets(r, x), x);
    }
}

/// Being smaller, as a relation.
pub open spec fn below() -> spec_fn(usize, usize) -> bool {
    |a: usize, b: usize| a < b
}

/// Count, for each element of a finite set of numbers, the elements above it.
/// The counts sum to the number of unordered pairs: doubled, they are the
/// ordered pairs of distinct elements.
pub proof fn lemma_pairs_above(set: Set<usize>)
    requires
        set.finite(),
    ensures
        2 * set_sum(set, out_count(set, below())) == set.len() * (set.len() - 1),
{
    let up = out_count(set, below());
    let down = in_count(set, below());
    let both = |x: usize| (up(x) + down(x)) as nat;
    lemma_double_count(set, below());
    assert forall|x: usize| #[trigger] set.contains(x) implies both(x) == (set.len() - 1) as nat by {
        let above = set.filter(targets(below(), x));
        let under = set.filter(sources(below(), x));
        lemma_filter_len(set, targets(below(), x));
        lemma_filter_len(set, sources(below(), x));
        assert(above.disjoint(under));
        vstd::set_lib::lemma_set_disjoint_lens(above, under);
        assert(above + under =~= set.remove(x));
    }
    lemma_set_sum_add(set, both, up, down);
    lemma_set_sum_constant(set, both, (set.len() - 1) as nat);
    if set.len() == 0 {
        assert(set.len() * (set.len() - 1) == 0) by (nonlinear_arith)
            requires
                set.len() == 0,
        ;
    }
}

} // verus!
