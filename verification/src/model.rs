//! What the statistics mean, stated over the mapping that a graph holds.
//!
//! A graph maps each node to its row, and a row maps each neighbor to the
//! weight of the edge. A node that only occurs as a neighbor has no row: it
//! has no neighbors of its own and degree 0.

use crate::finite::below;
use crate::finite::in_count;
use crate::finite::lemma_double_count;
use crate::finite::lemma_filter_len;
use crate::finite::lemma_pairs_above;
use crate::finite::lemma_set_sum_add;
use crate::finite::lemma_set_sum_below;
use crate::finite::lemma_set_sum_same;
use crate::finite::out_count;
use crate::finite::set_sum;
use crate::finite::sources;
use crate::finite::targets;
use vstd::prelude::*;

verus! {

/// Why a statistic could not be computed.
#[derive(Clone, Copy, Debug, PartialEq, Eq, Structural)]
pub enum StatsError {
    /// The graph has no node, so an average over its nodes does not exist.
    EmptyGraph,
    /// A count of one node does not fit in `usize`.
    Overflow,
}

/// An average as the exact sum and the number of items it is taken over.
#[derive(Clone, Copy, Debug, PartialEq, Eq, Structural)]
pub struct Average {
    pub sum: u128,
    pub count: usize,
}

/// A local clustering coefficient as an exact fraction: `closed` of the
/// `pairs` pairs of neighbors are closed. Without a pair the coefficient is 0.
#[derive(Clone, Copy, Debug, PartialEq, Eq, Structural)]
pub struct Coefficient {
    pub closed: u128,
    pub pairs: u128,
}

/// The neighbors of `v`: the keys of its row, none where it has no row.
pub open spec fn neighbors(rows: Map<usize, Map<usize, usize>>, v: usize) -> Set<usize> {
    if rows.dom().contains(v) {
        rows[v].dom()
    } else {
        Set::empty()
    }
}

/// Whether `b` is a neighbor of `a`.
pub open spec fn adjacent(rows: Map<usize, Map<usize, usize>>, a: usize, b: usize) -> bool {
    neighbors(rows, a).contains(b)
}

/// The number of neighbors of `v`.
pub open spec fn degree(rows: Map<usize, Map<usize, usize>>, v: usize) -> nat {
    neighbors(rows, v).len()
}

/// `degree`, as a function of the node.
pub open spec fn degree_fn(rows: Map<usize, Map<usize, usize>>) -> spec_fn(usize) -> nat {
    |v: usize| degree(rows, v)
}

/// The sum of the degrees of all nodes.
pub open spec fn total_degree(rows: Map<usize, Map<usize, usize>>) -> nat {
    set_sum(rows.dom(), degree_fn(rows))
}

/// The number of neighbors of `u` that are neighbors of `v` too.
pub open spec fn shared(rows: Map<usize, Map<usize, usize>>, v: usize, u: usize) -> nat {
    neighbors(rows, u).intersect(neighbors(rows, v)).len()
}

/// `shared`, as a function of `u`.
pub open spec fn shared_fn(rows: Map<usize, Map<usize, usize>>, v: usize) -> spec_fn(usize) -> nat {
    |u: usize| shared(rows, v, u)
}

/// The number of closed two-hop walks at `v`: the pairs `(u, w)` where `u` is
/// a neighbor of `v`, and `w` a neighbor of both `u` and `v`.
pub open spec fn closed_walks(rows: Map<usize, Map<usize, usize>>, v: usize) -> nat {
    set_sum(neighbors(rows, v), shared_fn(rows, v))
}

/// `closed_walks`, as a function of the node.
pub open spec fn closed_walks_fn(rows: Map<usize, Map<usize, usize>>) -> spec_fn(usize) -> nat {
    |v: usize| closed_walks(rows, v)
}

/// The number of unordered pairs among `k` items.
pub open spec fn pair_count(k: nat) -> nat {
    (k * (k - 1) / 2) as nat
}

/// `a` and `b` are a closed pair: `b` is the larger, and a neighbor of `a`.
pub open spec fn closing(rows: Map<usize, Map<usize, usize>>) -> spec_fn(usize, usize) -> bool {
    |a: usize, b: usize| a < b && adjacent(rows, a, b)
}

/// Being adjacent, as a relation.
pub open spec fn adjacency(rows: Map<usize, Map<usize, usize>>) -> spec_fn(usize, usize) -> bool {
    |a: usize, b: usize| adjacent(rows, a, b)
}

/// The number of closed pairs among the neighbors of `v`: the pairs of
/// neighbors of which the larger is a neighbor of the smaller. The smaller
/// must have a row of its own for that.
pub open spec fn closed_pairs(rows: Map<usize, Map<usize, usize>>, v: usize) -> nat {
    set_sum(neighbors(rows, v), out_count(neighbors(rows, v), closing(rows)))
}

/// `closed_pairs`, as a function of the node.
pub open spec fn closed_pairs_fn(rows: Map<usize, Map<usize, usize>>) -> spec_fn(usize) -> nat {
    |v: usize| closed_pairs(rows, v)
}

/// `c` is the local clustering coefficient of `v`: the closed pairs among its
/// neighbors, of all pairs of its neighbors.
pub open spec fn is_coefficient_of(
    rows: Map<usize, Map<usize, usize>>,
    v: usize,
    c: Coefficient,
) -> bool {
    &&& c.closed == closed_pairs(rows, v)
    &&& c.pairs == pair_count(degree(rows, v))
}

/// Adjacency among the neighbors of `v` is symmetric.
pub open spec fn symmetric_around(rows: Map<usize, Map<usize, usize>>, v: usize) -> bool {
    forall|a: usize, b: usize|
        neighbors(rows, v).contains(a) && neighbors(rows, v).contains(b) && #[trigger] adjacent(
            rows,
            a,
            b,
        ) ==> adjacent(rows, b, a)
}

/// No neighbor of `v` is its own neighbor.
pub open spec fn loop_free_around(rows: Map<usize, Map<usize, usize>>, v: usize) -> bool {
    forall|a: usize| #[trigger] neighbors(rows, v).contains(a) ==> !adjacent(rows, a, a)
}

/// Of any two distinct neighbors of `v`, the larger is a neighbor of the
/// smaller.
pub open spec fn complete_around(rows: Map<usize, Map<usize, usize>>, v: usize) -> bool {
    forall|a: usize, b: usize|
        #![trigger adjacent(rows, a, b)]
        neighbors(rows, v).contains(a) && neighbors(rows, v).contains(b) && a < b ==> adjacent(
            rows,
            a,
            b,
        )
}

/// The closed pairs among the neighbors of a node are at most the pairs of
/// its neighbors: a local clustering coefficient is at most 1.
pub proof fn lemma_closed_pairs_bound(rows: Map<usize, Map<usize, usize>>, v: usize)
    requires
        neighbors(rows, v).finite(),
    ensures
        closed_pairs(rows, v) <= pair_count(degree(rows, v)),
{
    let around = neighbors(rows, v);
    assert forall|a: usize| #[trigger] around.contains(a) implies out_count(around, closing(rows))(
        a,
    ) <= out_count(around, below())(a) by {
        let closed = around.filter(targets(closing(rows), a));
        let above = around.filter(targets(below(), a));
        lemma_filter_len(around, targets(below(), a));
        assert(closed.subset_of(above));
        vstd::set_lib::lemma_len_subset(closed, above);
    }
    lemma_set_sum_below(around, out_count(around, closing(rows)), out_count(around, below()));
    lemma_pairs_above(around);
    lemma_pair_count_doubled(around.len());
}

/// Twice the number of unordered pairs is the number of ordered ones.
pub proof fn lemma_pair_count_doubled(k: nat)
    ensures
        2 * pair_count(k) == k * (k - 1),
{
    let q = k as int / 2;
    let half = if k % 2 == 0 {
        q * (k - 1)
    } else {
        k * q
    };
    assert(k * (k - 1) == 2 * half) by (nonlinear_arith)
        requires
            half == if k % 2 == 0 {
                q * (k - 1)
            } else {
                k * q
            },
            k % 2 == 0 ==> k == 2 * q,
            k % 2 != 0 ==> k - 1 == 2 * q,
    ;
    assert(half >= 0) by (nonlinear_arith)
        requires
            half == if k % 2 == 0 {
                q * (k - 1)
            } else {
                k * q
            },
            q >= 0,
            k >= 0,
            k % 2 == 0 ==> k == 2 * q,
    ;
}

/// A node with fewer than two neighbors has a local clustering coefficient of
/// exactly 0: no pair, and nothing closed.
pub proof fn lemma_coefficient_of_few_neighbors(
    rows: Map<usize, Map<usize, usize>>,
    v: usize,
    c: Coefficient,
)
    requires
        neighbors(rows, v).finite(),
        degree(rows, v) < 2,
        is_coefficient_of(rows, v, c),
    ensures
        c.closed == 0,
        c.pairs == 0,
{
    lemma_closed_pairs_bound(rows, v);
    lemma_pair_count_doubled(degree(rows, v));
    assert(degree(rows, v) * (degree(rows, v) - 1) == 0) by (nonlinear_arith)
        requires
            0 <= degree(rows, v) < 2,
    ;
}

/// A node whose neighbors are all connected with each other has a local
/// clustering coefficient of exactly 1: every pair of neighbors is closed.
pub proof fn lemma_coefficient_of_complete_neighbors(
    rows: Map<usize, Map<usize, usize>>,
    v: usize,
    c: Coefficient,
)
    requires
        neighbors(rows, v).finite(),
        degree(rows, v) >= 2,
        complete_around(rows, v),
        is_coefficient_of(rows, v, c),
    ensures
        c.closed == c.pairs,
        c.pairs > 0,
{
    let around = neighbors(rows, v);
    assert forall|a: usize| #[trigger] around.contains(a) implies out_count(around, closing(rows))(
        a,
    ) == out_count(around, below())(a) by {
        assert(around.filter(targets(closing(rows), a)) =~= around.filter(targets(below(), a)));
    }
    lemma_set_sum_same(around, out_count(around, closing(rows)), out_count(around, below()));
    lemma_pairs_above(around);
    lemma_pair_count_doubled(around.len());
    assert(around.len() * (around.len() - 1) > 0) by (nonlinear_arith)
        requires
            around.len() >= 2,
    ;
}

/// Where adjacency among the neighbors of a node is symmetric and none of them
/// is its own neighbor, the closed two-hop walks at the node are exactly twice
/// the closed pairs among its neighbors: each triangle at the node is walked
/// in both directions.
pub proof fn lemma_walks_are_twice_the_pairs(rows: Map<usize, Map<usize, usize>>, v: usize)
    requires
        neighbors(rows, v).finite(),
        symmetric_around(rows, v),
        loop_free_around(rows, v),
    ensures
        closed_walks(rows, v) == 2 * closed_pairs(rows, v),
{
    let around = neighbors(rows, v);
    let up = out_count(around, closing(rows));
    let down = in_count(around, closing(rows));
    assert forall|u: usize| #[trigger] around.contains(u) implies shared_fn(rows, v)(u) == up(u)
        + down(u) by {
        let all = neighbors(rows, u).intersect(around);
        let above = around.filter(targets(closing(rows), u));
        let under = around.filter(sources(closing(rows), u));
        lemma_filter_len(around, targets(closing(rows), u));
        lemma_filter_len(around, sources(closing(rows), u));
        assert(above.disjoint(under));
        vstd::set_lib::lemma_set_disjoint_lens(above, under);
        assert forall|w: usize| all.contains(w) <==> (above + under).contains(w) by {
            if all.contains(w) {
                assert(adjacent(rows, u, w));
                assert(!adjacent(rows, u, u));
                if w < u {
                    assert(adjacent(rows, w, u));
                }
            }
            if under.contains(w) {
                assert(adjacent(rows, w, u));
            }
        }
        assert(all =~= above + under);
    }
    lemma_set_sum_add(around, shared_fn(rows, v), up, down);
    lemma_double_count(around, closing(rows));
}

} // verus!
