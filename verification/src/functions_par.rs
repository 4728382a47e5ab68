//! The statistics, computed on the worker pool.
//!
//! The per-node numbers are computed by the workers, each node on whatever
//! worker takes it, and reduced by a parallel sum or maximum, or by merging
//! per-node histograms. Every function here returns what its sequential
//! counterpart returns.

use crate::buckets::DegreeBucket;
use crate::finite::equals;
use crate::finite::histogram;
use crate::finite::holds_counts;
use crate::finite::is_max_in;
use crate::finite::is_max_of;
use crate::finite::lemma_histogram_of_values;
use crate::finite::lemma_listing_len;
use crate::finite::lemma_max_of_values;
use crate::finite::lemma_prefix_count_bound;
use crate::finite::lemma_prefix_count_positive;
use crate::finite::occurrences;
use crate::finite::prefix_count;
use crate::finite::prefix_sum;
use crate::finite::values_of;
use crate::functions::closed_walks_at;
use crate::functions::coefficient_distribution;
use crate::functions::degree_of;
use crate::functions::exceeds;
use crate::functions::get_cl_coef;
use crate::functions::is_average;
use crate::functions::is_average_walks;
use crate::functions::is_coefficient_distribution;
use crate::functions::is_max_walks;
use crate::functions::is_walk_distribution;
use crate::functions::lemma_values_fit;
use crate::functions::lemma_words_fit;
use crate::model::closed_pairs;
use crate::model::closed_pairs_fn;
use crate::model::closed_walks;
use crate::model::closed_walks_fn;
use crate::model::degree;
use crate::model::degree_fn;
use crate::model::is_coefficient_of;
use crate::model::total_degree;
use crate::model::Average;
use crate::model::Coefficient;
use crate::model::StatsError;
use crate::parallel::par_map;
use crate::parallel::par_max;
use crate::parallel::par_sum;
use crate::parallel::prefix_total;
use crate::parallel::total;
use crate::table::graph_par_keys;
use crate::table::graph_len;
use crate::table::graph_rows;
use crate::table::lists;
use crate::table::row_entries;
use crate::table::row_get;
use crate::table::row_keys;
use crate::table::row_new;
use crate::table::row_slot;
use crate::table::value_or;
use crate::table::Graph;
use crate::table::Row;
use vstd::prelude::*;

verus! {

/// Key by key, the sum of the counts of two tables.
pub open spec fn merged(a: Map<usize, usize>, b: Map<usize, usize>) -> Map<usize, nat> {
    Map::new(
        |k: usize| a.dom().contains(k) || b.dom().contains(k),
        |k: usize| (value_or(a, k, 0) + value_or(b, k, 0)) as nat,
    )
}

/// Some count of the merged table does not fit in `usize`.
pub open spec fn merge_overflows(a: Map<usize, usize>, b: Map<usize, usize>) -> bool {
    exists|k: usize| #[trigger] b.dom().contains(k) && value_or(a, k, 0) + b[k] > usize::MAX
}

/// Histogram union: adds the counts of `part` to those of `total`, key by
/// key. Returns whether every sum fits in `usize`; where one does not, `total`
/// is left with some of the counts added.
pub fn merge_counts(total: &mut Row, part: &Row) -> (fits: bool)
    ensures
        fits == !merge_overflows(row_entries(*old(total)), row_entries(*part)),
        fits ==> holds_counts(
            row_entries(*final(total)),
            merged(row_entries(*old(total)), row_entries(*part)),
        ),
{
    let keys = row_keys(part);
    let n = keys.len();
    let ghost before = row_entries(*total);
    let ghost added = row_entries(*part);
    for i in 0..n
        invariant
            n == keys@.len(),
            lists(keys@, added.dom()),
            added == row_entries(*part),
            before == row_entries(*old(total)),
            forall|j: int| 0 <= j < i ==> value_or(before, #[trigger] keys@[j], 0) + added[keys@[j]]
                <= usize::MAX,
            forall|k: usize|
                row_entries(*total).dom().contains(k) <==> before.dom().contains(k) || exists|
                    j: int,
                | 0 <= j < i && #[trigger] keys@[j] == k,
            forall|k: usize| #[trigger]
                row_entries(*total).dom().contains(k) ==> row_entries(*total)[k] == if exists|
                    j: int,
                | 0 <= j < i && #[trigger] keys@[j] == k {
                    value_or(before, k, 0) + added[k]
                } else {
                    before[k] as int
                },
    {
        let key = keys[i];
        assert(keys@.to_set().contains(key));
        let ghost held = row_entries(*total);
        assert(!(exists|j: int| 0 <= j < i && #[trigger] keys@[j] == key));
        assert(value_or(held, key, 0) == value_or(before, key, 0));
        match row_get(part, key) {
            None => {
                assert(false);
            },
            Some(count) => {
                let slot = row_slot(total, key, 0);
                match (*slot).checked_add(count) {
                    None => {
                        assert(merge_overflows(before, added));
                        return false;
                    },
                    Some(sum) => {
                        *slot = sum;
                    },
                }
                proof {
                    assert(row_entries(*total) == held.insert(
                        key,
                        (value_or(before, key, 0) + added[key]) as usize,
                    ));
                    assert forall|k: usize|
                        row_entries(*total).dom().contains(k) <==> before.dom().contains(k)
                            || exists|j: int| 0 <= j < i + 1 && #[trigger] keys@[j] == k by {
                        if held.dom().contains(k) && !before.dom().contains(k) {
                            let j = choose|j: int| 0 <= j < i && #[trigger] keys@[j] == k;
                            assert(0 <= j < i + 1 && keys@[j] == k);
                        }
                    }
                    assert forall|k: usize| #[trigger]
                        row_entries(*total).dom().contains(k) implies row_entries(*total)[k]
                        == if exists|j: int| 0 <= j < i + 1 && #[trigger] keys@[j] == k {
                        value_or(before, k, 0) + added[k]
                    } else {
                        before[k] as int
                    } by {
                        if k != key {
                            if exists|j: int| 0 <= j < i + 1 && #[trigger] keys@[j] == k {
                                let j = choose|j: int| 0 <= j < i + 1 && #[trigger] keys@[j] == k;
                                assert(0 <= j < i && keys@[j] == k);
                            }
                            if exists|j: int| 0 <= j < i && #[trigger] keys@[j] == k {
                                let j = choose|j: int| 0 <= j < i && #[trigger] keys@[j] == k;
                                assert(0 <= j < i + 1 && keys@[j] == k);
                            }
                        } else {
                            assert(0 <= i < i + 1 && keys@[i as int] == k);
                        }
                    }
                }
            },
        }
    }
    proof {
        let held = row_entries(*total);
        let want = merged(before, added);
        assert forall|k: usize| added.dom().contains(k) <==> exists|j: int|
            0 <= j < n && #[trigger] keys@[j] == k by {
            if added.dom().contains(k) {
                assert(keys@.to_set().contains(k));
                let j = choose|j: int| 0 <= j < keys@.len() && keys@[j] == k;
                assert(0 <= j < n && keys@[j] == k);
            }
            if exists|j: int| 0 <= j < n && #[trigger] keys@[j] == k {
                let j = choose|j: int| 0 <= j < n && #[trigger] keys@[j] == k;
                assert(keys@.to_set().contains(keys@[j]));
            }
        }
        assert(held.dom() =~= want.dom());
        assert(!merge_overflows(before, added)) by {
            if merge_overflows(before, added) {
                let k = choose|k: usize| #[trigger]
                    added.dom().contains(k) && value_or(before, k, 0) + added[k] > usize::MAX;
                let j = choose|j: int| 0 <= j < n && #[trigger] keys@[j] == k;
                assert(value_or(before, keys@[j], 0) + added[keys@[j]] <= usize::MAX);
            }
        }
    }
    true
}

/// The degree of each of `nodes`, in their order, computed by the workers.
pub fn par_node_degrees(g: &Graph, nodes: &Vec<usize>) -> (values: Vec<usize>)
    ensures
        values_of(nodes@, degree_fn(graph_rows(*g)), values@),
{
    let degree_at = |v: usize| -> (d: usize)
        ensures
            d == degree(graph_rows(*g), v),
        { degree_of(g, v) };
    par_map(nodes, degree_at)
}

/// The closed two-hop walks at each of `nodes`, in their order, computed by
/// the workers, or `None` where the number of one of them does not fit in
/// `usize`.
pub fn par_node_closed_walks(g: &Graph, nodes: &Vec<usize>) -> (found: Option<Vec<usize>>)
    ensures
        match found {
            Some(values) => values_of(nodes@, closed_walks_fn(graph_rows(*g)), values@),
            None => exceeds(nodes@.to_set(), closed_walks_fn(graph_rows(*g))),
        },
{
    let walks_at = |v: usize| -> (w: Option<usize>)
        ensures
            match w {
                Some(c) => c == closed_walks(graph_rows(*g), v),
                None => closed_walks(graph_rows(*g), v) > usize::MAX,
            },
        { closed_walks_at(g, v) };
    let each = par_map(nodes, walks_at);
    let n = nodes.len();
    let mut values: Vec<usize> = Vec::new();
    for i in 0..n
        invariant
            n == nodes@.len(),
            n == each@.len(),
            forall|j: int|
                0 <= j < n ==> match #[trigger] each@[j] {
                    Some(c) => c == closed_walks(graph_rows(*g), nodes@[j]),
                    None => closed_walks(graph_rows(*g), nodes@[j]) > usize::MAX,
                },
            values@.len() == i,
            forall|j: int|
                0 <= j < i ==> #[trigger] values@[j] == closed_walks(graph_rows(*g), nodes@[j]),
    {
        match each[i] {
            Some(c) => {
                values.push(c);
            },
            None => {
                assert(nodes@.to_set().contains(nodes@[i as int]));
                return None;
            },
        }
    }
    Some(values)
}

/// The closed pairs among the neighbors of each of `nodes`, in their order,
/// computed by the workers, or `None` where the number of one of them does
/// not fit in `usize`.
pub fn par_node_closed_pairs(g: &Graph, nodes: &Vec<usize>) -> (found: Option<Vec<usize>>)
    ensures
        match found {
            Some(values) => values_of(nodes@, closed_pairs_fn(graph_rows(*g)), values@),
            None => exceeds(nodes@.to_set(), closed_pairs_fn(graph_rows(*g))),
        },
{
    let coefficient_at = |v: usize| -> (c: Coefficient)
        ensures
            is_coefficient_of(graph_rows(*g), v, c),
        { get_cl_coef(g, v) };
    let each = par_map(nodes, coefficient_at);
    let n = nodes.len();
    let mut values: Vec<usize> = Vec::new();
    for i in 0..n
        invariant
            n == nodes@.len(),
            n == each@.len(),
            forall|j: int|
                0 <= j < n ==> is_coefficient_of(graph_rows(*g), nodes@[j], #[trigger] each@[j]),
            values@.len() == i,
            forall|j: int|
                0 <= j < i ==> #[trigger] values@[j] == closed_pairs(graph_rows(*g), nodes@[j]),
    {
        let c = each[i];
        if c.closed > usize::MAX as u128 {
            assert(nodes@.to_set().contains(nodes@[i as int]));
            return None;
        }
        values.push(c.closed as usize);
    }
    Some(values)
}

/// The sum of `values`, added up by the workers.
pub fn par_sum_values(values: &Vec<usize>) -> (sum: u128)
    ensures
        sum == crate::finite::sum_of(values@),
{
    let n = values.len();
    let mut wide: Vec<u128> = Vec::new();
    for i in 0..n
        invariant
            n == values@.len(),
            wide@.len() == i,
            forall|j: int| 0 <= j < i ==> #[trigger] wide@[j] == values@[j],
            prefix_total(wide@, i as int) == prefix_sum(values@, crate::finite::itself(), i as int),
            prefix_total(wide@, i as int) <= i * usize::MAX,
    {
        proof {
            lemma_words_fit(i as nat, n as nat);
            lemma_prefix_total_agree(wide@, wide@.push(values@[i as int] as u128), i as int);
        }
        wide.push(values[i] as u128);
    }
    proof {
        lemma_words_fit(n as nat, n as nat);
    }
    par_sum(&wide)
}

/// A prefix total reads only the prefix.
pub proof fn lemma_prefix_total_agree(a: Seq<u128>, b: Seq<u128>, n: int)
    requires
        forall|i: int| 0 <= i < n ==> a[i] == b[i],
    ensures
        prefix_total(a, n) == prefix_total(b, n),
    decreases n,
{
    if n > 0 {
        lemma_prefix_total_agree(a, b, n - 1);
    }
}

/// The largest of `values`, 0 where there is none, found by the workers.
pub fn par_max_value(values: &Vec<usize>) -> (max: usize)
    ensures
        is_max_in(values@, max),
{
    match par_max(values) {
        Some(m) => m,
        None => 0,
    }
}

/// A table from each of `values` to the number of times it occurs, merged
/// from one table for each value.
pub fn par_tally(values: &Vec<usize>) -> (counts: Row)
    ensures
        holds_counts(row_entries(counts), occurrences(values@)),
{
    let single = |value: usize| -> (local: Row)
        ensures
            row_entries(local) == Map::<usize, usize>::empty().insert(value, 1),
        {
            let mut local = row_new();
            let slot = row_slot(&mut local, value, 0);
            *slot = 1;
            assert(row_entries(local) =~= Map::<usize, usize>::empty().insert(value, 1));
            local
        };
    let locals = par_map(values, single);
    let n = values.len();
    let mut counts = row_new();
    for i in 0..n
        invariant
            n == values@.len(),
            n == locals@.len(),
            forall|j: int|
                0 <= j < n ==> row_entries(#[trigger] locals@[j]) == Map::<usize, usize>::empty().insert(
                    values@[j],
                    1,
                ),
            forall|d: usize|
                row_entries(counts).dom().contains(d) <==> prefix_count(
                    values@,
                    equals(d),
                    i as int,
                ) > 0,
            forall|d: usize| #[trigger]
                row_entries(counts).dom().contains(d) ==> row_entries(counts)[d] == prefix_count(
                    values@,
                    equals(d),
                    i as int,
                ),
    {
        let ghost before = row_entries(counts);
        let ghost local = row_entries(locals@[i as int]);
        let ghost key = values@[i as int];
        proof {
            lemma_prefix_count_bound(values@, equals(key), i as int);
            assert(!merge_overflows(before, local)) by {
                if merge_overflows(before, local) {
                    let k = choose|k: usize| #[trigger]
                        local.dom().contains(k) && value_or(before, k, 0) + local[k] > usize::MAX;
                    assert(k == key);
                }
            }
        }
        let fits = merge_counts(&mut counts, &locals[i]);
        proof {
            let after = row_entries(counts);
            assert forall|d: usize|
                after.dom().contains(d) <==> prefix_count(values@, equals(d), i + 1) > 0 by {
                assert(merged(before, local).dom().contains(d) <==> before.dom().contains(d)
                    || d == key);
                lemma_prefix_count_bound(values@, equals(d), i as int);
            }
            assert forall|d: usize| #[trigger] after.dom().contains(d) implies after[d]
                == prefix_count(values@, equals(d), i + 1) by {
                assert(merged(before, local).dom().contains(d));
                assert(after[d] == merged(before, local)[d]);
                lemma_prefix_count_bound(values@, equals(d), i as int);
            }
        }
    }
    proof {
        let held = row_entries(counts);
        let want = occurrences(values@);
        assert forall|d: usize| held.dom().contains(d) <==> want.dom().contains(d) by {
            lemma_prefix_count_positive(values@, equals(d), n as int);
            if values@.contains(d) {
                let i = choose|i: int| 0 <= i < values@.len() && values@[i] == d;
                assert(equals(d)(values@[i]));
            }
        }
        assert(held.dom() =~= want.dom());
    }
    counts
}

/// The average degree, computed on the worker pool.
pub fn get_avg_dg_par(sparse_matrix: &Graph) -> (avg: Result<Average, StatsError>)
    ensures
        graph_rows(*sparse_matrix).dom().finite(),
        is_average(
            avg,
            total_degree(graph_rows(*sparse_matrix)),
            graph_rows(*sparse_matrix).dom().len(),
        ),
{
    let nodes = graph_par_keys(sparse_matrix);
    let values = par_node_degrees(sparse_matrix, &nodes);
    proof {
        let rows = graph_rows(*sparse_matrix);
        lemma_listing_len(nodes@, rows.dom());
        crate::finite::lemma_sum_of_values(nodes@, rows.dom(), degree_fn(rows), values@);
    }
    let count = graph_len(sparse_matrix);
    if count == 0 {
        Err(StatsError::EmptyGraph)
    } else {
        Ok(Average { sum: par_sum_values(&values), count })
    }
}

/// The largest degree of any node, 0 for a graph without nodes, computed on
/// the worker pool.
pub fn get_max_dg_par(sparse_matrix: &Graph) -> (max: usize)
    ensures
        is_max_of(
            graph_rows(*sparse_matrix).dom(),
            degree_fn(graph_rows(*sparse_matrix)),
            max as nat,
        ),
{
    let nodes = graph_par_keys(sparse_matrix);
    let values = par_node_degrees(sparse_matrix, &nodes);
    let max = par_max_value(&values);
    proof {
        let rows = graph_rows(*sparse_matrix);
        lemma_max_of_values(nodes@, rows.dom(), degree_fn(rows), values@, max);
    }
    max
}

/// The degree distribution, computed on the worker pool.
pub fn get_dg_dis_par(sparse_matrix: &Graph) -> (degree_distribution: Row)
    ensures
        holds_counts(
            row_entries(degree_distribution),
            histogram(graph_rows(*sparse_matrix).dom(), degree_fn(graph_rows(*sparse_matrix))),
        ),
{
    let nodes = graph_par_keys(sparse_matrix);
    let values = par_node_degrees(sparse_matrix, &nodes);
    proof {
        let rows = graph_rows(*sparse_matrix);
        lemma_histogram_of_values(nodes@, rows.dom(), degree_fn(rows), values@);
    }
    par_tally(&values)
}

/// The average number of common neighbors, computed on the worker pool.
pub fn get_avg_cm_nb_par(sparse_matrix: &Graph) -> (avg: Result<Average, StatsError>)
    ensures
        graph_rows(*sparse_matrix).dom().finite(),
        is_average_walks(graph_rows(*sparse_matrix), avg),
{
    let nodes = graph_par_keys(sparse_matrix);
    proof {
        lemma_listing_len(nodes@, graph_rows(*sparse_matrix).dom());
    }
    match par_node_closed_walks(sparse_matrix, &nodes) {
        None => Err(StatsError::Overflow),
        Some(values) => {
            proof {
                let rows = graph_rows(*sparse_matrix);
                lemma_values_fit(nodes@, rows.dom(), closed_walks_fn(rows), values@);
                crate::finite::lemma_sum_of_values(
                    nodes@,
                    rows.dom(),
                    closed_walks_fn(rows),
                    values@,
                );
            }
            let count = graph_len(sparse_matrix);
            if count == 0 {
                Err(StatsError::EmptyGraph)
            } else {
                Ok(Average { sum: par_sum_values(&values), count })
            }
        },
    }
}

/// The clustering effect, computed on the worker pool. It counts what
/// `get_avg_cm_nb_par` counts, and is computed by it.
pub fn get_cl_ef_par(sparse_matrix: &Graph) -> (avg: Result<Average, StatsError>)
    ensures
        graph_rows(*sparse_matrix).dom().finite(),
        is_average_walks(graph_rows(*sparse_matrix), avg),
{
    get_avg_cm_nb_par(sparse_matrix)
}

/// The largest number of common neighbors, computed on the worker pool.
pub fn get_max_cm_ng_par(sparse_matrix: &Graph) -> (max: Result<usize, StatsError>)
    ensures
        is_max_walks(graph_rows(*sparse_matrix), max),
{
    let nodes = graph_par_keys(sparse_matrix);
    match par_node_closed_walks(sparse_matrix, &nodes) {
        None => Err(StatsError::Overflow),
        Some(values) => {
            let max = par_max_value(&values);
            proof {
                let rows = graph_rows(*sparse_matrix);
                lemma_values_fit(nodes@, rows.dom(), closed_walks_fn(rows), values@);
                lemma_max_of_values(nodes@, rows.dom(), closed_walks_fn(rows), values@, max);
            }
            Ok(max)
        },
    }
}

/// The clustering distribution, computed on the worker pool: the workers
/// count the closed two-hop walks of each node, and the per-node histograms
/// are merged at the end.
pub fn get_cl_ds_par(sparse_matrix: &Graph) -> (clustering_distribution: Result<Row, StatsError>)
    ensures
        is_walk_distribution(graph_rows(*sparse_matrix), clustering_distribution),
{
    let nodes = graph_par_keys(sparse_matrix);
    match par_node_closed_walks(sparse_matrix, &nodes) {
        None => Err(StatsError::Overflow),
        Some(values) => {
            proof {
                let rows = graph_rows(*sparse_matrix);
                lemma_values_fit(nodes@, rows.dom(), closed_walks_fn(rows), values@);
                lemma_histogram_of_values(nodes@, rows.dom(), closed_walks_fn(rows), values@);
            }
            Ok(par_tally(&values))
        },
    }
}

/// The clustering coefficient distribution, computed on the worker pool: the
/// workers compute the local coefficient of each node, and the coefficients
/// are bucketed by degree at the end.
pub fn get_cl_ef_dis_par(sparse_matrix: &Graph) -> (distribution: Result<
    Vec<DegreeBucket>,
    StatsError,
>)
    ensures
        is_coefficient_distribution(graph_rows(*sparse_matrix), distribution),
{
    let nodes = graph_par_keys(sparse_matrix);
    let degrees = par_node_degrees(sparse_matrix, &nodes);
    let closed = par_node_closed_pairs(sparse_matrix, &nodes);
    coefficient_distribution(sparse_matrix, &nodes, &degrees, closed)
}

} // verus!
