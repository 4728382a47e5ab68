//! The statistics, computed by one thread.
//!
//! Each statistic takes one number per node (its degree, its closed two-hop
//! walks) and reduces the numbers to a sum with a count, a maximum or a
//! histogram.

use crate::buckets::bucket_sums;
use crate::buckets::is_grouping;
use crate::buckets::lemma_grouping_of_entries;
use crate::buckets::DegreeBucket;
use crate::finite::equals;
use crate::finite::histogram;
use crate::finite::holds_counts;
use crate::finite::is_max_in;
use crate::finite::is_max_of;
use crate::finite::itself;
use crate::finite::lemma_count_of_listing;
use crate::finite::lemma_histogram_of_values;
use crate::finite::lemma_listing_len;
use crate::finite::lemma_max_of_values;
use crate::finite::lemma_prefix_count_bound;
use crate::finite::lemma_prefix_count_positive;
use crate::finite::lemma_sum_of_listing;
use crate::finite::lemma_sum_of_values;
use crate::finite::member_of;
use crate::finite::occurrences;
use crate::finite::out_count;
use crate::finite::prefix_count;
use crate::finite::prefix_sum;
use crate::finite::set_sum;
use crate::finite::sum_of;
use crate::finite::targets;
use crate::finite::values_of;
use crate::model::closed_pairs;
use crate::model::closed_pairs_fn;
use crate::model::closed_walks;
use crate::model::closing;
use crate::model::closed_walks_fn;
use crate::model::degree;
use crate::model::degree_fn;
use crate::model::is_coefficient_of;
use crate::model::lemma_closed_pairs_bound;
use crate::model::lemma_pair_count_doubled;
use crate::model::neighbors;
use crate::model::shared_fn;
use crate::model::total_degree;
use crate::model::Average;
use crate::model::Coefficient;
use crate::model::StatsError;
use crate::table::graph_get;
use crate::table::graph_keys;
use crate::table::graph_len;
use crate::table::graph_rows;
use crate::table::lists;
use crate::table::row_contains;
use crate::table::row_entries;
use crate::table::row_keys;
use crate::table::row_len;
use crate::table::row_new;
use crate::table::row_slot;
use crate::table::value_or;
use crate::table::Graph;
use crate::table::Row;
use vstd::prelude::*;

verus! {

/// `avg` is the average of `count` items that sum to `sum`: an error where
/// there is no item.
pub open spec fn is_average(avg: Result<Average, StatsError>, sum: nat, count: nat) -> bool {
    if count == 0 {
        avg == Err::<Average, StatsError>(StatsError::EmptyGraph)
    } else {
        avg matches Ok(a) && a.sum == sum && a.count == count
    }
}

/// An average is fixed by the sum and the count that it is taken of: the
/// thread and the worker pool, which both return the average of one sum and
/// one count, return the same.
pub proof fn lemma_average_is_unique(
    a: Result<Average, StatsError>,
    b: Result<Average, StatsError>,
    sum: nat,
    count: nat,
)
    requires
        is_average(a, sum, count),
        is_average(b, sum, count),
    ensures
        a == b,
{
}

/// Some element's value of `f` does not fit in `usize`.
pub open spec fn exceeds(set: Set<usize>, f: spec_fn(usize) -> nat) -> bool {
    exists|x: usize| #[trigger] set.contains(x) && f(x) > usize::MAX
}

/// A product of two machine words fits in 128 bits, with a word to spare.
pub proof fn lemma_words_fit(i: nat, k: nat)
    requires
        i <= k,
        k <= usize::MAX,
    ensures
        i * usize::MAX <= k * usize::MAX,
        k * usize::MAX + usize::MAX <= u128::MAX,
        (i + 1) * usize::MAX == i * usize::MAX + usize::MAX,
{
    assert(usize::MAX <= 0xffff_ffff_ffff_ffff);
    assert(i * usize::MAX <= k * usize::MAX) by (nonlinear_arith)
        requires
            i <= k,
    ;
    assert(k * usize::MAX <= 0xffff_ffff_ffff_ffff * 0xffff_ffff_ffff_ffff) by (nonlinear_arith)
        requires
            k <= 0xffff_ffff_ffff_ffff,
            usize::MAX <= 0xffff_ffff_ffff_ffff,
    ;
    assert((i + 1) * usize::MAX == i * usize::MAX + usize::MAX) by (nonlinear_arith);
}

/// The degree of `node`: the size of its row, 0 where it has none.
pub fn degree_of(g: &Graph, node: usize) -> (d: usize)
    ensures
        d == degree(graph_rows(*g), node),
{
    match graph_get(g, node) {
        Some(row) => row_len(row),
        None => 0,
    }
}

/// How many neighbors of `u` are keys of `row`.
pub fn shared_neighbors(g: &Graph, row: &Row, u: usize) -> (c: usize)
    ensures
        c == neighbors(graph_rows(*g), u).intersect(row_entries(*row).dom()).len(),
{
    match graph_get(g, u) {
        None => {
            assert(neighbors(graph_rows(*g), u).intersect(row_entries(*row).dom())
                =~= Set::<usize>::empty());
            0
        },
        Some(urow) => {
            let ws = row_keys(urow);
            let n = ws.len();
            let mut c: usize = 0;
            for j in 0..n
                invariant
                    n == ws@.len(),
                    c == prefix_count(ws@, member_of(row_entries(*row).dom()), j as int),
                    c <= j,
            {
                if row_contains(row, ws[j]) {
                    c = c + 1;
                }
            }
            proof {
                let from = neighbors(graph_rows(*g), u);
                let inside = member_of(row_entries(*row).dom());
                lemma_count_of_listing(ws@, from, inside);
                assert(from.filter(inside) =~= from.intersect(row_entries(*row).dom()));
            }
            c
        },
    }
}

/// The closed two-hop walks at `node`, or `None` where their number does not
/// fit in `usize`.
pub fn closed_walks_at(g: &Graph, node: usize) -> (walks: Option<usize>)
    ensures
        match walks {
            Some(c) => c == closed_walks(graph_rows(*g), node),
            None => closed_walks(graph_rows(*g), node) > usize::MAX,
        },
{
    match graph_get(g, node) {
        None => {
            assert(closed_walks(graph_rows(*g), node) == 0);
            Some(0)
        },
        Some(row) => {
            let us = row_keys(row);
            let k = us.len();
            let mut count: u128 = 0;
            for i in 0..k
                invariant
                    k == us@.len(),
                    row_entries(*row) == graph_rows(*g)[node],
                    graph_rows(*g).dom().contains(node),
                    count == prefix_sum(us@, shared_fn(graph_rows(*g), node), i as int),
                    count <= i * usize::MAX,
            {
                let c = shared_neighbors(g, row, us[i]);
                proof {
                    lemma_words_fit(i as nat, k as nat);
                }
                count = count + c as u128;
            }
            proof {
                lemma_sum_of_listing(
                    us@,
                    neighbors(graph_rows(*g), node),
                    shared_fn(graph_rows(*g), node),
                );
            }
            if count > usize::MAX as u128 {
                None
            } else {
                Some(count as usize)
            }
        },
    }
}

/// The degree of each of `nodes`, in their order.
pub fn node_degrees(g: &Graph, nodes: &Vec<usize>) -> (values: Vec<usize>)
    ensures
        values_of(nodes@, degree_fn(graph_rows(*g)), values@),
{
    let n = nodes.len();
    let mut values: Vec<usize> = Vec::new();
    for i in 0..n
        invariant
            n == nodes@.len(),
            values@.len() == i,
            forall|j: int| 0 <= j < i ==> #[trigger] values@[j] == degree(graph_rows(*g), nodes@[j]),
    {
        let d = degree_of(g, nodes[i]);
        values.push(d);
    }
    values
}

/// The closed two-hop walks at each of `nodes`, in their order, or `None`
/// where the number of one of them does not fit in `usize`.
pub fn node_closed_walks(g: &Graph, nodes: &Vec<usize>) -> (found: Option<Vec<usize>>)
    ensures
        match found {
            Some(values) => values_of(nodes@, closed_walks_fn(graph_rows(*g)), values@),
            None => exceeds(nodes@.to_set(), closed_walks_fn(graph_rows(*g))),
        },
{
    let n = nodes.len();
    let mut values: Vec<usize> = Vec::new();
    for i in 0..n
        invariant
            n == nodes@.len(),
            values@.len() == i,
            forall|j: int|
                0 <= j < i ==> #[trigger] values@[j] == closed_walks(graph_rows(*g), nodes@[j]),
    {
        match closed_walks_at(g, nodes[i]) {
            Some(c) => {
                values.push(c);
            },
            None => {
                assert(nodes@.to_set().contains(nodes@[i as int]));
                return None;
            },
        }
    }
    Some(values)
}

/// The sum of `values`.
pub fn sum_values(values: &Vec<usize>) -> (sum: u128)
    ensures
        sum == sum_of(values@),
{
    let n = values.len();
    let mut sum: u128 = 0;
    for i in 0..n
        invariant
            n == values@.len(),
            sum == prefix_sum(values@, itself(), i as int),
            sum <= i * usize::MAX,
    {
        proof {
            lemma_words_fit(i as nat, n as nat);
        }
        sum = sum + values[i] as u128;
    }
    sum
}

/// The largest of `values`, 0 where there is none.
pub fn max_value(values: &Vec<usize>) -> (max: usize)
    ensures
        is_max_in(values@, max),
{
    let n = values.len();
    let mut max: usize = 0;
    for i in 0..n
        invariant
            n == values@.len(),
            forall|j: int| 0 <= j < i ==> #[trigger] values@[j] <= max,
            if i == 0 {
                max == 0
            } else {
                exists|j: int| 0 <= j < i && values@[j] == max
            },
    {
        if values[i] > max {
            max = values[i];
        } else if i > 0 {
            let ghost w = choose|j: int| 0 <= j < i && values@[j] == max;
            assert(0 <= w < i + 1 && values@[w] == max);
        } else {
            assert(values@[0] == max);
        }
    }
    max
}

/// A table from each of `values` to the number of times it occurs.
pub fn tally(values: &Vec<usize>) -> (counts: Row)
    ensures
        holds_counts(row_entries(counts), occurrences(values@)),
{
    let n = values.len();
    let mut counts = row_new();
    for i in 0..n
        invariant
            n == values@.len(),
            forall|d: usize|
                row_entries(counts).dom().contains(d) <==> prefix_count(
                    values@,
                    equals(d),
                    i as int,
                ) > 0,
            forall|d: usize| #[trigger]
                row_entries(counts).dom().contains(d) ==> row_entries(counts)[d] == prefix_count(
                    values@,
                    equals(d),
                    i as int,
                ),
    {
        let key = values[i];
        let ghost before = row_entries(counts);
        proof {
            lemma_prefix_count_bound(values@, equals(key), i as int);
        }
        let slot = row_slot(&mut counts, key, 0);
        *slot = *slot + 1;
        proof {
            assert(row_entries(counts) == before.insert(
                key,
                (value_or(before, key, 0) + 1) as usize,
            ));
            assert forall|d: usize|
                row_entries(counts).dom().contains(d) <==> prefix_count(
                    values@,
                    equals(d),
                    i + 1,
                ) > 0 by {
                lemma_prefix_count_bound(values@, equals(d), i as int);
            }
        }
    }
    proof {
        let held = row_entries(counts);
        let want = occurrences(values@);
        assert forall|d: usize| held.dom().contains(d) <==> want.dom().contains(d) by {
            lemma_prefix_count_positive(values@, equals(d), n as int);
            if values@.contains(d) {
                let i = choose|i: int| 0 <= i < values@.len() && values@[i] == d;
                assert(equals(d)(values@[i]));
            }
        }
        assert(held.dom() =~= want.dom());
    }
    counts
}

/// The average degree: the sum of all degrees over the number of nodes.
pub fn get_avg_dg(sparse_matrix: &Graph) -> (avg: Result<Average, StatsError>)
    ensures
        graph_rows(*sparse_matrix).dom().finite(),
        is_average(
            avg,
            total_degree(graph_rows(*sparse_matrix)),
            graph_rows(*sparse_matrix).dom().len(),
        ),
{
    let nodes = graph_keys(sparse_matrix);
    let values = node_degrees(sparse_matrix, &nodes);
    proof {
        let rows = graph_rows(*sparse_matrix);
        lemma_listing_len(nodes@, rows.dom());
        lemma_sum_of_values(nodes@, rows.dom(), degree_fn(rows), values@);
    }
    let count = graph_len(sparse_matrix);
    if count == 0 {
        Err(StatsError::EmptyGraph)
    } else {
        Ok(Average { sum: sum_values(&values), count })
    }
}

/// The largest degree of any node, 0 for a graph without nodes.
pub fn get_max_dg(sparse_matrix: &Graph) -> (max: usize)
    ensures
        is_max_of(
            graph_rows(*sparse_matrix).dom(),
            degree_fn(graph_rows(*sparse_matrix)),
            max as nat,
        ),
{
    let nodes = graph_keys(sparse_matrix);
    let values = node_degrees(sparse_matrix, &nodes);
    let max = max_value(&values);
    proof {
        let rows = graph_rows(*sparse_matrix);
        lemma_max_of_values(nodes@, rows.dom(), degree_fn(rows), values@, max);
    }
    max
}

/// The degree distribution: for each degree that occurs, the number of nodes
/// that have it.
pub fn get_dg_dis(sparse_matrix: &Graph) -> (degree_distribution: Row)
    ensures
        holds_counts(
            row_entries(degree_distribution),
            histogram(graph_rows(*sparse_matrix).dom(), degree_fn(graph_rows(*sparse_matrix))),
        ),
{
    let nodes = graph_keys(sparse_matrix);
    let values = node_degrees(sparse_matrix, &nodes);
    proof {
        let rows = graph_rows(*sparse_matrix);
        lemma_histogram_of_values(nodes@, rows.dom(), degree_fn(rows), values@);
    }
    tally(&values)
}

/// `avg` is the average number of closed two-hop walks per node: an error
/// where the count of some node does not fit in `usize`, or where there is no
/// node.
pub open spec fn is_average_walks(
    rows: Map<usize, Map<usize, usize>>,
    avg: Result<Average, StatsError>,
) -> bool {
    if exceeds(rows.dom(), closed_walks_fn(rows)) {
        avg == Err::<Average, StatsError>(StatsError::Overflow)
    } else {
        is_average(avg, set_sum(rows.dom(), closed_walks_fn(rows)), rows.dom().len())
    }
}

/// `max` is the largest number of closed two-hop walks at any node, 0 for a
/// graph without nodes: an error where the count of some node does not fit in
/// `usize`.
pub open spec fn is_max_walks(
    rows: Map<usize, Map<usize, usize>>,
    max: Result<usize, StatsError>,
) -> bool {
    if exceeds(rows.dom(), closed_walks_fn(rows)) {
        max == Err::<usize, StatsError>(StatsError::Overflow)
    } else {
        max matches Ok(m) && is_max_of(rows.dom(), closed_walks_fn(rows), m as nat)
    }
}

/// `dist` is the distribution of closed two-hop walks: for each count that
/// occurs, the number of nodes that have it. It is an error where the count of
/// some node does not fit in `usize`.
pub open spec fn is_walk_distribution(
    rows: Map<usize, Map<usize, usize>>,
    dist: Result<Row, StatsError>,
) -> bool {
    if exceeds(rows.dom(), closed_walks_fn(rows)) {
        dist matches Err(e) && e == StatsError::Overflow
    } else {
        dist matches Ok(h) && holds_counts(
            row_entries(h),
            histogram(rows.dom(), closed_walks_fn(rows)),
        )
    }
}

/// Where every node has its count among `values`, no count exceeds `usize`.
pub proof fn lemma_values_fit(
    order: Seq<usize>,
    set: Set<usize>,
    f: spec_fn(usize) -> nat,
    values: Seq<usize>,
)
    requires
        lists(order, set),
        values_of(order, f, values),
    ensures
        !exceeds(set, f),
{
    assert forall|x: usize| #[trigger] set.contains(x) implies f(x) <= usize::MAX by {
        assert(order.to_set().contains(x));
        let i = choose|i: int| 0 <= i < order.len() && order[i] == x;
        assert(values[i] == f(order[i]));
    }
}

/// The average number of common neighbors: the closed two-hop walks of all
/// nodes over the number of nodes.
pub fn get_avg_cm_nb(sparse_matrix: &Graph) -> (avg: Result<Average, StatsError>)
    ensures
        graph_rows(*sparse_matrix).dom().finite(),
        is_average_walks(graph_rows(*sparse_matrix), avg),
{
    let nodes = graph_keys(sparse_matrix);
    proof {
        lemma_listing_len(nodes@, graph_rows(*sparse_matrix).dom());
    }
    match node_closed_walks(sparse_matrix, &nodes) {
        None => Err(StatsError::Overflow),
        Some(values) => {
            proof {
                let rows = graph_rows(*sparse_matrix);
                lemma_values_fit(nodes@, rows.dom(), closed_walks_fn(rows), values@);
                lemma_sum_of_values(nodes@, rows.dom(), closed_walks_fn(rows), values@);
            }
            let count = graph_len(sparse_matrix);
            if count == 0 {
                Err(StatsError::EmptyGraph)
            } else {
                Ok(Average { sum: sum_values(&values), count })
            }
        },
    }
}

/// The clustering effect. It counts what `get_avg_cm_nb` counts, the closed
/// two-hop walks per node, and is computed by it.
pub fn get_cl_ef(sparse_matrix: &Graph) -> (avg: Result<Average, StatsError>)
    ensures
        graph_rows(*sparse_matrix).dom().finite(),
        is_average_walks(graph_rows(*sparse_matrix), avg),
{
    get_avg_cm_nb(sparse_matrix)
}

/// The largest number of common neighbors: the most closed two-hop walks at
/// any node.
pub fn get_max_cm_ng(sparse_matrix: &Graph) -> (max: Result<usize, StatsError>)
    ensures
        is_max_walks(graph_rows(*sparse_matrix), max),
{
    let nodes = graph_keys(sparse_matrix);
    match node_closed_walks(sparse_matrix, &nodes) {
        None => Err(StatsError::Overflow),
        Some(values) => {
            let max = max_value(&values);
            proof {
                let rows = graph_rows(*sparse_matrix);
                lemma_values_fit(nodes@, rows.dom(), closed_walks_fn(rows), values@);
                lemma_max_of_values(nodes@, rows.dom(), closed_walks_fn(rows), values@, max);
            }
            Ok(max)
        },
    }
}

/// The clustering distribution: for each number of closed two-hop walks that
/// occurs, the number of nodes that have it.
pub fn get_cl_ds(sparse_matrix: &Graph) -> (clustering_distribution: Result<Row, StatsError>)
    ensures
        is_walk_distribution(graph_rows(*sparse_matrix), clustering_distribution),
{
    let nodes = graph_keys(sparse_matrix);
    match node_closed_walks(sparse_matrix, &nodes) {
        None => Err(StatsError::Overflow),
        Some(values) => {
            proof {
                let rows = graph_rows(*sparse_matrix);
                lemma_values_fit(nodes@, rows.dom(), closed_walks_fn(rows), values@);
                lemma_histogram_of_values(nodes@, rows.dom(), closed_walks_fn(rows), values@);
            }
            Ok(tally(&values))
        },
    }
}

/// How many of the keys of `row` are larger than `a` and neighbors of it.
pub(crate) fn closed_with(g: &Graph, row: &Row, order: &Vec<usize>, a: usize) -> (c: usize)
    requires
        lists(order@, row_entries(*row).dom()),
    ensures
        c == out_count(row_entries(*row).dom(), closing(graph_rows(*g)))(a),
{
    let ghost around = row_entries(*row).dom();
    let ghost closes = targets(closing(graph_rows(*g)), a);
    let k = order.len();
    let mut c: usize = 0;
    match graph_get(g, a) {
        None => {
            assert(around.filter(closes) =~= Set::<usize>::empty());
        },
        Some(arow) => {
            for j in 0..k
                invariant
                    k == order@.len(),
                    graph_rows(*g).dom().contains(a),
                    row_entries(*arow) == graph_rows(*g)[a],
                    c == prefix_count(order@, targets(closing(graph_rows(*g)), a), j as int),
                    c <= j,
            {
                if a < order[j] && row_contains(arow, order[j]) {
                    c = c + 1;
                }
            }
            proof {
                lemma_count_of_listing(order@, around, closes);
            }
        },
    }
    c
}

/// The local clustering coefficient of `node`: of the pairs of its neighbors,
/// those of which the larger is a neighbor of the smaller. With fewer than two
/// neighbors there is no pair, and nothing closed.
pub fn get_cl_coef(sparse_matrix: &Graph, node: usize) -> (coefficient: Coefficient)
    ensures
        is_coefficient_of(graph_rows(*sparse_matrix), node, coefficient),
        coefficient.closed <= coefficient.pairs,
        degree(graph_rows(*sparse_matrix), node) < 2 ==> coefficient.closed == 0
            && coefficient.pairs == 0,
{
    let ghost rows = graph_rows(*sparse_matrix);
    match graph_get(sparse_matrix, node) {
        None => {
            proof {
                lemma_closed_pairs_bound(rows, node);
                lemma_pair_count_doubled(0);
            }
            Coefficient { closed: 0, pairs: 0 }
        },
        Some(row) => {
            let order = row_keys(row);
            let k = order.len();
            proof {
                lemma_listing_len(order@, neighbors(rows, node));
                lemma_closed_pairs_bound(rows, node);
                lemma_pair_count_doubled(k as nat);
            }
            if k < 2 {
                assert(k * (k - 1) == 0) by (nonlinear_arith)
                    requires
                        0 <= k < 2,
                ;
                return Coefficient { closed: 0, pairs: 0 };
            }
            let mut closed: u128 = 0;
            for i in 0..k
                invariant
                    k == order@.len(),
                    lists(order@, row_entries(*row).dom()),
                    closed == prefix_sum(
                        order@,
                        out_count(row_entries(*row).dom(), closing(graph_rows(*sparse_matrix))),
                        i as int,
                    ),
                    closed <= i * usize::MAX,
            {
                let c = closed_with(sparse_matrix, row, &order, order[i]);
                proof {
                    lemma_words_fit(i as nat, k as nat);
                }
                closed = closed + c as u128;
            }
            proof {
                lemma_sum_of_listing(
                    order@,
                    neighbors(rows, node),
                    out_count(neighbors(rows, node), closing(rows)),
                );
                lemma_words_fit((k - 1) as nat, k as nat);
                assert(k * (k - 1) <= k * usize::MAX) by (nonlinear_arith)
                    requires
                        k - 1 <= usize::MAX,
                        k >= 0,
                ;
            }
            let pairs = (k as u128) * ((k - 1) as u128) / 2;
            Coefficient { closed, pairs }
        },
    }
}

/// The closed pairs among the neighbors of each of `nodes`, in their order, or
/// `None` where the number of one of them does not fit in `usize`.
pub fn node_closed_pairs(g: &Graph, nodes: &Vec<usize>) -> (found: Option<Vec<usize>>)
    ensures
        match found {
            Some(values) => values_of(nodes@, closed_pairs_fn(graph_rows(*g)), values@),
            None => exceeds(nodes@.to_set(), closed_pairs_fn(graph_rows(*g))),
        },
{
    let n = nodes.len();
    let mut values: Vec<usize> = Vec::new();
    for i in 0..n
        invariant
            n == nodes@.len(),
            values@.len() == i,
            forall|j: int|
                0 <= j < i ==> #[trigger] values@[j] == closed_pairs(graph_rows(*g), nodes@[j]),
    {
        let c = get_cl_coef(g, nodes[i]);
        if c.closed > usize::MAX as u128 {
            assert(nodes@.to_set().contains(nodes@[i as int]));
            return None;
        }
        values.push(c.closed as usize);
    }
    Some(values)
}

/// The items of `keys` and `amounts`, pair by pair.
pub fn pair_up(keys: &Vec<usize>, amounts: &Vec<usize>) -> (entries: Vec<(usize, usize)>)
    requires
        keys@.len() == amounts@.len(),
    ensures
        entries@.len() == keys@.len(),
        forall|i: int| 0 <= i < keys@.len() ==> #[trigger] entries@[i] == (keys@[i], amounts@[i]),
{
    let n = keys.len();
    let mut entries: Vec<(usize, usize)> = Vec::new();
    for i in 0..n
        invariant
            n == keys@.len(),
            n == amounts@.len(),
            entries@.len() == i,
            forall|j: int| 0 <= j < i ==> #[trigger] entries@[j] == (keys@[j], amounts@[j]),
    {
        entries.push((keys[i], amounts[i]));
    }
    entries
}

/// `dist` is the degree-bucketed coefficient distribution: for each degree
/// that occurs, in ascending order, the number of nodes of that degree and
/// the closed pairs among the neighbors of all of them. It is an error where
/// the closed pairs of some node do not fit in `usize`.
pub open spec fn is_coefficient_distribution(
    rows: Map<usize, Map<usize, usize>>,
    dist: Result<Vec<DegreeBucket>, StatsError>,
) -> bool {
    if exceeds(rows.dom(), closed_pairs_fn(rows)) {
        dist matches Err(e) && e == StatsError::Overflow
    } else {
        dist matches Ok(buckets) && is_grouping(
            buckets@,
            rows.dom(),
            degree_fn(rows),
            closed_pairs_fn(rows),
        )
    }
}

/// The degree-bucketed coefficient distribution, from the degree and the
/// closed pairs of each node.
pub(crate) fn coefficient_distribution(
    g: &Graph,
    nodes: &Vec<usize>,
    degrees: &Vec<usize>,
    closed: Option<Vec<usize>>,
) -> (dist: Result<Vec<DegreeBucket>, StatsError>)
    requires
        lists(nodes@, graph_rows(*g).dom()),
        values_of(nodes@, degree_fn(graph_rows(*g)), degrees@),
        match closed {
            Some(values) => values_of(nodes@, closed_pairs_fn(graph_rows(*g)), values@),
            None => exceeds(nodes@.to_set(), closed_pairs_fn(graph_rows(*g))),
        },
    ensures
        is_coefficient_distribution(graph_rows(*g), dist),
{
    let ghost rows = graph_rows(*g);
    match closed {
        None => Err(StatsError::Overflow),
        Some(values) => {
            let entries = pair_up(degrees, &values);
            let buckets = bucket_sums(&entries);
            proof {
                lemma_values_fit(nodes@, rows.dom(), closed_pairs_fn(rows), values@);
                lemma_grouping_of_entries(
                    buckets@,
                    nodes@,
                    rows.dom(),
                    degree_fn(rows),
                    closed_pairs_fn(rows),
                    entries@,
                );
            }
            Ok(buckets)
        },
    }
}

/// The clustering coefficient distribution: the local coefficients of all
/// nodes, bucketed by degree.
pub fn get_cl_ef_dis(sparse_matrix: &Graph) -> (distribution: Result<Vec<DegreeBucket>, StatsError>)
    ensures
        is_coefficient_distribution(graph_rows(*sparse_matrix), distribution),
{
    let nodes = graph_keys(sparse_matrix);
    let degrees = node_degrees(sparse_matrix, &nodes);
    let closed = node_closed_pairs(sparse_matrix, &nodes);
    coefficient_distribution(sparse_matrix, &nodes, &degrees, closed)
}

} // verus!
