//! The unweighted graph of an edge list, and the battery of statistics that
//! is run on it.

use crate::buckets::DegreeBucket;
use crate::distribution::is_distribution_text;
use crate::distribution::write_distribution;
use crate::finite::histogram;
use crate::finite::holds_counts;
use crate::finite::is_max_of;
use crate::functions::get_avg_cm_nb;
use crate::functions::get_avg_dg;
use crate::functions::get_cl_ds;
use crate::functions::get_cl_ef_dis;
use crate::functions::get_dg_dis;
use crate::functions::get_max_cm_ng;
use crate::functions::get_max_dg;
use crate::functions::is_average;
use crate::functions::is_average_walks;
use crate::functions::is_coefficient_distribution;
use crate::functions::is_max_walks;
use crate::functions::is_walk_distribution;
use crate::functions_par::get_avg_cm_nb_par;
use crate::functions_par::get_avg_dg_par;
use crate::functions_par::get_cl_ds_par;
use crate::functions_par::get_cl_ef_dis_par;
use crate::functions_par::get_dg_dis_par;
use crate::functions_par::get_max_cm_ng_par;
use crate::functions_par::get_max_dg_par;
use crate::model::degree_fn;
use crate::model::total_degree;
use crate::model::Average;
use crate::model::StatsError;
use crate::table::graph_new;
use crate::table::graph_row_mut;
use crate::table::graph_rows;
use crate::table::row_entries;
use crate::table::row_or_empty;
use crate::table::row_slot;
use crate::table::value_or;
use crate::table::Graph;
use crate::table::Row;
use crate::text::parse_pairs;
use crate::text::parsed;
use crate::text::InputError;
use vstd::prelude::*;

verus! {

/// One of the first `n` records leaves `v`.
pub open spec fn has_source(records: Seq<(usize, usize)>, v: usize, n: int) -> bool {
    exists|i: int| 0 <= i < n && (#[trigger] records[i]).0 == v
}

/// One of the first `n` records is the edge from `v` to `w`.
pub open spec fn has_edge(records: Seq<(usize, usize)>, v: usize, w: usize, n: int) -> bool {
    exists|i: int| 0 <= i < n && #[trigger] records[i] == (v, w)
}

/// `rows` is the graph of the first `n` records: a node for each source, in
/// its row a neighbor for each target, and every weight 1. A record that
/// repeats an edge changes nothing.
pub open spec fn is_graph_of(
    rows: Map<usize, Map<usize, usize>>,
    records: Seq<(usize, usize)>,
    n: int,
) -> bool {
    &&& forall|v: usize| rows.dom().contains(v) <==> has_source(records, v, n)
    &&& forall|v: usize, w: usize|
        rows.dom().contains(v) ==> (rows[v].dom().contains(w) <==> has_edge(records, v, w, n))
    &&& forall|v: usize, w: usize|
        rows.dom().contains(v) && #[trigger] rows[v].dom().contains(w) ==> rows[v][w] == 1
}

/// The row of `from` with the edge to `to`, at weight 1 where it is new.
pub open spec fn with_edge(
    rows: Map<usize, Map<usize, usize>>,
    from: usize,
    to: usize,
) -> Map<usize, Map<usize, usize>> {
    let row = row_or_empty(rows, from);
    rows.insert(from, row.insert(to, value_or(row, to, 1)))
}

/// Adds the edge from `from` to `to` with weight 1. An edge that the graph
/// has already keeps its weight.
pub fn add_edge(g: &mut Graph, from: usize, to: usize)
    ensures
        graph_rows(*final(g)) == with_edge(graph_rows(*old(g)), from, to),
{
    let row = graph_row_mut(g, from);
    let _ = row_slot(row, to, 1);
}

/// The graph of the records, each a pair `(from, to)`.
pub fn build_graph(records: &Vec<(usize, usize)>) -> (g: Graph)
    ensures
        is_graph_of(graph_rows(g), records@, records@.len() as int),
{
    let n = records.len();
    let mut g = graph_new();
    for i in 0..n
        invariant
            n == records@.len(),
            is_graph_of(graph_rows(g), records@, i as int),
    {
        let ghost before = graph_rows(g);
        let from = records[i].0;
        let to = records[i].1;
        add_edge(&mut g, from, to);
        proof {
            let after = graph_rows(g);
            let row = row_or_empty(before, from);
            assert forall|v: usize| after.dom().contains(v) <==> has_source(
                records@,
                v,
                i + 1,
            ) by {
                if has_source(records@, v, i as int) {
                    let j = choose|j: int| 0 <= j < i && (#[trigger] records@[j]).0 == v;
                    assert(0 <= j < i + 1 && records@[j].0 == v);
                }
                if has_source(records@, v, i + 1) {
                    let j = choose|j: int| 0 <= j < i + 1 && (#[trigger] records@[j]).0 == v;
                    if j < i {
                        assert(has_source(records@, v, i as int));
                    }
                }
                if v == from {
                    assert(0 <= i < i + 1 && records@[i as int].0 == v);
                }
            }
            assert forall|v: usize, w: usize| after.dom().contains(v) implies (
            after[v].dom().contains(w) <==> has_edge(records@, v, w, i + 1)) by {
                if has_edge(records@, v, w, i as int) {
                    let j = choose|j: int| 0 <= j < i && #[trigger] records@[j] == (v, w);
                    assert(0 <= j < i + 1 && records@[j] == (v, w));
                    assert(records@[j].0 == v);
                    assert(has_source(records@, v, i as int));
                }
                if has_edge(records@, v, w, i + 1) {
                    let j = choose|j: int| 0 <= j < i + 1 && #[trigger] records@[j] == (v, w);
                    if j < i {
                        assert(has_edge(records@, v, w, i as int));
                    }
                }
                if v == from && w == to {
                    assert(0 <= i < i + 1 && records@[i as int] == (v, w));
                }
            }
            assert forall|v: usize, w: usize|
                after.dom().contains(v) && #[trigger] after[v].dom().contains(w) implies after[v][w]
                == 1 by {
                if v == from && w != to {
                    assert(before.dom().contains(v) && before[v].dom().contains(w));
                }
            }
        }
    }
    g
}

/// What the battery finds on a graph: every statistic as one thread computes
/// it, and as the worker pool does.
pub struct Report {
    pub graph: Graph,
    pub average_degree: Result<Average, StatsError>,
    pub average_degree_par: Result<Average, StatsError>,
    pub max_degree: usize,
    pub max_degree_par: usize,
    pub degree_distribution: Row,
    pub degree_distribution_par: Row,
    pub degree_distribution_text: Vec<u8>,
    pub coefficient_distribution: Result<Vec<DegreeBucket>, StatsError>,
    pub coefficient_distribution_par: Result<Vec<DegreeBucket>, StatsError>,
    pub clustering_distribution: Result<Row, StatsError>,
    pub clustering_distribution_par: Result<Row, StatsError>,
    pub average_common_neighbors: Result<Average, StatsError>,
    pub average_common_neighbors_par: Result<Average, StatsError>,
    pub max_common_neighbors: Result<usize, StatsError>,
    pub max_common_neighbors_par: Result<usize, StatsError>,
}

/// Every field of the report is the statistic of the report's graph that it
/// is named after, and the text is the file of the degree distribution.
pub open spec fn is_report(report: Report) -> bool {
    let rows = graph_rows(report.graph);
    &&& is_average(report.average_degree, total_degree(rows), rows.dom().len())
    &&& is_average(report.average_degree_par, total_degree(rows), rows.dom().len())
    &&& is_max_of(rows.dom(), degree_fn(rows), report.max_degree as nat)
    &&& is_max_of(rows.dom(), degree_fn(rows), report.max_degree_par as nat)
    &&& holds_counts(
        row_entries(report.degree_distribution),
        histogram(rows.dom(), degree_fn(rows)),
    )
    &&& holds_counts(
        row_entries(report.degree_distribution_par),
        histogram(rows.dom(), degree_fn(rows)),
    )
    &&& is_distribution_text(
        report.degree_distribution_text@,
        row_entries(report.degree_distribution_par),
    )
    &&& is_coefficient_distribution(rows, report.coefficient_distribution)
    &&& is_coefficient_distribution(rows, report.coefficient_distribution_par)
    &&& is_walk_distribution(rows, report.clustering_distribution)
    &&& is_walk_distribution(rows, report.clustering_distribution_par)
    &&& is_average_walks(rows, report.average_common_neighbors)
    &&& is_average_walks(rows, report.average_common_neighbors_par)
    &&& is_max_walks(rows, report.max_common_neighbors)
    &&& is_max_walks(rows, report.max_common_neighbors_par)
}

/// Runs the battery on a graph.
pub fn run_battery(graph: Graph) -> (report: Report)
    ensures
        report.graph == graph,
        is_report(report),
{
    let average_degree = get_avg_dg(&graph);
    let average_degree_par = get_avg_dg_par(&graph);
    let max_degree = get_max_dg(&graph);
    let max_degree_par = get_max_dg_par(&graph);
    let degree_distribution = get_dg_dis(&graph);
    let degree_distribution_par = get_dg_dis_par(&graph);
    let degree_distribution_text = write_distribution(&degree_distribution_par);
    let coefficient_distribution = get_cl_ef_dis(&graph);
    let coefficient_distribution_par = get_cl_ef_dis_par(&graph);
    let clustering_distribution = get_cl_ds(&graph);
    let clustering_distribution_par = get_cl_ds_par(&graph);
    let average_common_neighbors = get_avg_cm_nb(&graph);
    let average_common_neighbors_par = get_avg_cm_nb_par(&graph);
    let max_common_neighbors = get_max_cm_ng(&graph);
    let max_common_neighbors_par = get_max_cm_ng_par(&graph);
    Report {
        graph,
        average_degree,
        average_degree_par,
        max_degree,
        max_degree_par,
        degree_distribution,
        degree_distribution_par,
        degree_distribution_text,
        coefficient_distribution,
        coefficient_distribution_par,
        clustering_distribution,
        clustering_distribution_par,
        average_common_neighbors,
        average_common_neighbors_par,
        max_common_neighbors,
        max_common_neighbors_par,
    }
}

/// Reads an edge list, one `from to` record on each line, builds its graph
/// and runs the battery on it. A line that is no record stops the run.
pub fn cv_1(text: &[u8]) -> (run: Result<Report, InputError>)
    ensures
        match parsed(text@) {
            Ok(records) => run matches Ok(report) && is_graph_of(
                graph_rows(report.graph),
                records,
                records.len() as int,
            ) && is_report(report),
            Err(e) => run matches Err(f) && f == e,
        },
{
    match parse_pairs(text) {
        Err(e) => Err(e),
        Ok(records) => Ok(run_battery(build_graph(&records))),
    }
}

} // verus!
