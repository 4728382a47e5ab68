//! The hash tables that hold a graph, and the operations the statistics need
//! from them.
//!
//! The tables are `rayon_hash::HashMap`s. Their code is not verified here:
//! each function in this module states what the corresponding table operation
//! does, over the mapping that the table holds, and the rest of the crate is
//! proved against those statements.

use rayon::iter::IntoParallelRefIterator;
use rayon::iter::ParallelIterator;
use rayon_hash::HashMap;
use vstd::prelude::*;

verus! {

#[verifier::external_type_specification]
#[verifier::external_body]
#[verifier::reject_recursive_types(K)]
#[verifier::reject_recursive_types(V)]
#[verifier::reject_recursive_types(S)]
pub struct ExHashMap<K, V, S>(HashMap<K, V, S>);

/// One adjacency row: neighbor identifier to edge weight. Histograms use the
/// same table, from bucket key to count.
pub type Row = HashMap<usize, usize>;

/// A sparse graph: node identifier to its adjacency row.
pub type Graph = HashMap<usize, Row>;

/// A time-bucketed graph: year to the graph of that year.
pub type Timeline = HashMap<u32, Graph>;

/// The key-to-value mapping that a row holds.
pub uninterp spec fn row_entries(row: Row) -> Map<usize, usize>;

/// The node-to-row mapping that a graph holds, each row taken by its entries.
pub uninterp spec fn graph_rows(g: Graph) -> Map<usize, Map<usize, usize>>;

/// The year-to-graph mapping that a timeline holds, each graph taken by its rows.
pub uninterp spec fn timeline_graphs(t: Timeline) -> Map<u32, Map<usize, Map<usize, usize>>>;

/// `order` names every element of `set` exactly once.
pub open spec fn lists<T>(order: Seq<T>, set: Set<T>) -> bool {
    order.no_duplicates() && order.to_set() == set
}

/// `set` is finite and has `n` elements.
pub open spec fn has_len<T>(set: Set<T>, n: usize) -> bool {
    set.finite() && set.len() == n
}

/// The value stored under `key`, or `default` where the key is absent.
pub open spec fn value_or(m: Map<usize, usize>, key: usize, default: usize) -> usize {
    if m.dom().contains(key) {
        m[key]
    } else {
        default
    }
}

/// The row stored under `node`, or the empty row where the node is absent.
pub open spec fn row_or_empty(rows: Map<usize, Map<usize, usize>>, node: usize) -> Map<
    usize,
    usize,
> {
    if rows.dom().contains(node) {
        rows[node]
    } else {
        Map::empty()
    }
}

/// The graph stored under `year`, or the empty graph where the year is absent.
pub open spec fn graph_or_empty(
    graphs: Map<u32, Map<usize, Map<usize, usize>>>,
    year: u32,
) -> Map<usize, Map<usize, usize>> {
    if graphs.dom().contains(year) {
        graphs[year]
    } else {
        Map::empty()
    }
}

/// `HashMap::new`: the new row holds nothing.
#[verifier::external_body]
pub(crate) fn row_new() -> (row: Row)
    ensures
        row_entries(row).dom() == Set::<usize>::empty(),
{
    HashMap::new()
}

/// `HashMap::len`: the number of keys of the row, which is finite.
#[verifier::external_body]
pub(crate) fn row_len(row: &Row) -> (n: usize)
    ensures
        has_len(row_entries(*row).dom(), n),
{
    row.len()
}

/// `HashMap::get`: the value under `key`, if the row has that key.
#[verifier::external_body]
pub(crate) fn row_get(row: &Row, key: usize) -> (value: Option<usize>)
    ensures
        value is Some <==> row_entries(*row).dom().contains(key),
        value matches Some(v) ==> v == row_entries(*row)[key],
{
    row.get(&key).copied()
}

/// `HashMap::contains_key`: whether the row has `key`.
#[verifier::external_body]
pub(crate) fn row_contains(row: &Row, key: usize) -> (found: bool)
    ensures
        found == row_entries(*row).dom().contains(key),
{
    row.contains_key(&key)
}

/// `HashMap::keys`: every key of the row once, in the order in which the
/// table is walked. Nothing is said of that order.
#[verifier::external_body]
pub(crate) fn row_keys(row: &Row) -> (keys: Vec<usize>)
    ensures
        lists(keys@, row_entries(*row).dom()),
{
    row.keys().copied().collect()
}

/// `HashMap::entry` followed by `Entry::or_insert`: the slot of `key`, which
/// holds the value stored so far, or `default` where the key was absent. The
/// row ends as it was but for `key`, which maps to what the slot finally holds.
#[verifier::external_body]
pub(crate) fn row_slot<'a>(row: &'a mut Row, key: usize, default: usize) -> (slot: &'a mut usize)
    ensures
        *slot == value_or(row_entries(*old(row)), key, default),
        row_entries(*final(row)) == row_entries(*old(row)).insert(key, *final(slot)),
{
    row.entry(key).or_insert(default)
}

/// `HashMap::new`: the new graph holds nothing.
#[verifier::external_body]
pub(crate) fn graph_new() -> (g: Graph)
    ensures
        graph_rows(g).dom() == Set::<usize>::empty(),
{
    HashMap::new()
}

/// `HashMap::len`: the number of nodes of the graph, which is finite.
#[verifier::external_body]
pub(crate) fn graph_len(g: &Graph) -> (n: usize)
    ensures
        has_len(graph_rows(*g).dom(), n),
{
    g.len()
}

/// `HashMap::get`: the row of `node`, if the graph has that node.
#[verifier::external_body]
pub(crate) fn graph_get<'a>(g: &'a Graph, node: usize) -> (row: Option<&'a Row>)
    ensures
        row is Some <==> graph_rows(*g).dom().contains(node),
        row matches Some(r) ==> row_entries(*r) == graph_rows(*g)[node],
{
    g.get(&node)
}

/// `HashMap::keys`: every node of the graph once, in the order in which the
/// table is walked. Nothing is said of that order.
#[verifier::external_body]
pub(crate) fn graph_keys(g: &Graph) -> (nodes: Vec<usize>)
    ensures
        lists(nodes@, graph_rows(*g).dom()),
{
    g.keys().copied().collect()
}

/// The table's parallel iterator, collected: every node of the graph once.
/// Nothing is said of the order.
#[verifier::external_body]
pub(crate) fn graph_par_keys(g: &Graph) -> (nodes: Vec<usize>)
    ensures
        lists(nodes@, graph_rows(*g).dom()),
{
    g.par_iter().map(|(node, _)| *node).collect()
}

/// `HashMap::entry` followed by `Entry::or_insert_with(HashMap::new)`: the row
/// of `node`, which is the row stored so far, or an empty one where the node
/// was absent. The graph ends as it was but for `node`, which maps to what the
/// row finally holds.
#[verifier::external_body]
pub(crate) fn graph_row_mut<'a>(g: &'a mut Graph, node: usize) -> (row: &'a mut Row)
    ensures
        row_entries(*row) == row_or_empty(graph_rows(*old(g)), node),
        graph_rows(*final(g)) == graph_rows(*old(g)).insert(node, row_entries(*final(row))),
{
    g.entry(node).or_insert_with(HashMap::new)
}

/// `HashMap::new`: the new timeline holds nothing.
#[verifier::external_body]
pub(crate) fn timeline_new() -> (t: Timeline)
    ensures
        timeline_graphs(t).dom() == Set::<u32>::empty(),
{
    HashMap::new()
}

/// `HashMap::get`: the graph of `year`, if the timeline has that year.
#[verifier::external_body]
pub(crate) fn timeline_get<'a>(t: &'a Timeline, year: u32) -> (g: Option<&'a Graph>)
    ensures
        g is Some <==> timeline_graphs(*t).dom().contains(year),
        g matches Some(h) ==> graph_rows(*h) == timeline_graphs(*t)[year],
{
    t.get(&year)
}

/// `HashMap::keys`: every year of the timeline once, in the order in which the
/// table is walked. Nothing is said of that order.
#[verifier::external_body]
pub(crate) fn timeline_keys(t: &Timeline) -> (years: Vec<u32>)
    ensures
        lists(years@, timeline_graphs(*t).dom()),
{
    t.keys().copied().collect()
}

/// `HashMap::entry` followed by `Entry::or_insert_with(HashMap::new)`: the
/// graph of `year`, which is the graph stored so far, or an empty one where the
/// year was absent. The timeline ends as it was but for `year`, which maps to
/// what the graph finally holds.
#[verifier::external_body]
pub(crate) fn timeline_graph_mut<'a>(t: &'a mut Timeline, year: u32) -> (g: &'a mut Graph)
    ensures
        graph_rows(*g) == graph_or_empty(timeline_graphs(*old(t)), year),
        timeline_graphs(*final(t)) == timeline_graphs(*old(t)).insert(year, graph_rows(*final(g))),
{
    t.entry(year).or_insert_with(HashMap::new)
}

} // verus!
