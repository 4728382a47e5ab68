//! The time-bucketed co-occurrence graph of group records, and the weighted
//! statistics that are taken of it.
//!
//! A group is a list of members recorded at one time. Every two positions of
//! a group add 1 to the weight of the edge between the two members, kept from
//! the smaller member to the larger, in the graph of the group's year.

use crate::finite::lemma_listing_len;
use crate::finite::lemma_prefix_sum_bound;
use crate::finite::lemma_prefix_sum_grows;
use crate::finite::lemma_sum_of_listing;
use crate::finite::prefix_sum;
use crate::finite::set_sum;
use crate::distribution::describes;
use crate::distribution::names;
use crate::distribution::sorted_entries;
use crate::finite::holds_counts;
use crate::functions::degree_of;
use crate::functions::lemma_words_fit;
use crate::functions_par::merge_counts;
use crate::functions_par::merge_overflows;
use crate::functions_par::merged;
use crate::model::adjacent;
use crate::model::degree;
use crate::model::degree_fn;
use crate::model::total_degree;
use crate::model::neighbors;
use crate::model::StatsError;
use crate::sorting::ascending;
use crate::sorting::sorted_nodes;
use crate::table::graph_get;
use crate::table::graph_keys;
use crate::table::graph_new;
use crate::table::graph_or_empty;
use crate::table::graph_row_mut;
use crate::table::graph_rows;
use crate::table::lists;
use crate::table::row_contains;
use crate::table::row_entries;
use crate::table::row_get;
use crate::table::row_keys;
use crate::table::row_or_empty;
use crate::table::row_slot;
use crate::table::timeline_get;
use crate::table::timeline_graph_mut;
use crate::table::timeline_keys;
use crate::table::timeline_graphs;
use crate::table::timeline_new;
use crate::table::value_or;
use crate::table::Graph;
use crate::table::Row;
use crate::table::Timeline;
use crate::text::parse_numbers;
use crate::text::parse_years;
use crate::text::parsed_numbers;
use crate::text::parsed_years;
use crate::text::InputError;
use vstd::prelude::*;

verus! {

/// The weight of the edge from `a` to `b` in the graph of `year`, 0 where
/// there is none.
pub open spec fn weight_in(
    graphs: Map<u32, Map<usize, Map<usize, usize>>>,
    year: u32,
    a: usize,
    b: usize,
) -> nat {
    if graphs.dom().contains(year) && graphs[year].dom().contains(a)
        && graphs[year][a].dom().contains(b) {
        graphs[year][a][b] as nat
    } else {
        0
    }
}

/// Nothing in the timeline is empty: every year has a node, every node an
/// edge, and every edge a positive weight.
pub open spec fn no_empty(graphs: Map<u32, Map<usize, Map<usize, usize>>>) -> bool {
    &&& forall|y: u32| #[trigger]
        graphs.dom().contains(y) ==> exists|a: usize| #[trigger] graphs[y].dom().contains(a)
    &&& forall|y: u32, a: usize|
        graphs.dom().contains(y) && #[trigger] graphs[y].dom().contains(a) ==> exists|b: usize| #[trigger]
            graphs[y][a].dom().contains(b)
    &&& forall|y: u32, a: usize, b: usize|
        graphs.dom().contains(y) && graphs[y].dom().contains(a) && #[trigger] graphs[y][a].dom().contains(
            b,
        ) ==> graphs[y][a][b] > 0
}

/// The number of members of the first `g` groups: where the members of the
/// next group begin.
pub open spec fn offset(sizes: Seq<usize>, g: int) -> nat
    decreases g,
{
    if g <= 0 {
        0
    } else {
        (offset(sizes, g - 1) + sizes[g - 1]) as nat
    }
}

/// The three streams hold the same groups: a time for each size, and as many
/// members as the sizes say.
pub open spec fn aligned(sizes: Seq<usize>, members: Seq<usize>, times: Seq<u32>) -> bool {
    sizes.len() == times.len() && offset(sizes, sizes.len() as int) == members.len()
}

/// The edge between `x` and `y` is the edge from `a` to `b`: `a` is the
/// smaller of the two and `b` the larger.
pub open spec fn joins(x: usize, y: usize, a: usize, b: usize) -> bool {
    if x <= y {
        a == x && b == y
    } else {
        a == y && b == x
    }
}

/// 1 where the condition holds, 0 elsewhere.
pub open spec fn one_if(condition: bool) -> nat {
    if condition {
        1
    } else {
        0
    }
}

/// In the group that begins at `base`: the positions after `i` and before `j`
/// whose member, with the member at `i`, makes the edge from `a` to `b`.
pub open spec fn pair_hits(members: Seq<usize>, base: int, i: int, j: int, a: usize, b: usize) -> nat
    decreases j - i,
{
    if j <= i + 1 {
        0
    } else {
        pair_hits(members, base, i, j - 1, a, b) + one_if(
            joins(members[base + i], members[base + j - 1], a, b),
        )
    }
}

/// In the group of `size` members that begins at `base`: the pairs of
/// positions, the earlier among the first `i`, that make the edge from `a`
/// to `b`.
pub open spec fn group_hits(
    members: Seq<usize>,
    base: int,
    size: int,
    i: int,
    a: usize,
    b: usize,
) -> nat
    decreases i,
{
    if i <= 0 {
        0
    } else {
        group_hits(members, base, size, i - 1, a, b) + pair_hits(members, base, i - 1, size, a, b)
    }
}

/// In the first `g` groups: the pairs of positions of one group of `year`
/// that make the edge from `a` to `b`.
pub open spec fn year_hits(
    sizes: Seq<usize>,
    members: Seq<usize>,
    times: Seq<u32>,
    g: int,
    year: u32,
    a: usize,
    b: usize,
) -> nat
    decreases g,
{
    if g <= 0 {
        0
    } else {
        year_hits(sizes, members, times, g - 1, year, a, b) + if times[g - 1] == year {
            group_hits(
                members,
                offset(sizes, g - 1) as int,
                sizes[g - 1] as int,
                sizes[g - 1] as int,
                a,
                b,
            )
        } else {
            0
        }
    }
}

/// Some edge of some year would have a weight that does not fit in `usize`.
pub open spec fn too_heavy(sizes: Seq<usize>, members: Seq<usize>, times: Seq<u32>) -> bool {
    exists|y: u32, a: usize, b: usize| #[trigger]
        year_hits(sizes, members, times, sizes.len() as int, y, a, b) > usize::MAX
}

/// `graphs` is the timeline of the groups: in the graph of each year, each
/// edge weighs as many pairs of positions as make it, and there is nothing
/// else.
pub open spec fn is_timeline_of(
    graphs: Map<u32, Map<usize, Map<usize, usize>>>,
    sizes: Seq<usize>,
    members: Seq<usize>,
    times: Seq<u32>,
) -> bool {
    &&& no_empty(graphs)
    &&& forall|y: u32, a: usize, b: usize| #[trigger]
        weight_in(graphs, y, a, b) == year_hits(sizes, members, times, sizes.len() as int, y, a, b)
}

/// The timeline with the edge from `a` to `b` of `year` one heavier.
pub open spec fn stepped(
    graphs: Map<u32, Map<usize, Map<usize, usize>>>,
    year: u32,
    a: usize,
    b: usize,
) -> Map<u32, Map<usize, Map<usize, usize>>> {
    let graph = graph_or_empty(graphs, year);
    let row = row_or_empty(graph, a);
    graphs.insert(year, graph.insert(a, row.insert(b, (value_or(row, b, 0) + 1) as usize)))
}

/// A step makes one edge heavier by 1 and leaves the others, and leaves
/// nothing empty.
pub proof fn lemma_stepped(
    graphs: Map<u32, Map<usize, Map<usize, usize>>>,
    year: u32,
    a: usize,
    b: usize,
)
    requires
        no_empty(graphs),
        weight_in(graphs, year, a, b) < usize::MAX,
    ensures
        no_empty(stepped(graphs, year, a, b)),
        forall|y: u32, c: usize, d: usize| #[trigger]
            weight_in(stepped(graphs, year, a, b), y, c, d) == weight_in(graphs, y, c, d) + one_if(
                y == year && c == a && d == b,
            ),
{
    let graph = graph_or_empty(graphs, year);
    let row = row_or_empty(graph, a);
    let next = stepped(graphs, year, a, b);
    assert(next[year].dom().contains(a));
    assert(next[year][a].dom().contains(b));
    assert forall|y: u32| #[trigger] next.dom().contains(y) implies exists|c: usize| #[trigger]
        next[y].dom().contains(c) by {
        if y == year {
            assert(next[y].dom().contains(a));
        } else {
            let c = choose|c: usize| #[trigger] graphs[y].dom().contains(c);
            assert(next[y].dom().contains(c));
        }
    }
    assert forall|y: u32, c: usize|
        next.dom().contains(y) && #[trigger] next[y].dom().contains(c) implies exists|d: usize| #[trigger]
        next[y][c].dom().contains(d) by {
        if y == year && c == a {
            assert(next[y][c].dom().contains(b));
        } else {
            assert(graphs.dom().contains(y) && graphs[y].dom().contains(c));
            let d = choose|d: usize| #[trigger] graphs[y][c].dom().contains(d);
            assert(next[y][c].dom().contains(d));
        }
    }
    assert forall|y: u32, c: usize, d: usize|
        next.dom().contains(y) && next[y].dom().contains(c) && #[trigger] next[y][c].dom().contains(
            d,
        ) implies next[y][c][d] > 0 by {
        if !(y == year && c == a && d == b) {
            assert(graphs.dom().contains(y) && graphs[y].dom().contains(c)
                && graphs[y][c].dom().contains(d));
        }
    }
    assert forall|y: u32, c: usize, d: usize| #[trigger]
        weight_in(next, y, c, d) == weight_in(graphs, y, c, d) + one_if(
            y == year && c == a && d == b,
        ) by {
        if y == year {
            if c == a {
                if d == b {
                } else {
                    assert(next[y][c].dom().contains(d) <==> row.dom().contains(d));
                }
            } else {
                assert(next[y].dom().contains(c) <==> graph.dom().contains(c));
            }
        } else {
            assert(next.dom().contains(y) <==> graphs.dom().contains(y));
        }
    }
}

/// Makes the edge from `a` to `b` of `year` one heavier. Returns whether the
/// weight fits in `usize`.
pub fn bump_weight(t: &mut Timeline, year: u32, a: usize, b: usize) -> (fits: bool)
    ensures
        fits == (weight_in(timeline_graphs(*old(t)), year, a, b) < usize::MAX),
        fits ==> timeline_graphs(*final(t)) == stepped(timeline_graphs(*old(t)), year, a, b),
{
    let graph = timeline_graph_mut(t, year);
    let row = graph_row_mut(graph, a);
    let slot = row_slot(row, b, 0);
    if *slot == usize::MAX {
        return false;
    }
    *slot = *slot + 1;
    true
}

/// Later groups begin no earlier.
pub proof fn lemma_offset_grows(sizes: Seq<usize>, g: int, n: int)
    requires
        g <= n,
    ensures
        offset(sizes, g) <= offset(sizes, n),
    decreases n - g,
{
    if g < n {
        lemma_offset_grows(sizes, g, n - 1);
    }
}

/// More positions make no fewer pairs.
pub proof fn lemma_pair_hits_grow(
    members: Seq<usize>,
    base: int,
    i: int,
    j: int,
    k: int,
    a: usize,
    b: usize,
)
    requires
        j <= k,
    ensures
        pair_hits(members, base, i, j, a, b) <= pair_hits(members, base, i, k, a, b),
    decreases k - j,
{
    if j < k {
        lemma_pair_hits_grow(members, base, i, j, k - 1, a, b);
    }
}

/// More earlier positions make no fewer pairs.
pub proof fn lemma_group_hits_grow(
    members: Seq<usize>,
    base: int,
    size: int,
    i: int,
    k: int,
    a: usize,
    b: usize,
)
    requires
        i <= k,
    ensures
        group_hits(members, base, size, i, a, b) <= group_hits(members, base, size, k, a, b),
    decreases k - i,
{
    if i < k {
        lemma_group_hits_grow(members, base, size, i, k - 1, a, b);
    }
}

/// More groups make no fewer pairs.
pub proof fn lemma_year_hits_grow(
    sizes: Seq<usize>,
    members: Seq<usize>,
    times: Seq<u32>,
    g: int,
    n: int,
    year: u32,
    a: usize,
    b: usize,
)
    requires
        g <= n,
    ensures
        year_hits(sizes, members, times, g, year, a, b) <= year_hits(
            sizes,
            members,
            times,
            n,
            year,
            a,
            b,
        ),
    decreases n - g,
{
    if g < n {
        lemma_year_hits_grow(sizes, members, times, g, n - 1, year, a, b);
    }
}

/// Whether the three streams hold the same groups.
pub fn check_aligned(sizes: &Vec<usize>, members: &Vec<usize>, times: &Vec<u32>) -> (ok: bool)
    ensures
        ok == aligned(sizes@, members@, times@),
{
    let n = sizes.len();
    if n != times.len() {
        return false;
    }
    let mut total: usize = 0;
    for g in 0..n
        invariant
            n == sizes@.len(),
            total == offset(sizes@, g as int),
            total <= members@.len(),
    {
        if sizes[g] > members.len() - total {
            proof {
                lemma_offset_grows(sizes@, g + 1, n as int);
            }
            return false;
        }
        total = total + sizes[g];
    }
    total == members.len()
}

/// `built` is what building the timeline of the groups comes to: an error
/// where the streams are not aligned or an edge is too heavy, the timeline
/// otherwise.
pub open spec fn is_built(
    built: Result<Timeline, InputError>,
    sizes: Seq<usize>,
    members: Seq<usize>,
    times: Seq<u32>,
) -> bool {
    if !aligned(sizes, members, times) {
        built matches Err(e) && e == InputError::Misaligned
    } else if too_heavy(sizes, members, times) {
        built matches Err(e) && e == InputError::Overflow
    } else {
        built matches Ok(t) && is_timeline_of(timeline_graphs(t), sizes, members, times)
    }
}

/// The timeline of the groups: `sizes` holds the size of each group, `times`
/// its year, and `members` the members of all groups, one group after the
/// other.
pub fn build_timeline(sizes: &Vec<usize>, members: &Vec<usize>, times: &Vec<u32>) -> (built: Result<
    Timeline,
    InputError,
>)
    ensures
        is_built(built, sizes@, members@, times@),
{
    if !check_aligned(sizes, members, times) {
        return Err(InputError::Misaligned);
    }
    let n = sizes.len();
    let count = members.len();
    let mut t = timeline_new();
    let mut base: usize = 0;
    for g in 0..n
        invariant
            n == sizes@.len(),
            count == members@.len(),
            aligned(sizes@, members@, times@),
            base == offset(sizes@, g as int),
            no_empty(timeline_graphs(t)),
            forall|y: u32, a: usize, b: usize| #[trigger]
                weight_in(timeline_graphs(t), y, a, b) == year_hits(
                    sizes@,
                    members@,
                    times@,
                    g as int,
                    y,
                    a,
                    b,
                ),
    {
        let size = sizes[g];
        let year = times[g];
        proof {
            lemma_offset_grows(sizes@, g + 1, n as int);
        }
        for i in 0..size
            invariant
                n == sizes@.len(),
                g < n,
                size == sizes@[g as int],
                year == times@[g as int],
                aligned(sizes@, members@, times@),
                base == offset(sizes@, g as int),
                base + size <= members@.len(),
                count == members@.len(),
                no_empty(timeline_graphs(t)),
                forall|y: u32, a: usize, b: usize| #[trigger]
                    weight_in(timeline_graphs(t), y, a, b) == year_hits(
                        sizes@,
                        members@,
                        times@,
                        g as int,
                        y,
                        a,
                        b,
                    ) + if y == year {
                        group_hits(members@, base as int, size as int, i as int, a, b)
                    } else {
                        0
                    },
        {
            let x = members[base + i];
            for j in (i + 1)..size
                invariant
                    n == sizes@.len(),
                    g < n,
                    i < size,
                    size == sizes@[g as int],
                    year == times@[g as int],
                    x == members@[base + i],
                    aligned(sizes@, members@, times@),
                    base == offset(sizes@, g as int),
                    base + size <= members@.len(),
                    count == members@.len(),
                count == members@.len(),
                    no_empty(timeline_graphs(t)),
                    forall|y: u32, a: usize, b: usize| #[trigger]
                        weight_in(timeline_graphs(t), y, a, b) == year_hits(
                            sizes@,
                            members@,
                            times@,
                            g as int,
                            y,
                            a,
                            b,
                        ) + if y == year {
                            group_hits(members@, base as int, size as int, i as int, a, b)
                                + pair_hits(members@, base as int, i as int, j as int, a, b)
                        } else {
                            0
                        },
            {
                let z = members[base + j];
                let a = if x <= z {
                    x
                } else {
                    z
                };
                let b = if x <= z {
                    z
                } else {
                    x
                };
                let ghost before = timeline_graphs(t);
                let fits = bump_weight(&mut t, year, a, b);
                if !fits {
                    proof {
                        assert(weight_in(before, year, a, b) == usize::MAX);
                        assert(joins(x, z, a, b));
                        lemma_pair_hits_grow(
                            members@,
                            base as int,
                            i as int,
                            j + 1,
                            size as int,
                            a,
                            b,
                        );
                        lemma_group_hits_grow(
                            members@,
                            base as int,
                            size as int,
                            i + 1,
                            size as int,
                            a,
                            b,
                        );
                        lemma_year_hits_grow(sizes@, members@, times@, g + 1, n as int, year, a, b);
                        assert(year_hits(sizes@, members@, times@, n as int, year, a, b)
                            > usize::MAX);
                    }
                    return Err(InputError::Overflow);
                }
                proof {
                    lemma_stepped(before, year, a, b);
                    assert forall|y: u32, c: usize, d: usize| #[trigger]
                        weight_in(timeline_graphs(t), y, c, d) == year_hits(
                            sizes@,
                            members@,
                            times@,
                            g as int,
                            y,
                            c,
                            d,
                        ) + if y == year {
                            group_hits(members@, base as int, size as int, i as int, c, d)
                                + pair_hits(members@, base as int, i as int, j + 1, c, d)
                        } else {
                            0
                        } by {
                        assert(weight_in(timeline_graphs(t), y, c, d) == weight_in(before, y, c, d)
                            + one_if(y == year && c == a && d == b));
                        assert(joins(x, z, c, d) <==> c == a && d == b);
                    }
                }
            }
        }
        base = base + size;
    }
    proof {
        assert forall|y: u32, a: usize, b: usize| #[trigger]
            year_hits(sizes@, members@, times@, n as int, y, a, b) <= usize::MAX by {
            assert(weight_in(timeline_graphs(t), y, a, b) == year_hits(
                sizes@,
                members@,
                times@,
                n as int,
                y,
                a,
                b,
            ));
        }
    }
    Ok(t)
}

/// `built` is what reading the three streams comes to: the first error of
/// the group sizes, else of the members, else of the times, and else what
/// building the timeline of the groups comes to.
pub open spec fn is_read(
    built: Result<Timeline, InputError>,
    nverts: Seq<u8>,
    simplices: Seq<u8>,
    times: Seq<u8>,
) -> bool {
    match parsed_numbers(nverts) {
        Err(e) => built matches Err(f) && f == e,
        Ok(sizes) => match parsed_numbers(simplices) {
            Err(e) => built matches Err(f) && f == e,
            Ok(members) => match parsed_years(times) {
                Err(e) => built matches Err(f) && f == e,
                Ok(years) => is_built(built, sizes, members, years),
            },
        },
    }
}

/// Reads the three streams of a hypergraph and builds its timeline:
/// `nverts` holds the size of each group, `simplices` the members of all
/// groups, and `times` the year of each group, each with one number on a
/// line.
pub fn parse_author_file(nverts: &[u8], simplices: &[u8], times: &[u8]) -> (built: Result<
    Timeline,
    InputError,
>)
    ensures
        is_read(built, nverts@, simplices@, times@),
{
    let sizes = match parse_numbers(nverts) {
        Ok(values) => values,
        Err(e) => {
            return Err(e);
        },
    };
    let members = match parse_numbers(simplices) {
        Ok(values) => values,
        Err(e) => {
            return Err(e);
        },
    };
    let years = match parse_years(times) {
        Ok(values) => values,
        Err(e) => {
            return Err(e);
        },
    };
    build_timeline(&sizes, &members, &years)
}

/// The weight of the edge from `v` to `u`, 0 where there is none.
pub open spec fn edge_weight(rows: Map<usize, Map<usize, usize>>, v: usize, u: usize) -> nat {
    if adjacent(rows, v, u) {
        rows[v][u] as nat
    } else {
        0
    }
}

/// What the walk from `v` over `first` to `second` adds to the weighted
/// clustering of `v`: the weights of the two edges from `v`, where the two
/// neighbors differ and `second` is a neighbor of `first`.
pub open spec fn pull(rows: Map<usize, Map<usize, usize>>, v: usize, first: usize) -> spec_fn(
    usize,
) -> nat {
    |second: usize|
        if first != second && adjacent(rows, first, second) {
            edge_weight(rows, v, first) + edge_weight(rows, v, second)
        } else {
            0nat
        }
}

/// What all walks from `v` over `first` add.
pub open spec fn pull_over(rows: Map<usize, Map<usize, usize>>, v: usize) -> spec_fn(usize) -> nat {
    |first: usize| set_sum(neighbors(rows, v), pull(rows, v, first))
}

/// The weight that the closed walks at `v` carry: over all ordered pairs of
/// distinct neighbors of `v` of which the second is a neighbor of the first,
/// the weights of the two edges from `v`.
pub open spec fn walk_weight(rows: Map<usize, Map<usize, usize>>, v: usize) -> nat {
    set_sum(neighbors(rows, v), pull_over(rows, v))
}

/// The keys of a row with their values, in the order in which the table is
/// walked.
pub fn row_items(row: &Row) -> (items: Vec<(usize, usize)>)
    ensures
        items@.len() == row_entries(*row).dom().len(),
        lists(firsts(items@), row_entries(*row).dom()),
        forall|i: int|
            0 <= i < items@.len() ==> (#[trigger] items@[i]).1 == row_entries(*row)[items@[i].0],
{
    let keys = row_keys(row);
    let n = keys.len();
    let mut items: Vec<(usize, usize)> = Vec::new();
    proof {
        lemma_listing_len(keys@, row_entries(*row).dom());
    }
    for i in 0..n
        invariant
            n == keys@.len(),
            lists(keys@, row_entries(*row).dom()),
            items@.len() == i,
            forall|j: int|
                0 <= j < i ==> (#[trigger] items@[j]) == (
                    keys@[j],
                    row_entries(*row)[keys@[j]],
                ),
    {
        assert(keys@.to_set().contains(keys@[i as int]));
        match row_get(row, keys[i]) {
            Some(value) => {
                items.push((keys[i], value));
            },
            None => {
                assert(false);
            },
        }
    }
    assert(firsts(items@) =~= keys@);
    items
}

/// The first parts of the pairs.
pub open spec fn firsts(items: Seq<(usize, usize)>) -> Seq<usize> {
    Seq::new(items.len(), |i: int| items[i].0)
}

/// What all walks from `node` over `first` add to its weighted clustering, or
/// `None` where that does not fit in 128 bits. `items` are the edges from
/// `node`, and `weight` is the weight of the edge to `first`.
pub(crate) fn pull_over_at(
    g: &Graph,
    node: usize,
    items: &Vec<(usize, usize)>,
    first: usize,
    weight: usize,
) -> (sum: Option<u128>)
    requires
        graph_rows(*g).dom().contains(node),
        lists(firsts(items@), graph_rows(*g)[node].dom()),
        forall|i: int|
            0 <= i < items@.len() ==> (#[trigger] items@[i]).1 == graph_rows(*g)[node][items@[i].0],
        graph_rows(*g)[node].dom().contains(first),
        weight == graph_rows(*g)[node][first],
    ensures
        match sum {
            Some(s) => s == pull_over(graph_rows(*g), node)(first),
            None => pull_over(graph_rows(*g), node)(first) > u128::MAX,
        },
{
    let ghost rows = graph_rows(*g);
    let ghost order = firsts(items@);
    let ghost f = pull(rows, node, first);
    proof {
        lemma_sum_of_listing(order, neighbors(rows, node), f);
    }
    match graph_get(g, first) {
        None => {
            proof {
                lemma_prefix_sum_bound(order, f, order.len() as int, 0);
            }
            Some(0)
        },
        Some(row) => {
            let n = items.len();
            let mut sum: u128 = 0;
            for j in 0..n
                invariant
                    n == items@.len(),
                    order == firsts(items@),
                    rows == graph_rows(*g),
                    f == pull(rows, node, first),
                    rows.dom().contains(node),
                    rows.dom().contains(first),
                    row_entries(*row) == rows[first],
                    rows[node].dom().contains(first),
                    weight == rows[node][first],
                    lists(order, rows[node].dom()),
                    forall|i: int|
                        0 <= i < items@.len() ==> (#[trigger] items@[i]).1
                            == rows[node][items@[i].0],
                    sum == prefix_sum(order, f, j as int),
                    set_sum(neighbors(rows, node), f) == prefix_sum(order, f, n as int),
            {
                let second = items[j].0;
                assert(order[j as int] == second);
                assert(order.to_set().contains(order[j as int]));
                if first != second && row_contains(row, second) {
                    let term = weight as u128 + items[j].1 as u128;
                    match sum.checked_add(term) {
                        Some(next) => {
                            sum = next;
                        },
                        None => {
                            proof {
                                lemma_prefix_sum_grows(order, f, j + 1, n as int);
                            }
                            return None;
                        },
                    }
                }
            }
            Some(sum)
        },
    }
}

/// The weight that the closed walks at `node` carry, or `None` where it does
/// not fit in 128 bits.
pub fn walk_weight_at(g: &Graph, node: usize) -> (sum: Option<u128>)
    ensures
        match sum {
            Some(s) => s == walk_weight(graph_rows(*g), node),
            None => walk_weight(graph_rows(*g), node) > u128::MAX,
        },
{
    let ghost rows = graph_rows(*g);
    match graph_get(g, node) {
        None => {
            assert(walk_weight(rows, node) == 0);
            Some(0)
        },
        Some(row) => {
            let items = row_items(row);
            let n = items.len();
            let ghost order = firsts(items@);
            let ghost f = pull_over(rows, node);
            proof {
                lemma_sum_of_listing(order, neighbors(rows, node), f);
            }
            let mut sum: u128 = 0;
            for i in 0..n
                invariant
                    n == items@.len(),
                    order == firsts(items@),
                    rows == graph_rows(*g),
                    f == pull_over(rows, node),
                    rows.dom().contains(node),
                    lists(order, rows[node].dom()),
                    forall|k: int|
                        0 <= k < items@.len() ==> (#[trigger] items@[k]).1
                            == rows[node][items@[k].0],
                    sum == prefix_sum(order, f, i as int),
                    set_sum(neighbors(rows, node), f) == prefix_sum(order, f, n as int),
            {
                assert(order[i as int] == items@[i as int].0);
                assert(order.to_set().contains(order[i as int]));
                let part = pull_over_at(g, node, &items, items[i].0, items[i].1);
                let next = match part {
                    Some(p) => sum.checked_add(p),
                    None => None,
                };
                match next {
                    Some(total) => {
                        sum = total;
                    },
                    None => {
                        proof {
                            lemma_prefix_sum_grows(order, f, i + 1, n as int);
                        }
                        return None;
                    },
                }
            }
            Some(sum)
        },
    }
}

/// The part of one node in the weighted clustering of a graph: its degree,
/// and the weight that the closed walks at it carry. The weighted clustering
/// coefficient of the node is `weight` over `2 * degree * (degree - 1)` times
/// the largest edge weight of the graph.
#[derive(Clone, Copy, Debug, PartialEq, Eq, Structural)]
pub struct NodeTerm {
    pub node: usize,
    pub degree: usize,
    pub weight: u128,
}

/// The weighted clustering of a graph, in exact numbers: the largest edge
/// weight, the number of nodes, and the part of each node that has two
/// neighbors or more, in ascending order of the nodes. The coefficient of the
/// graph is the sum of the coefficients of these nodes over the number of all
/// nodes.
pub struct WeightedClustering {
    pub w_max: usize,
    pub nodes: usize,
    pub terms: Vec<NodeTerm>,
}

/// The graph has an edge.
pub open spec fn has_edges(rows: Map<usize, Map<usize, usize>>) -> bool {
    exists|v: usize, u: usize| #[trigger] adjacent(rows, v, u)
}

/// `w` is the largest weight of any edge, or 1 where there is no edge.
pub open spec fn is_max_weight(rows: Map<usize, Map<usize, usize>>, w: usize) -> bool {
    &&& forall|v: usize, u: usize| #[trigger] adjacent(rows, v, u) ==> rows[v][u] <= w
    &&& if has_edges(rows) {
        exists|v: usize, u: usize| #[trigger] adjacent(rows, v, u) && rows[v][u] == w
    } else {
        w == 1
    }
}

/// `v` is a node with two neighbors or more: it has a part in the weighted
/// clustering.
pub open spec fn counted(rows: Map<usize, Map<usize, usize>>, v: usize) -> bool {
    rows.dom().contains(v) && degree(rows, v) >= 2
}

/// The closed walks at some node with a part carry a weight that does not
/// fit in 128 bits.
pub open spec fn heavy(rows: Map<usize, Map<usize, usize>>) -> bool {
    exists|v: usize| #[trigger] counted(rows, v) && walk_weight(rows, v) > u128::MAX
}

/// Some term is the part of `v`.
pub open spec fn has_term(terms: Seq<NodeTerm>, v: usize) -> bool {
    exists|i: int| 0 <= i < terms.len() && (#[trigger] terms[i]).node == v
}

/// `terms` are the parts of the nodes with two neighbors or more, each once,
/// in ascending order of the nodes.
pub open spec fn is_terms_of(terms: Seq<NodeTerm>, rows: Map<usize, Map<usize, usize>>) -> bool {
    &&& forall|i: int, j: int|
        0 <= i < j < terms.len() ==> (#[trigger] terms[i]).node < (#[trigger] terms[j]).node
    &&& forall|v: usize| #[trigger] counted(rows, v) <==> has_term(terms, v)
    &&& forall|i: int|
        0 <= i < terms.len() ==> (#[trigger] terms[i]).degree == degree(rows, terms[i].node)
            && terms[i].weight == walk_weight(rows, terms[i].node)
}

/// `found` is the weighted clustering of the graph: an error where the graph
/// has no node, or where the closed walks at some node carry too much weight.
pub open spec fn is_weighted_clustering(
    rows: Map<usize, Map<usize, usize>>,
    found: Result<WeightedClustering, StatsError>,
) -> bool {
    if rows.dom().len() == 0 {
        found matches Err(e) && e == StatsError::EmptyGraph
    } else if heavy(rows) {
        found matches Err(e) && e == StatsError::Overflow
    } else {
        found matches Ok(c) && c.nodes == rows.dom().len() && is_max_weight(rows, c.w_max)
            && is_terms_of(c.terms@, rows)
    }
}

/// The largest value of a row, or `None` for an empty row.
pub fn row_max(row: &Row) -> (max: Option<usize>)
    ensures
        match max {
            None => row_entries(*row).dom() =~= Set::<usize>::empty(),
            Some(m) => (forall|u: usize| #[trigger]
                row_entries(*row).dom().contains(u) ==> row_entries(*row)[u] <= m) && exists|
                u: usize,
            | #[trigger] row_entries(*row).dom().contains(u) && row_entries(*row)[u] == m,
        },
{
    let items = row_items(row);
    let n = items.len();
    let ghost m = row_entries(*row);
    let mut max: Option<usize> = None;
    for i in 0..n
        invariant
            n == items@.len(),
            m == row_entries(*row),
            lists(firsts(items@), m.dom()),
            forall|k: int| 0 <= k < items@.len() ==> (#[trigger] items@[k]).1 == m[items@[k].0],
            max is None <==> i == 0,
            max matches Some(best) ==> (forall|k: int| 0 <= k < i ==> (#[trigger] items@[k]).1
                <= best) && exists|k: int| 0 <= k < i && (#[trigger] items@[k]).1 == best,
    {
        let value = items[i].1;
        match max {
            None => {
                max = Some(value);
                assert(items@[i as int].1 == value);
            },
            Some(best) => {
                let ghost w = choose|k: int| 0 <= k < i && (#[trigger] items@[k]).1 == best;
                if value > best {
                    max = Some(value);
                    assert(items@[i as int].1 == value);
                } else {
                    assert(0 <= w < i + 1 && items@[w].1 == best);
                }
            },
        }
    }
    proof {
        let order = firsts(items@);
        match max {
            None => {
                assert forall|u: usize| !m.dom().contains(u) by {
                    if m.dom().contains(u) {
                        assert(order.to_set().contains(u));
                    }
                }
            },
            Some(best) => {
                assert forall|u: usize| #[trigger] m.dom().contains(u) implies m[u] <= best by {
                    assert(order.to_set().contains(u));
                    let k = choose|k: int| 0 <= k < order.len() && order[k] == u;
                    assert(items@[k].1 == m[items@[k].0]);
                }
                let k = choose|k: int| 0 <= k < n && (#[trigger] items@[k]).1 == best;
                assert(order[k] == items@[k].0);
                assert(order.to_set().contains(order[k]));
                assert(m.dom().contains(items@[k].0) && m[items@[k].0] == best);
            },
        }
    }
    max
}

/// `max` holds a value, and `w` is not above it.
pub open spec fn covers(max: Option<usize>, w: usize) -> bool {
    max matches Some(best) && w <= best
}

/// The largest weight of any edge of the graph, or 1 where it has no edge.
pub fn max_weight(g: &Graph) -> (w: usize)
    ensures
        is_max_weight(graph_rows(*g), w),
{
    let nodes = graph_keys(g);
    let n = nodes.len();
    let ghost rows = graph_rows(*g);
    let mut max: Option<usize> = None;
    for i in 0..n
        invariant
            n == nodes@.len(),
            rows == graph_rows(*g),
            lists(nodes@, rows.dom()),
            forall|k: int, u: usize|
                0 <= k < i && #[trigger] adjacent(rows, nodes@[k], u) ==> covers(
                    max,
                    rows[nodes@[k]][u],
                ),
            max matches Some(best) ==> exists|v: usize, u: usize| #[trigger]
                adjacent(rows, v, u) && rows[v][u] == best,
    {
        assert(nodes@.to_set().contains(nodes@[i as int]));
        match graph_get(g, nodes[i]) {
            None => {
                assert(false);
            },
            Some(row) => {
                match row_max(row) {
                    None => {
                        assert forall|u: usize| !adjacent(rows, nodes@[i as int], u) by {
                            assert(!row_entries(*row).dom().contains(u));
                        }
                    },
                    Some(m) => {
                        let ghost at = choose|u: usize| #[trigger]
                            row_entries(*row).dom().contains(u) && row_entries(*row)[u] == m;
                        assert(adjacent(rows, nodes@[i as int], at) && rows[nodes@[i as int]][at]
                            == m);
                        let ghost previous = max;
                        match max {
                            None => {
                                max = Some(m);
                            },
                            Some(best) => {
                                if m > best {
                                    max = Some(m);
                                }
                            },
                        }
                        assert forall|k: int, u: usize|
                            0 <= k < i + 1 && #[trigger] adjacent(
                                rows,
                                nodes@[k],
                                u,
                            ) implies covers(max, rows[nodes@[k]][u]) by {
                            if k == i {
                                assert(row_entries(*row).dom().contains(u));
                            }
                        }
                    },
                }
            },
        }
    }
    proof {
        assert forall|v: usize, u: usize| #[trigger] adjacent(rows, v, u) implies covers(
            max,
            rows[v][u],
        ) by {
            assert(nodes@.to_set().contains(v));
            let k = choose|k: int| 0 <= k < nodes@.len() && nodes@[k] == v;
            assert(adjacent(rows, nodes@[k], u));
        }
    }
    match max {
        Some(best) => best,
        None => 1,
    }
}

/// `v` is among the first `i` of `nodes`.
pub open spec fn among(nodes: Seq<usize>, i: int, v: usize) -> bool {
    exists|k: int| 0 <= k < i && nodes[k] == v
}

/// The weighted clustering of a graph.
pub fn compute_weighted_clustering_coefficient(matrix: &Graph) -> (found: Result<
    WeightedClustering,
    StatsError,
>)
    ensures
        graph_rows(*matrix).dom().finite(),
        is_weighted_clustering(graph_rows(*matrix), found),
{
    let ghost rows = graph_rows(*matrix);
    let nodes = sorted_nodes(matrix);
    let n = nodes.len();
    proof {
        lemma_listing_len(nodes@, rows.dom());
    }
    if n == 0 {
        return Err(StatsError::EmptyGraph);
    }
    let w_max = max_weight(matrix);
    let mut terms: Vec<NodeTerm> = Vec::new();
    for i in 0..n
        invariant
            n == nodes@.len(),
            rows == graph_rows(*matrix),
            lists(nodes@, rows.dom()),
            ascending(nodes@),
            forall|p: int|
                0 <= p < terms@.len() ==> among(nodes@, i as int, (#[trigger] terms@[p]).node),
            forall|p: int, q: int|
                0 <= p < q < terms@.len() ==> (#[trigger] terms@[p]).node < (#[trigger] terms@[q]).node,
            forall|k: int|
                0 <= k < i && counted(rows, #[trigger] nodes@[k]) ==> has_term(terms@, nodes@[k]),
            forall|p: int|
                0 <= p < terms@.len() ==> counted(rows, (#[trigger] terms@[p]).node)
                    && terms@[p].degree == degree(rows, terms@[p].node) && terms@[p].weight
                    == walk_weight(rows, terms@[p].node),
    {
        let node = nodes[i];
        assert(nodes@.to_set().contains(nodes@[i as int]));
        let k = degree_of(matrix, node);
        let ghost before = terms@;
        if k >= 2 {
            match walk_weight_at(matrix, node) {
                None => {
                    assert(counted(rows, node) && walk_weight(rows, node) > u128::MAX);
                    return Err(StatsError::Overflow);
                },
                Some(weight) => {
                    terms.push(NodeTerm { node, degree: k, weight });
                    proof {
                        assert forall|p: int, q: int| 0 <= p < q < terms@.len() implies (
                        #[trigger] terms@[p]).node < (#[trigger] terms@[q]).node by {
                            if q == terms@.len() - 1 {
                                assert(terms@[p] == before[p]);
                                assert(among(nodes@, i as int, before[p].node));
                                let at = choose|at: int|
                                    0 <= at < i && nodes@[at] == before[p].node;
                                assert(nodes@[at] < nodes@[i as int]);
                            } else {
                                assert(terms@[p] == before[p] && terms@[q] == before[q]);
                            }
                        }
                        assert forall|p: int| 0 <= p < terms@.len() implies among(
                            nodes@,
                            i + 1,
                            (#[trigger] terms@[p]).node,
                        ) by {
                            if p == terms@.len() - 1 {
                                assert(0 <= i < i + 1 && nodes@[i as int] == terms@[p].node);
                            } else {
                                assert(terms@[p] == before[p]);
                                assert(among(nodes@, i as int, before[p].node));
                                let at = choose|at: int|
                                    0 <= at < i && nodes@[at] == before[p].node;
                                assert(0 <= at < i + 1 && nodes@[at] == terms@[p].node);
                            }
                        }
                        assert forall|at: int|
                            0 <= at < i + 1 && counted(rows, #[trigger] nodes@[at]) implies has_term(
                            terms@,
                            nodes@[at],
                        ) by {
                            if at == i {
                                assert(terms@[terms@.len() - 1].node == node);
                            } else {
                                assert(has_term(before, nodes@[at]));
                                let p = choose|p: int|
                                    0 <= p < before.len() && (#[trigger] before[p]).node
                                        == nodes@[at];
                                assert(terms@[p].node == nodes@[at]);
                            }
                        }
                    }
                },
            }
        } else {
            assert forall|p: int| 0 <= p < terms@.len() implies among(
                nodes@,
                i + 1,
                (#[trigger] terms@[p]).node,
            ) by {
                assert(among(nodes@, i as int, terms@[p].node));
                let at = choose|at: int| 0 <= at < i && nodes@[at] == terms@[p].node;
                assert(0 <= at < i + 1 && nodes@[at] == terms@[p].node);
            }
        }
    }
    proof {
        assert forall|v: usize| #[trigger] counted(rows, v) <==> has_term(terms@, v) by {
            if counted(rows, v) {
                assert(nodes@.to_set().contains(v));
                let k = choose|k: int| 0 <= k < nodes@.len() && nodes@[k] == v;
                assert(counted(rows, nodes@[k]));
            }
            if has_term(terms@, v) {
                let p = choose|p: int| 0 <= p < terms@.len() && (#[trigger] terms@[p]).node == v;
                assert(counted(rows, terms@[p].node));
            }
        }
        assert(!heavy(rows)) by {
            if heavy(rows) {
                let v = choose|v: usize| #[trigger]
                    counted(rows, v) && walk_weight(rows, v) > u128::MAX;
                assert(has_term(terms@, v));
                let p = choose|p: int| 0 <= p < terms@.len() && (#[trigger] terms@[p]).node == v;
                assert(terms@[p].weight == walk_weight(rows, terms@[p].node));
            }
        }
    }
    Ok(WeightedClustering { w_max, nodes: n, terms })
}

/// The value under a key, 0 where the key is absent, as a function of the key.
pub open spec fn value_fn(m: Map<usize, usize>) -> spec_fn(usize) -> nat {
    |u: usize| value_or(m, u, 0) as nat
}

/// The weighted degree of `v`: the sum of the weights of its edges.
pub open spec fn weighted_degree(rows: Map<usize, Map<usize, usize>>, v: usize) -> nat {
    set_sum(neighbors(rows, v), value_fn(row_or_empty(rows, v)))
}

/// `weighted_degree`, as a function of the node.
pub open spec fn weighted_degree_fn(rows: Map<usize, Map<usize, usize>>) -> spec_fn(usize) -> nat {
    |v: usize| weighted_degree(rows, v)
}

/// The sum of the weights of all edges.
pub open spec fn total_weight(rows: Map<usize, Map<usize, usize>>) -> nat {
    set_sum(rows.dom(), weighted_degree_fn(rows))
}

/// The degrees and the weighted clustering of one graph, in exact numbers:
/// the average degree is `degree_sum` over `nodes`, and the average weighted
/// degree is `weight_sum` over `nodes`.
pub struct GraphStats {
    pub nodes: usize,
    pub degree_sum: u128,
    pub weight_sum: u128,
    pub clustering: WeightedClustering,
}

/// `found` holds the degrees and the weighted clustering of the graph: an
/// error where the graph has no node, or where the weights of all edges, or
/// of the closed walks at some node, do not fit in 128 bits.
pub open spec fn is_graph_stats(
    rows: Map<usize, Map<usize, usize>>,
    found: Result<GraphStats, StatsError>,
) -> bool {
    if rows.dom().len() == 0 {
        found matches Err(e) && e == StatsError::EmptyGraph
    } else if total_weight(rows) > u128::MAX || heavy(rows) {
        found matches Err(e) && e == StatsError::Overflow
    } else {
        found matches Ok(s) && s.nodes == rows.dom().len() && s.degree_sum == total_degree(rows)
            && s.weight_sum == total_weight(rows) && s.clustering.nodes == s.nodes
            && is_max_weight(rows, s.clustering.w_max) && is_terms_of(s.clustering.terms@, rows)
    }
}

/// The weighted degree of `node`.
pub fn weighted_degree_of(g: &Graph, node: usize) -> (sum: u128)
    ensures
        sum == weighted_degree(graph_rows(*g), node),
{
    let ghost rows = graph_rows(*g);
    match graph_get(g, node) {
        None => {
            assert(weighted_degree(rows, node) == 0);
            0
        },
        Some(row) => {
            let items = row_items(row);
            let n = items.len();
            let ghost order = firsts(items@);
            let ghost f = value_fn(row_or_empty(rows, node));
            let mut sum: u128 = 0;
            for i in 0..n
                invariant
                    n == items@.len(),
                    order == firsts(items@),
                    rows == graph_rows(*g),
                    rows.dom().contains(node),
                    f == value_fn(row_or_empty(rows, node)),
                    lists(order, rows[node].dom()),
                    forall|k: int|
                        0 <= k < items@.len() ==> (#[trigger] items@[k]).1
                            == rows[node][items@[k].0],
                    sum == prefix_sum(order, f, i as int),
                    sum <= i * usize::MAX,
            {
                assert(order[i as int] == items@[i as int].0);
                assert(order.to_set().contains(order[i as int]));
                proof {
                    lemma_words_fit(i as nat, n as nat);
                }
                sum = sum + items[i].1 as u128;
            }
            proof {
                lemma_sum_of_listing(order, neighbors(rows, node), f);
            }
            sum
        },
    }
}

/// The degrees and the weighted clustering of one graph.
pub fn degrees_and_clustering(g: &Graph) -> (found: Result<GraphStats, StatsError>)
    ensures
        graph_rows(*g).dom().finite(),
        is_graph_stats(graph_rows(*g), found),
{
    let ghost rows = graph_rows(*g);
    let clustering = compute_weighted_clustering_coefficient(g);
    let nodes = graph_keys(g);
    let n = nodes.len();
    proof {
        lemma_listing_len(nodes@, rows.dom());
        lemma_sum_of_listing(nodes@, rows.dom(), degree_fn(rows));
        lemma_sum_of_listing(nodes@, rows.dom(), weighted_degree_fn(rows));
    }
    if n == 0 {
        return Err(StatsError::EmptyGraph);
    }
    let mut degree_sum: u128 = 0;
    let mut weight_sum: u128 = 0;
    for i in 0..n
        invariant
            n == nodes@.len(),
            rows == graph_rows(*g),
            degree_sum == prefix_sum(nodes@, degree_fn(rows), i as int),
            degree_sum <= i * usize::MAX,
            weight_sum == prefix_sum(nodes@, weighted_degree_fn(rows), i as int),
            total_weight(rows) == prefix_sum(nodes@, weighted_degree_fn(rows), n as int),
            n > 0,
            rows.dom().finite(),
            rows.dom().len() == n,
    {
        let d = degree_of(g, nodes[i]);
        proof {
            lemma_words_fit(i as nat, n as nat);
        }
        degree_sum = degree_sum + d as u128;
        let w = weighted_degree_of(g, nodes[i]);
        match weight_sum.checked_add(w) {
            Some(next) => {
                weight_sum = next;
            },
            None => {
                proof {
                    lemma_prefix_sum_grows(nodes@, weighted_degree_fn(rows), i + 1, n as int);
                }
                return Err(StatsError::Overflow);
            },
        }
    }
    match clustering {
        Err(e) => Err(e),
        Ok(c) => Ok(GraphStats { nodes: n, degree_sum, weight_sum, clustering: c }),
    }
}

/// For each year of the timeline, the degrees and the weighted clustering of
/// its graph. The years stand in the order in which the timeline is walked.
pub fn compute_degrees_and_weighted_clustering(data: &Timeline) -> (result: Vec<
    (u32, Result<GraphStats, StatsError>),
>)
    ensures
        lists(years_of_stats(result@), timeline_graphs(*data).dom()),
        forall|i: int|
            0 <= i < result@.len() ==> is_graph_stats(
                timeline_graphs(*data)[(#[trigger] result@[i]).0],
                result@[i].1,
            ),
{
    let years = timeline_keys(data);
    let n = years.len();
    let mut result: Vec<(u32, Result<GraphStats, StatsError>)> = Vec::new();
    for i in 0..n
        invariant
            n == years@.len(),
            lists(years@, timeline_graphs(*data).dom()),
            result@.len() == i,
            forall|k: int| 0 <= k < i ==> (#[trigger] result@[k]).0 == years@[k],
            forall|k: int|
                0 <= k < i ==> is_graph_stats(
                    timeline_graphs(*data)[(#[trigger] result@[k]).0],
                    result@[k].1,
                ),
    {
        assert(years@.to_set().contains(years@[i as int]));
        match timeline_get(data, years[i]) {
            None => {
                assert(false);
            },
            Some(g) => {
                let found = degrees_and_clustering(g);
                result.push((years[i], found));
            },
        }
    }
    assert(years_of_stats(result@) =~= years@);
    result
}

/// The years of the statistics.
pub open spec fn years_of_stats(result: Seq<(u32, Result<GraphStats, StatsError>)>) -> Seq<u32> {
    Seq::new(result.len(), |i: int| result[i].0)
}

/// Adding the weights of `part` to those of `total` would make some weight
/// too large for `usize`.
pub open spec fn graph_overflows(
    total: Map<usize, Map<usize, usize>>,
    part: Map<usize, Map<usize, usize>>,
) -> bool {
    exists|a: usize| #[trigger]
        part.dom().contains(a) && merge_overflows(row_or_empty(total, a), part[a])
}

/// `sum` is `total` with the weights of `part` added, edge by edge: it has
/// the nodes of both, each with the edges that it has in either, and each
/// edge with the sum of its two weights.
pub open spec fn is_graph_sum(
    sum: Map<usize, Map<usize, usize>>,
    total: Map<usize, Map<usize, usize>>,
    part: Map<usize, Map<usize, usize>>,
) -> bool {
    &&& forall|a: usize| sum.dom().contains(a) <==> total.dom().contains(a) || part.dom().contains(a)
    &&& forall|a: usize| #[trigger]
        sum.dom().contains(a) ==> holds_counts(
            sum[a],
            merged(row_or_empty(total, a), row_or_empty(part, a)),
        )
}

/// Adds the weights of `part` to those of `total`, edge by edge. Returns
/// whether every sum fits in `usize`; where one does not, `total` is left
/// with some of the weights added.
pub fn add_graph(total: &mut Graph, part: &Graph) -> (fits: bool)
    ensures
        fits == !graph_overflows(graph_rows(*old(total)), graph_rows(*part)),
        fits ==> is_graph_sum(
            graph_rows(*final(total)),
            graph_rows(*old(total)),
            graph_rows(*part),
        ),
{
    let nodes = graph_keys(part);
    let n = nodes.len();
    let ghost before = graph_rows(*total);
    let ghost added = graph_rows(*part);
    for i in 0..n
        invariant
            n == nodes@.len(),
            before == graph_rows(*old(total)),
            added == graph_rows(*part),
            lists(nodes@, added.dom()),
            forall|k: int|
                0 <= k < i ==> !merge_overflows(
                    row_or_empty(before, #[trigger] nodes@[k]),
                    added[nodes@[k]],
                ),
            forall|a: usize|
                graph_rows(*total).dom().contains(a) <==> before.dom().contains(a) || among(
                    nodes@,
                    i as int,
                    a,
                ),
            forall|a: usize| #[trigger]
                graph_rows(*total).dom().contains(a) ==> if among(nodes@, i as int, a) {
                    holds_counts(
                        graph_rows(*total)[a],
                        merged(row_or_empty(before, a), row_or_empty(added, a)),
                    )
                } else {
                    graph_rows(*total)[a] == before[a]
                },
    {
        let node = nodes[i];
        assert(nodes@.to_set().contains(nodes@[i as int]));
        let ghost held = graph_rows(*total);
        assert(!among(nodes@, i as int, node)) by {
            if among(nodes@, i as int, node) {
                let k = choose|k: int| 0 <= k < i && nodes@[k] == node;
                assert(nodes@[k] == nodes@[i as int]);
            }
        }
        assert(row_or_empty(held, node) == row_or_empty(before, node));
        match graph_get(part, node) {
            None => {
                assert(false);
            },
            Some(row) => {
                let target = graph_row_mut(total, node);
                let fits = merge_counts(target, row);
                if !fits {
                    assert(graph_overflows(before, added));
                    return false;
                }
                proof {
                    let now = graph_rows(*total);
                    assert forall|a: usize|
                        now.dom().contains(a) <==> before.dom().contains(a) || among(
                            nodes@,
                            i + 1,
                            a,
                        ) by {
                        if among(nodes@, i as int, a) {
                            let k = choose|k: int| 0 <= k < i && nodes@[k] == a;
                            assert(0 <= k < i + 1 && nodes@[k] == a);
                        }
                        if among(nodes@, i + 1, a) && a != node {
                            let k = choose|k: int| 0 <= k < i + 1 && nodes@[k] == a;
                            assert(0 <= k < i && nodes@[k] == a);
                        }
                        if a == node {
                            assert(0 <= i < i + 1 && nodes@[i as int] == a);
                        }
                    }
                    assert forall|a: usize| #[trigger] now.dom().contains(a) implies if among(
                        nodes@,
                        i + 1,
                        a,
                    ) {
                        holds_counts(
                            now[a],
                            merged(row_or_empty(before, a), row_or_empty(added, a)),
                        )
                    } else {
                        now[a] == before[a]
                    } by {
                        if a == node {
                            assert(0 <= i < i + 1 && nodes@[i as int] == a);
                        } else {
                            assert(held.dom().contains(a));
                            if among(nodes@, i as int, a) {
                                let k = choose|k: int| 0 <= k < i && nodes@[k] == a;
                                assert(0 <= k < i + 1 && nodes@[k] == a);
                            }
                            if among(nodes@, i + 1, a) {
                                let k = choose|k: int| 0 <= k < i + 1 && nodes@[k] == a;
                                assert(0 <= k < i && nodes@[k] == a);
                            }
                        }
                    }
                }
            },
        }
    }
    proof {
        let now = graph_rows(*total);
        assert forall|a: usize| added.dom().contains(a) <==> among(nodes@, n as int, a) by {
            if added.dom().contains(a) {
                assert(nodes@.to_set().contains(a));
                let k = choose|k: int| 0 <= k < nodes@.len() && nodes@[k] == a;
                assert(0 <= k < n && nodes@[k] == a);
            }
            if among(nodes@, n as int, a) {
                let k = choose|k: int| 0 <= k < n && nodes@[k] == a;
                assert(nodes@.to_set().contains(nodes@[k]));
            }
        }
        assert forall|a: usize| #[trigger] now.dom().contains(a) implies holds_counts(
            now[a],
            merged(row_or_empty(before, a), row_or_empty(added, a)),
        ) by {
            if !among(nodes@, n as int, a) {
                assert(now[a] == before[a]);
                assert(merged(before[a], Map::<usize, usize>::empty()).dom() =~= before[a].dom());
            }
        }
        assert(!graph_overflows(before, added)) by {
            if graph_overflows(before, added) {
                let a = choose|a: usize| #[trigger]
                    added.dom().contains(a) && merge_overflows(row_or_empty(before, a), added[a]);
                let k = choose|k: int| 0 <= k < n && nodes@[k] == a;
                assert(!merge_overflows(row_or_empty(before, nodes@[k]), added[nodes@[k]]));
            }
        }
    }
    true
}

/// The weight of the edge from `a` to `b` in the graph of a year, as a
/// function of the year.
pub open spec fn weight_of_year(
    graphs: Map<u32, Map<usize, Map<usize, usize>>>,
    a: usize,
    b: usize,
) -> spec_fn(u32) -> nat {
    |y: u32| weight_in(graphs, y, a, b)
}

/// The weight of the edge from `a` to `b`, summed over all years.
pub open spec fn summed_weight(
    graphs: Map<u32, Map<usize, Map<usize, usize>>>,
    a: usize,
    b: usize,
) -> nat {
    set_sum(graphs.dom(), weight_of_year(graphs, a, b))
}

/// `a` is a node of the graph of one of the first `i` of `years`.
pub open spec fn in_years(
    graphs: Map<u32, Map<usize, Map<usize, usize>>>,
    years: Seq<u32>,
    i: int,
    a: usize,
) -> bool {
    exists|k: int| 0 <= k < i && graphs[#[trigger] years[k]].dom().contains(a)
}

/// The edge from `a` to `b` is in the graph of one of the first `i` of
/// `years`.
pub open spec fn edge_in_years(
    graphs: Map<u32, Map<usize, Map<usize, usize>>>,
    years: Seq<u32>,
    i: int,
    a: usize,
    b: usize,
) -> bool {
    exists|k: int| 0 <= k < i && adjacent(graphs[#[trigger] years[k]], a, b)
}

/// `a` is a node of the graph of some year.
pub open spec fn in_some_year(graphs: Map<u32, Map<usize, Map<usize, usize>>>, a: usize) -> bool {
    exists|y: u32| #[trigger] graphs.dom().contains(y) && graphs[y].dom().contains(a)
}

/// The edge from `a` to `b` is in the graph of some year.
pub open spec fn edge_in_some_year(
    graphs: Map<u32, Map<usize, Map<usize, usize>>>,
    a: usize,
    b: usize,
) -> bool {
    exists|y: u32| #[trigger] graphs.dom().contains(y) && adjacent(graphs[y], a, b)
}

/// Some edge, summed over all years, weighs more than fits in `usize`.
pub open spec fn sums_too_heavy(graphs: Map<u32, Map<usize, Map<usize, usize>>>) -> bool {
    exists|a: usize, b: usize| #[trigger] summed_weight(graphs, a, b) > usize::MAX
}

/// `rows` is the aggregate of the timeline: the nodes and edges of all years,
/// each edge with its weights of all years summed.
pub open spec fn is_aggregate(
    rows: Map<usize, Map<usize, usize>>,
    graphs: Map<u32, Map<usize, Map<usize, usize>>>,
) -> bool {
    &&& forall|a: usize| rows.dom().contains(a) <==> in_some_year(graphs, a)
    &&& forall|a: usize, b: usize| #[trigger] adjacent(rows, a, b) <==> edge_in_some_year(graphs, a, b)
    &&& forall|a: usize, b: usize| #[trigger]
        edge_weight(rows, a, b) == summed_weight(graphs, a, b)
}

/// `found` is what aggregating the timeline comes to: an error where some
/// summed weight does not fit in `usize`, the aggregate otherwise.
pub open spec fn is_aggregated(
    found: Result<Graph, StatsError>,
    graphs: Map<u32, Map<usize, Map<usize, usize>>>,
) -> bool {
    if sums_too_heavy(graphs) {
        found matches Err(e) && e == StatsError::Overflow
    } else {
        found matches Ok(g) && is_aggregate(graph_rows(g), graphs)
    }
}

/// In a sum of two graphs, an edge is an edge of one of the two, and weighs
/// what it weighs in both together.
pub proof fn lemma_graph_sum(
    sum: Map<usize, Map<usize, usize>>,
    total: Map<usize, Map<usize, usize>>,
    part: Map<usize, Map<usize, usize>>,
    a: usize,
    b: usize,
)
    requires
        is_graph_sum(sum, total, part),
    ensures
        adjacent(sum, a, b) <==> adjacent(total, a, b) || adjacent(part, a, b),
        edge_weight(sum, a, b) == edge_weight(total, a, b) + edge_weight(part, a, b),
{
    if sum.dom().contains(a) {
        let both = merged(row_or_empty(total, a), row_or_empty(part, a));
        assert(holds_counts(sum[a], both));
        assert(sum[a].dom().contains(b) <==> both.dom().contains(b));
    }
}

/// The aggregate of the timeline: one graph with the weights of all years
/// summed, edge by edge.
pub fn aggregate_weights(data: &Timeline) -> (found: Result<Graph, StatsError>)
    ensures
        is_aggregated(found, timeline_graphs(*data)),
{
    let ghost graphs = timeline_graphs(*data);
    let years = timeline_keys(data);
    let n = years.len();
    let mut aggregate = graph_new();
    for i in 0..n
        invariant
            n == years@.len(),
            graphs == timeline_graphs(*data),
            lists(years@, graphs.dom()),
            forall|a: usize| graph_rows(aggregate).dom().contains(a) <==> in_years(
                graphs,
                years@,
                i as int,
                a,
            ),
            forall|a: usize, b: usize| #[trigger]
                adjacent(graph_rows(aggregate), a, b) <==> edge_in_years(
                    graphs,
                    years@,
                    i as int,
                    a,
                    b,
                ),
            forall|a: usize, b: usize| #[trigger]
                edge_weight(graph_rows(aggregate), a, b) == prefix_sum(
                    years@,
                    weight_of_year(graphs, a, b),
                    i as int,
                ),
    {
        let year = years[i];
        assert(years@.to_set().contains(years@[i as int]));
        let ghost before = graph_rows(aggregate);
        match timeline_get(data, year) {
            None => {
                assert(false);
            },
            Some(g) => {
                let ghost part = graph_rows(*g);
                let fits = add_graph(&mut aggregate, g);
                if !fits {
                    proof {
                        let a = choose|a: usize| #[trigger]
                            part.dom().contains(a) && merge_overflows(
                                row_or_empty(before, a),
                                part[a],
                            );
                        let b = choose|b: usize| #[trigger]
                            part[a].dom().contains(b) && value_or(row_or_empty(before, a), b, 0)
                                + part[a][b] > usize::MAX;
                        assert(edge_weight(before, a, b) == value_or(row_or_empty(before, a), b, 0));
                        assert(weight_in(graphs, year, a, b) == part[a][b]);
                        assert(edge_weight(before, a, b) == prefix_sum(
                            years@,
                            weight_of_year(graphs, a, b),
                            i as int,
                        ));
                        lemma_prefix_sum_grows(
                            years@,
                            weight_of_year(graphs, a, b),
                            i + 1,
                            n as int,
                        );
                        lemma_sum_of_listing(years@, graphs.dom(), weight_of_year(graphs, a, b));
                        assert(summed_weight(graphs, a, b) > usize::MAX);
                    }
                    return Err(StatsError::Overflow);
                }
                proof {
                    let now = graph_rows(aggregate);
                    assert forall|a: usize| now.dom().contains(a) <==> in_years(
                        graphs,
                        years@,
                        i + 1,
                        a,
                    ) by {
                        if in_years(graphs, years@, i as int, a) {
                            let k = choose|k: int|
                                0 <= k < i && graphs[#[trigger] years@[k]].dom().contains(a);
                            assert(0 <= k < i + 1 && graphs[years@[k]].dom().contains(a));
                        }
                        if in_years(graphs, years@, i + 1, a) {
                            let k = choose|k: int|
                                0 <= k < i + 1 && graphs[#[trigger] years@[k]].dom().contains(a);
                            if k < i {
                                assert(in_years(graphs, years@, i as int, a));
                            }
                        }
                        if part.dom().contains(a) {
                            assert(0 <= i < i + 1 && graphs[years@[i as int]].dom().contains(a));
                        }
                    }
                    assert forall|a: usize, b: usize| #[trigger]
                        adjacent(now, a, b) <==> edge_in_years(graphs, years@, i + 1, a, b) by {
                        lemma_graph_sum(now, before, part, a, b);
                        if edge_in_years(graphs, years@, i as int, a, b) {
                            let k = choose|k: int|
                                0 <= k < i && adjacent(graphs[#[trigger] years@[k]], a, b);
                            assert(0 <= k < i + 1 && adjacent(graphs[years@[k]], a, b));
                        }
                        if edge_in_years(graphs, years@, i + 1, a, b) {
                            let k = choose|k: int|
                                0 <= k < i + 1 && adjacent(graphs[#[trigger] years@[k]], a, b);
                            if k < i {
                                assert(edge_in_years(graphs, years@, i as int, a, b));
                            }
                        }
                        if adjacent(part, a, b) {
                            assert(0 <= i < i + 1 && adjacent(graphs[years@[i as int]], a, b));
                        }
                    }
                    assert forall|a: usize, b: usize| #[trigger]
                        edge_weight(now, a, b) == prefix_sum(
                            years@,
                            weight_of_year(graphs, a, b),
                            i + 1,
                        ) by {
                        lemma_graph_sum(now, before, part, a, b);
                        assert(weight_in(graphs, year, a, b) == edge_weight(part, a, b));
                        assert(edge_weight(before, a, b) == prefix_sum(
                            years@,
                            weight_of_year(graphs, a, b),
                            i as int,
                        ));
                    }
                }
            },
        }
    }
    proof {
        let rows = graph_rows(aggregate);
        assert forall|a: usize, b: usize| #[trigger]
            edge_weight(rows, a, b) == summed_weight(graphs, a, b) by {
            lemma_sum_of_listing(years@, graphs.dom(), weight_of_year(graphs, a, b));
            assert(edge_weight(rows, a, b) == prefix_sum(
                years@,
                weight_of_year(graphs, a, b),
                n as int,
            ));
        }
        assert forall|a: usize| rows.dom().contains(a) <==> in_some_year(graphs, a) by {
            if in_years(graphs, years@, n as int, a) {
                let k = choose|k: int| 0 <= k < n && graphs[#[trigger] years@[k]].dom().contains(a);
                assert(years@.to_set().contains(years@[k]));
            }
            if in_some_year(graphs, a) {
                let y = choose|y: u32| #[trigger]
                    graphs.dom().contains(y) && graphs[y].dom().contains(a);
                assert(years@.to_set().contains(y));
                let k = choose|k: int| 0 <= k < years@.len() && years@[k] == y;
                assert(0 <= k < n && graphs[years@[k]].dom().contains(a));
            }
        }
        assert forall|a: usize, b: usize| #[trigger]
            adjacent(rows, a, b) <==> edge_in_some_year(graphs, a, b) by {
            if edge_in_years(graphs, years@, n as int, a, b) {
                let k = choose|k: int| 0 <= k < n && adjacent(graphs[#[trigger] years@[k]], a, b);
                assert(years@.to_set().contains(years@[k]));
            }
            if edge_in_some_year(graphs, a, b) {
                let y = choose|y: u32| #[trigger]
                    graphs.dom().contains(y) && adjacent(graphs[y], a, b);
                assert(years@.to_set().contains(y));
                let k = choose|k: int| 0 <= k < years@.len() && years@[k] == y;
                assert(0 <= k < n && adjacent(graphs[years@[k]], a, b));
            }
        }
        assert(!sums_too_heavy(graphs)) by {
            if sums_too_heavy(graphs) {
                let (a, b) = choose|a: usize, b: usize| #[trigger]
                    summed_weight(graphs, a, b) > usize::MAX;
                assert(edge_weight(rows, a, b) == summed_weight(graphs, a, b));
            }
        }
    }
    Ok(aggregate)
}

/// The heaviest edge of a graph, with the number of nodes of the graph: the
/// average weight of the edge is `weight` over `nodes`.
#[derive(Clone, Copy, Debug, PartialEq, Eq, Structural)]
pub struct Heaviest {
    pub author1: usize,
    pub author2: usize,
    pub weight: usize,
    pub nodes: usize,
}

/// `(key, weight)` is the heaviest entry of `m`: no entry is heavier, and of
/// the entries of that weight it has the smallest key. Where every weight is
/// 0 there is none.
pub open spec fn is_heaviest_entry(m: Map<usize, usize>, found: Option<(usize, usize)>) -> bool {
    match found {
        None => forall|c: usize| #[trigger] m.dom().contains(c) ==> m[c] == 0,
        Some((key, weight)) => {
            &&& m.dom().contains(key)
            &&& m[key] == weight
            &&& weight > 0
            &&& forall|c: usize| #[trigger]
                m.dom().contains(c) ==> m[c] <= weight && (m[c] == weight ==> key <= c)
        },
    }
}

/// `h` names the heaviest edge of the graph: no edge is heavier, and of the
/// edges of that weight it is the first, by its source and then by its
/// target. Where no edge has a positive weight, `h` names the nodes 0 and 0
/// with weight 0.
pub open spec fn is_heaviest(rows: Map<usize, Map<usize, usize>>, h: Heaviest) -> bool {
    &&& h.nodes == rows.dom().len()
    &&& forall|a: usize, b: usize| #[trigger] adjacent(rows, a, b) ==> rows[a][b] <= h.weight
    &&& if h.weight == 0 {
        h.author1 == 0 && h.author2 == 0
    } else {
        &&& adjacent(rows, h.author1, h.author2)
        &&& rows[h.author1][h.author2] == h.weight
        &&& forall|a: usize, b: usize|
            #[trigger] adjacent(rows, a, b) && rows[a][b] == h.weight ==> h.author1 < a || (
            h.author1 == a && h.author2 <= b)
    }
}

/// The heaviest entry of a row.
pub fn heaviest_entry(row: &Row) -> (found: Option<(usize, usize)>)
    ensures
        is_heaviest_entry(row_entries(*row), found),
{
    let entries = sorted_entries(row);
    let n = entries.len();
    let ghost m = row_entries(*row);
    let mut found: Option<(usize, usize)> = None;
    for i in 0..n
        invariant
            n == entries@.len(),
            m == row_entries(*row),
            describes(entries@, m),
            match found {
                None => forall|k: int| 0 <= k < i ==> (#[trigger] entries@[k]).1 == 0,
                Some((key, weight)) => {
                    &&& m.dom().contains(key)
                    &&& m[key] == weight
                    &&& weight > 0
                    &&& forall|k: int|
                        0 <= k < i ==> (#[trigger] entries@[k]).1 <= weight && (entries@[k].1
                            == weight ==> key <= entries@[k].0)
                    &&& exists|k: int| 0 <= k < i && (#[trigger] entries@[k]).0 == key
                },
            },
    {
        let key = entries[i].0;
        let weight = entries[i].1;
        assert(m.dom().contains(entries@[i as int].0) && entries@[i as int].1 == m[entries@[i as int].0]);
        match found {
            None => {
                if weight > 0 {
                    found = Some((key, weight));
                    assert(0 <= i < i + 1 && entries@[i as int].0 == key);
                }
            },
            Some((best_key, best)) => {
                let ghost at = choose|k: int| 0 <= k < i && (#[trigger] entries@[k]).0 == best_key;
                assert(entries@[at].0 < entries@[i as int].0);
                if weight > best {
                    found = Some((key, weight));
                    assert(0 <= i < i + 1 && entries@[i as int].0 == key);
                } else {
                    assert(0 <= at < i + 1 && entries@[at].0 == best_key);
                }
            },
        }
    }
    proof {
        assert forall|c: usize| #[trigger] m.dom().contains(c) implies exists|k: int|
            0 <= k < n && (#[trigger] entries@[k]).0 == c && entries@[k].1 == m[c] by {
            assert(names(entries@, c));
            let k = choose|k: int| 0 <= k < entries@.len() && (#[trigger] entries@[k]).0 == c;
            assert(0 <= k < n && entries@[k].0 == c && entries@[k].1 == m[c]);
        }
        match found {
            None => {
                assert forall|c: usize| #[trigger] m.dom().contains(c) implies m[c] == 0 by {
                    let k = choose|k: int|
                        0 <= k < n && (#[trigger] entries@[k]).0 == c && entries@[k].1 == m[c];
                    assert(entries@[k].1 == 0);
                }
            },
            Some((key, weight)) => {
                assert forall|c: usize| #[trigger] m.dom().contains(c) implies m[c] <= weight && (
                m[c] == weight ==> key <= c) by {
                    let k = choose|k: int|
                        0 <= k < n && (#[trigger] entries@[k]).0 == c && entries@[k].1 == m[c];
                    assert(entries@[k].1 <= weight);
                }
            },
        }
    }
    found
}

/// The heaviest edge of the graph.
pub fn find_max_average_weight_authors(aggregate: &Graph) -> (h: Heaviest)
    ensures
        graph_rows(*aggregate).dom().finite(),
        is_heaviest(graph_rows(*aggregate), h),
{
    let ghost rows = graph_rows(*aggregate);
    let nodes = sorted_nodes(aggregate);
    let n = nodes.len();
    proof {
        lemma_listing_len(nodes@, rows.dom());
    }
    let mut h = Heaviest { author1: 0, author2: 0, weight: 0, nodes: n };
    for i in 0..n
        invariant
            n == nodes@.len(),
            rows == graph_rows(*aggregate),
            lists(nodes@, rows.dom()),
            ascending(nodes@),
            h.nodes == n,
            forall|k: int, b: usize|
                0 <= k < i && #[trigger] adjacent(rows, nodes@[k], b) ==> rows[nodes@[k]][b]
                    <= h.weight && (rows[nodes@[k]][b] == h.weight && h.weight > 0 ==> h.author1
                    < nodes@[k] || (h.author1 == nodes@[k] && h.author2 <= b)),
            if h.weight == 0 {
                h.author1 == 0 && h.author2 == 0
            } else {
                adjacent(rows, h.author1, h.author2) && rows[h.author1][h.author2] == h.weight
                    && among(nodes@, i as int, h.author1)
            },
    {
        let node = nodes[i];
        assert(nodes@.to_set().contains(nodes@[i as int]));
        let ghost previous = h;
        match graph_get(aggregate, node) {
            None => {
                assert(false);
            },
            Some(row) => {
                match heaviest_entry(row) {
                    None => {},
                    Some((key, weight)) => {
                        if weight > h.weight {
                            h = Heaviest { author1: node, author2: key, weight, nodes: n };
                        }
                    },
                }
                proof {
                    if previous.weight > 0 {
                        let at = choose|k: int| 0 <= k < i && nodes@[k] == previous.author1;
                        assert(nodes@[at] < nodes@[i as int]);
                        assert(0 <= at < i + 1 && nodes@[at] == previous.author1);
                    }
                    if h.weight > 0 && h.author1 == node {
                        assert(0 <= i < i + 1 && nodes@[i as int] == h.author1);
                    }
                    assert forall|k: int, b: usize|
                        0 <= k < i + 1 && #[trigger] adjacent(
                            rows,
                            nodes@[k],
                            b,
                        ) implies rows[nodes@[k]][b] <= h.weight && (rows[nodes@[k]][b] == h.weight
                        && h.weight > 0 ==> h.author1 < nodes@[k] || (h.author1 == nodes@[k]
                        && h.author2 <= b)) by {
                        if k == i {
                            assert(row_entries(*row).dom().contains(b));
                        } else {
                            assert(nodes@[k] < nodes@[i as int]);
                        }
                    }
                }
            },
        }
    }
    proof {
        assert forall|a: usize, b: usize| #[trigger] adjacent(rows, a, b) implies rows[a][b]
            <= h.weight && (rows[a][b] == h.weight && h.weight > 0 ==> h.author1 < a || (h.author1
            == a && h.author2 <= b)) by {
            assert(nodes@.to_set().contains(a));
            let k = choose|k: int| 0 <= k < nodes@.len() && nodes@[k] == a;
            assert(adjacent(rows, nodes@[k], b));
        }
    }
    h
}

/// What is taken of a hypergraph: its timeline, the degrees and the weighted
/// clustering of each year, the aggregate of all years, and the heaviest edge
/// of the aggregate where there is one.
pub struct Findings {
    pub timeline: Timeline,
    pub yearly: Vec<(u32, Result<GraphStats, StatsError>)>,
    pub aggregate: Result<Graph, StatsError>,
    pub heaviest: Option<Heaviest>,
}

/// The findings are those of their timeline.
pub open spec fn is_findings(f: Findings) -> bool {
    let graphs = timeline_graphs(f.timeline);
    &&& lists(years_of_stats(f.yearly@), graphs.dom())
    &&& forall|i: int|
        0 <= i < f.yearly@.len() ==> is_graph_stats(
            graphs[(#[trigger] f.yearly@[i]).0],
            f.yearly@[i].1,
        )
    &&& is_aggregated(f.aggregate, graphs)
    &&& match f.aggregate {
        Ok(g) => f.heaviest matches Some(h) && is_heaviest(graph_rows(g), h),
        Err(_) => f.heaviest is None,
    }
}

/// `run` is what reading the three streams and taking the findings comes to.
pub open spec fn is_run(
    run: Result<Findings, InputError>,
    nverts: Seq<u8>,
    simplices: Seq<u8>,
    times: Seq<u8>,
) -> bool {
    match run {
        Ok(f) => is_read(Ok(f.timeline), nverts, simplices, times) && is_findings(f),
        Err(e) => is_read(Err(e), nverts, simplices, times),
    }
}

/// Reads the three streams of a hypergraph, builds its timeline and takes the
/// findings. Input that cannot be read stops the run.
pub fn cv_2(nverts: &[u8], simplices: &[u8], times: &[u8]) -> (run: Result<Findings, InputError>)
    ensures
        is_run(run, nverts@, simplices@, times@),
{
    match parse_author_file(nverts, simplices, times) {
        Err(e) => Err(e),
        Ok(timeline) => {
            let yearly = compute_degrees_and_weighted_clustering(&timeline);
            let aggregate = aggregate_weights(&timeline);
            let heaviest = match &aggregate {
                Ok(g) => Some(find_max_average_weight_authors(g)),
                Err(_) => None,
            };
            Ok(Findings { timeline, yearly, aggregate, heaviest })
        },
    }
}

} // verus!
