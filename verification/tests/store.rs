use graph_stats::buckets::DegreeBucket;
use graph_stats::cv_1::add_edge;
use graph_stats::cv_1::build_graph;
use graph_stats::cv_1::cv_1;
use graph_stats::cv_1::run_battery;
use graph_stats::cv_2::add_graph;
use graph_stats::cv_2::aggregate_weights;
use graph_stats::cv_2::build_timeline;
use graph_stats::cv_2::bump_weight;
use graph_stats::cv_2::check_aligned;
use graph_stats::cv_2::compute_degrees_and_weighted_clustering;
use graph_stats::cv_2::compute_weighted_clustering_coefficient;
use graph_stats::cv_2::cv_2;
use graph_stats::cv_2::find_max_average_weight_authors;
use graph_stats::cv_2::degrees_and_clustering;
use graph_stats::cv_2::heaviest_entry;
use graph_stats::cv_2::max_weight;
use graph_stats::cv_2::parse_author_file;
use graph_stats::cv_2::row_items;
use graph_stats::cv_2::row_max;
use graph_stats::cv_2::walk_weight_at;
use graph_stats::cv_2::weighted_degree_of;
use graph_stats::cv_2::Heaviest;
use graph_stats::cv_2::NodeTerm;
use graph_stats::model::Average;
use graph_stats::model::StatsError;
use graph_stats::table::Graph;
use graph_stats::table::Row;
use graph_stats::table::Timeline;
use graph_stats::text::InputError;

fn row_of(entries: &[(usize, usize)]) -> Row {
    let mut row = Row::new();
    for (k, v) in entries {
        row.insert(*k, *v);
    }
    row
}

fn weighted(rows: &[(usize, &[(usize, usize)])]) -> Graph {
    let mut g = Graph::new();
    for (node, entries) in rows {
        g.insert(*node, row_of(entries));
    }
    g
}

#[test]
fn edges_are_added_with_weight_one() {
    let mut g = Graph::new();
    add_edge(&mut g, 1, 2);
    add_edge(&mut g, 1, 3);
    add_edge(&mut g, 4, 1);
    assert_eq!(g, weighted(&[(1, &[(2, 1), (3, 1)]), (4, &[(1, 1)])]));
}

#[test]
fn repeated_edge_keeps_its_weight() {
    let g = build_graph(&vec![(1, 2), (1, 2), (2, 1), (1, 2)]);
    assert_eq!(g, weighted(&[(1, &[(2, 1)]), (2, &[(1, 1)])]));
    let mut kept = weighted(&[(1, &[(2, 9)])]);
    add_edge(&mut kept, 1, 2);
    assert_eq!(kept, weighted(&[(1, &[(2, 9)])]));
}

#[test]
fn target_without_edges_gets_no_row() {
    let g = build_graph(&vec![(1, 2)]);
    assert_eq!(g.len(), 1);
    assert!(g.contains_key(&1));
    assert!(!g.contains_key(&2));
    assert_eq!(build_graph(&vec![]), Graph::new());
}

#[test]
fn edge_list_is_read_and_measured() {
    let report = cv_1(b"1 2\n1 3\n2 1\n2 3\n3 1\n3 2\n").unwrap();
    assert_eq!(report.graph, weighted(&[
        (1, &[(2, 1), (3, 1)]),
        (2, &[(1, 1), (3, 1)]),
        (3, &[(1, 1), (2, 1)]),
    ]));
    assert_eq!(report.average_degree, Ok(Average { sum: 6, count: 3 }));
    assert_eq!(report.average_degree_par, Ok(Average { sum: 6, count: 3 }));
    assert_eq!(report.max_degree, 2);
    assert_eq!(report.max_degree_par, 2);
    assert_eq!(report.degree_distribution, row_of(&[(2, 3)]));
    assert_eq!(report.degree_distribution_par, row_of(&[(2, 3)]));
    assert_eq!(report.degree_distribution_text, b"2 3".to_vec());
    let buckets = vec![DegreeBucket { degree: 2, nodes: 3, closed: 3 }];
    assert_eq!(report.coefficient_distribution, Ok(buckets.clone()));
    assert_eq!(report.coefficient_distribution_par, Ok(buckets));
    assert_eq!(report.clustering_distribution, Ok(row_of(&[(2, 3)])));
    assert_eq!(report.clustering_distribution_par, Ok(row_of(&[(2, 3)])));
    assert_eq!(report.average_common_neighbors, Ok(Average { sum: 6, count: 3 }));
    assert_eq!(report.average_common_neighbors_par, Ok(Average { sum: 6, count: 3 }));
    assert_eq!(report.max_common_neighbors, Ok(2));
    assert_eq!(report.max_common_neighbors_par, Ok(2));
}

#[test]
fn malformed_edge_list_stops_the_run() {
    assert!(matches!(cv_1(b"1 2\noops\n"), Err(InputError::Malformed { line: 1 })));
    assert!(matches!(cv_1(b"1 2\n\n"), Err(InputError::Malformed { line: 1 })));
}

#[test]
fn empty_edge_list_gives_the_empty_graph() {
    let report = cv_1(b"").unwrap();
    assert_eq!(report.graph, Graph::new());
    assert_eq!(report.average_degree, Err(StatsError::EmptyGraph));
    assert_eq!(report.average_common_neighbors_par, Err(StatsError::EmptyGraph));
    assert_eq!(report.max_degree, 0);
    assert_eq!(report.degree_distribution_text, Vec::<u8>::new());
    let again = run_battery(Graph::new());
    assert_eq!(again.max_degree_par, 0);
}

#[test]
fn every_pair_of_a_group_adds_to_an_edge() {
    let t = build_timeline(&vec![3], &vec![3, 1, 2], &vec![2010]).unwrap();
    let mut expected = Timeline::new();
    expected.insert(2010, weighted(&[(1, &[(2, 1), (3, 1)]), (2, &[(3, 1)])]));
    assert_eq!(t, expected);
}

#[test]
fn weights_accumulate_within_a_year() {
    let t = build_timeline(&vec![3, 2, 1, 2], &vec![1, 2, 3, 2, 1, 9, 4, 4], &vec![
        2010, 2010, 2010, 2011,
    ])
    .unwrap();
    let mut expected = Timeline::new();
    expected.insert(2010, weighted(&[(1, &[(2, 2), (3, 1)]), (2, &[(3, 1)])]));
    expected.insert(2011, weighted(&[(4, &[(4, 1)])]));
    assert_eq!(t, expected);
}

#[test]
fn misaligned_streams_are_refused() {
    assert_eq!(build_timeline(&vec![2], &vec![1, 2], &vec![]), Err(InputError::Misaligned));
    assert_eq!(build_timeline(&vec![2], &vec![1], &vec![2010]), Err(InputError::Misaligned));
    assert_eq!(build_timeline(&vec![2], &vec![1, 2, 3], &vec![2010]), Err(InputError::Misaligned));
    assert_eq!(
        build_timeline(&vec![usize::MAX, 2], &vec![1, 2], &vec![1, 2]),
        Err(InputError::Misaligned)
    );
    assert!(check_aligned(&vec![2, 0, 1], &vec![5, 6, 7], &vec![1, 2, 3]));
    assert!(!check_aligned(&vec![2, 0, 1], &vec![5, 6, 7], &vec![1, 2]));
    assert_eq!(build_timeline(&vec![], &vec![], &vec![]), Ok(Timeline::new()));
}

#[test]
fn weight_that_does_not_fit_is_reported() {
    let mut t = Timeline::new();
    t.insert(2010, weighted(&[(1, &[(2, usize::MAX - 1)])]));
    assert!(bump_weight(&mut t, 2010, 1, 2));
    assert!(!bump_weight(&mut t, 2010, 1, 2));
    assert!(bump_weight(&mut t, 2010, 1, 3));
    assert!(bump_weight(&mut t, 2011, 5, 6));
    let mut expected = Timeline::new();
    expected.insert(2010, weighted(&[(1, &[(2, usize::MAX), (3, 1)])]));
    expected.insert(2011, weighted(&[(5, &[(6, 1)])]));
    assert_eq!(t, expected);
}

#[test]
fn three_streams_are_read_in_step() {
    let t = parse_author_file(b"3\n2\n", b"1\n2\n3\n1\n2\n", b"2010\n2009\n").unwrap();
    let mut expected = Timeline::new();
    expected.insert(2010, weighted(&[(1, &[(2, 1), (3, 1)]), (2, &[(3, 1)])]));
    expected.insert(2009, weighted(&[(1, &[(2, 1)])]));
    assert_eq!(t, expected);
    assert_eq!(
        parse_author_file(b"3\nx\n", b"1\n", b"2010\n"),
        Err(InputError::Malformed { line: 1 })
    );
    assert_eq!(
        parse_author_file(b"1\n", b"1\n?\n", b"2010\n"),
        Err(InputError::Malformed { line: 1 })
    );
    assert_eq!(
        parse_author_file(b"1\n", b"1\n", b"99999999999\n"),
        Err(InputError::Malformed { line: 0 })
    );
    assert_eq!(parse_author_file(b"2\n", b"1\n", b"2010\n"), Err(InputError::Misaligned));
}

#[test]
fn weighted_clustering_of_one_group() {
    let g = weighted(&[(1, &[(2, 1), (3, 1)]), (2, &[(3, 1)])]);
    let c = compute_weighted_clustering_coefficient(&g).unwrap();
    assert_eq!(c.w_max, 1);
    assert_eq!(c.nodes, 2);
    assert_eq!(c.terms, vec![NodeTerm { node: 1, degree: 2, weight: 2 }]);
    assert_eq!(walk_weight_at(&g, 1), Some(2));
    assert_eq!(walk_weight_at(&g, 2), Some(0));
    assert_eq!(walk_weight_at(&g, 3), Some(0));
}

#[test]
fn weighted_clustering_uses_the_weights_from_the_node() {
    let g = weighted(&[
        (1, &[(2, 5), (3, 7), (4, 1)]),
        (2, &[(3, 100), (1, 100)]),
        (3, &[(2, 100)]),
        (4, &[(4, 100)]),
    ]);
    // Walks from 1: over 2 to 3 (5 + 7), over 3 to 2 (7 + 5); 4 only reaches itself.
    assert_eq!(walk_weight_at(&g, 1), Some(24));
    // Walks from 2: over 3 to nothing but 2 itself, over 1 to 3 (100 + 100).
    assert_eq!(walk_weight_at(&g, 2), Some(200));
    let c = compute_weighted_clustering_coefficient(&g).unwrap();
    assert_eq!(c.w_max, 100);
    assert_eq!(c.nodes, 4);
    assert_eq!(c.terms, vec![
        NodeTerm { node: 1, degree: 3, weight: 24 },
        NodeTerm { node: 2, degree: 2, weight: 200 },
    ]);
    assert_eq!(max_weight(&g), 100);
    assert_eq!(weighted_degree_of(&g, 1), 13);
    assert_eq!(weighted_degree_of(&g, 9), 0);
}

#[test]
fn weighted_clustering_of_degenerate_graphs() {
    assert!(matches!(
        compute_weighted_clustering_coefficient(&Graph::new()),
        Err(StatsError::EmptyGraph)
    ));
    let lonely = weighted(&[(1, &[])]);
    let c = compute_weighted_clustering_coefficient(&lonely).unwrap();
    assert_eq!(c.w_max, 1);
    assert_eq!(c.nodes, 1);
    assert_eq!(c.terms, vec![]);
    assert_eq!(max_weight(&Graph::new()), 1);
    assert_eq!(row_max(&Row::new()), None);
    assert_eq!(row_max(&row_of(&[(1, 4), (2, 9), (3, 9)])), Some(9));
    let mut items = row_items(&row_of(&[(1, 4), (2, 9)]));
    items.sort();
    assert_eq!(items, vec![(1, 4), (2, 9)]);
}

#[test]
fn walk_weight_that_does_not_fit_is_an_error() {
    let big = usize::MAX;
    let mut rows: Vec<(usize, Vec<(usize, usize)>)> = Vec::new();
    let all: Vec<(usize, usize)> = (1..=4).map(|n| (n, big)).collect();
    rows.push((0, all.clone()));
    for n in 1..=4usize {
        rows.push((n, all.clone()));
    }
    let mut g = Graph::new();
    for (node, entries) in rows.iter() {
        g.insert(*node, row_of(entries));
    }
    // From 0 there are 12 walks over distinct neighbors, each carrying 2 * big.
    assert_eq!(walk_weight_at(&g, 0), Some(24 * (big as u128)));
    let c = compute_weighted_clustering_coefficient(&g).unwrap();
    assert_eq!(c.terms[0], NodeTerm { node: 0, degree: 4, weight: 24 * (big as u128) });
}

#[test]
fn degrees_and_clustering_of_each_year() {
    let t = build_timeline(&vec![3, 2, 2], &vec![1, 2, 3, 1, 2, 7, 8], &vec![2010, 2010, 2009])
        .unwrap();
    let mut yearly = compute_degrees_and_weighted_clustering(&t);
    yearly.sort_by_key(|entry| entry.0);
    assert_eq!(yearly.len(), 2);
    assert_eq!(yearly[0].0, 2009);
    let first = yearly[0].1.as_ref().unwrap();
    assert_eq!(first.nodes, 1);
    assert_eq!(first.degree_sum, 1);
    assert_eq!(first.weight_sum, 1);
    assert_eq!(first.clustering.w_max, 1);
    assert_eq!(first.clustering.terms, vec![]);
    assert_eq!(yearly[1].0, 2010);
    let second = yearly[1].1.as_ref().unwrap();
    assert_eq!(second.nodes, 2);
    assert_eq!(second.degree_sum, 3);
    assert_eq!(second.weight_sum, 4);
    assert_eq!(second.clustering.w_max, 2);
    assert_eq!(second.clustering.nodes, 2);
    assert_eq!(second.clustering.terms, vec![NodeTerm { node: 1, degree: 2, weight: 3 }]);
    let mut with_empty = Timeline::new();
    with_empty.insert(1, Graph::new());
    let stats = compute_degrees_and_weighted_clustering(&with_empty);
    assert_eq!(stats.len(), 1);
    assert!(matches!(stats[0].1, Err(StatsError::EmptyGraph)));
    assert!(matches!(degrees_and_clustering(&Graph::new()), Err(StatsError::EmptyGraph)));
}

#[test]
fn aggregate_sums_the_weights_of_all_years() {
    let t = build_timeline(&vec![3, 2, 2], &vec![1, 2, 3, 1, 2, 1, 2], &vec![2010, 2010, 2009])
        .unwrap();
    let aggregate = aggregate_weights(&t).unwrap();
    assert_eq!(aggregate, weighted(&[(1, &[(2, 3), (3, 1)]), (2, &[(3, 1)])]));
    assert_eq!(aggregate_weights(&Timeline::new()), Ok(Graph::new()));
    let mut total = weighted(&[(1, &[(2, 1)])]);
    assert!(add_graph(&mut total, &weighted(&[(1, &[(2, 4), (5, 1)]), (3, &[])])));
    assert_eq!(total, weighted(&[(1, &[(2, 5), (5, 1)]), (3, &[])]));
}

#[test]
fn aggregate_weight_that_does_not_fit_is_an_error() {
    let mut t = Timeline::new();
    t.insert(1, weighted(&[(1, &[(2, usize::MAX)])]));
    t.insert(2, weighted(&[(1, &[(2, 1)])]));
    assert_eq!(aggregate_weights(&t), Err(StatsError::Overflow));
    let mut total = weighted(&[(1, &[(2, usize::MAX)])]);
    assert!(!add_graph(&mut total, &weighted(&[(1, &[(2, 1)])])));
}

#[test]
fn heaviest_edge_is_the_first_of_the_largest_weight() {
    let g = weighted(&[(5, &[(6, 3), (2, 9)]), (1, &[(7, 9), (3, 9)]), (8, &[(1, 2)])]);
    assert_eq!(find_max_average_weight_authors(&g), Heaviest {
        author1: 1,
        author2: 3,
        weight: 9,
        nodes: 3,
    });
    assert_eq!(find_max_average_weight_authors(&Graph::new()), Heaviest {
        author1: 0,
        author2: 0,
        weight: 0,
        nodes: 0,
    });
    let zeros = weighted(&[(4, &[(5, 0)])]);
    assert_eq!(find_max_average_weight_authors(&zeros), Heaviest {
        author1: 0,
        author2: 0,
        weight: 0,
        nodes: 1,
    });
    assert_eq!(heaviest_entry(&row_of(&[(3, 2), (1, 2), (9, 1)])), Some((1, 2)));
    assert_eq!(heaviest_entry(&row_of(&[(3, 0)])), None);
}

#[test]
fn hypergraph_is_read_and_measured() {
    let f = cv_2(b"3\n2\n2\n", b"1\n2\n3\n1\n2\n1\n2\n", b"2010\n2010\n2009\n").unwrap();
    assert_eq!(f.timeline.len(), 2);
    assert_eq!(f.yearly.len(), 2);
    assert_eq!(f.aggregate, Ok(weighted(&[(1, &[(2, 3), (3, 1)]), (2, &[(3, 1)])])));
    assert_eq!(f.heaviest, Some(Heaviest { author1: 1, author2: 2, weight: 3, nodes: 2 }));
    assert!(matches!(cv_2(b"3\n", b"1\n2\n", b"2010\n"), Err(InputError::Misaligned)));
    assert!(matches!(cv_2(b"a\n", b"1\n2\n", b"2010\n"), Err(InputError::Malformed { line: 0 })));
}
