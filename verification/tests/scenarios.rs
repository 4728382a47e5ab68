use graph_stats::buckets::DegreeBucket;
use graph_stats::functions::get_avg_cm_nb;
use graph_stats::functions::get_avg_dg;
use graph_stats::functions::get_cl_coef;
use graph_stats::functions::get_cl_ds;
use graph_stats::functions::get_cl_ef;
use graph_stats::functions::get_cl_ef_dis;
use graph_stats::functions::get_dg_dis;
use graph_stats::functions::get_max_cm_ng;
use graph_stats::functions::get_max_dg;
use graph_stats::functions_par::get_avg_cm_nb_par;
use graph_stats::functions_par::get_avg_dg_par;
use graph_stats::functions_par::get_cl_ds_par;
use graph_stats::functions_par::get_cl_ef_dis_par;
use graph_stats::functions_par::get_cl_ef_par;
use graph_stats::functions_par::get_dg_dis_par;
use graph_stats::functions_par::get_max_cm_ng_par;
use graph_stats::functions_par::get_max_dg_par;
use graph_stats::model::Average;
use graph_stats::model::Coefficient;
use graph_stats::model::StatsError;
use graph_stats::table::Graph;
use graph_stats::table::Row;

fn graph_of(rows: &[(usize, &[usize])]) -> Graph {
    let mut g = Graph::new();
    for (node, neighbors) in rows {
        let mut row = Row::new();
        for n in neighbors.iter() {
            row.insert(*n, 1);
        }
        g.insert(*node, row);
    }
    g
}

fn row_of(entries: &[(usize, usize)]) -> Row {
    let mut row = Row::new();
    for (k, v) in entries {
        row.insert(*k, *v);
    }
    row
}

fn triangle() -> Graph {
    graph_of(&[(1, &[2, 3]), (2, &[1, 3]), (3, &[1, 2])])
}

fn complete_four() -> Graph {
    graph_of(&[(1, &[2, 3, 4]), (2, &[1, 3, 4]), (3, &[1, 2, 4]), (4, &[1, 2, 3])])
}

#[test]
fn triangle_has_degree_two_and_coefficient_one() {
    let g = triangle();
    for node in 1..=3 {
        assert_eq!(get_cl_coef(&g, node), Coefficient { closed: 1, pairs: 1 });
    }
    assert_eq!(get_avg_dg(&g), Ok(Average { sum: 6, count: 3 }));
    assert_eq!(get_avg_dg_par(&g), Ok(Average { sum: 6, count: 3 }));
    assert_eq!(get_max_dg(&g), 2);
    assert_eq!(get_max_dg_par(&g), 2);
    assert_eq!(get_dg_dis(&g), row_of(&[(2, 3)]));
    assert_eq!(get_dg_dis_par(&g), row_of(&[(2, 3)]));
}

#[test]
fn single_directed_edge() {
    let g = graph_of(&[(1, &[2]), (2, &[])]);
    assert_eq!(get_cl_coef(&g, 1), Coefficient { closed: 0, pairs: 0 });
    assert_eq!(get_cl_coef(&g, 2), Coefficient { closed: 0, pairs: 0 });
    assert_eq!(get_avg_dg(&g), Ok(Average { sum: 1, count: 2 }));
    assert_eq!(get_avg_dg_par(&g), Ok(Average { sum: 1, count: 2 }));
    assert_eq!(get_max_dg(&g), 1);
    assert_eq!(get_max_dg_par(&g), 1);
    assert_eq!(get_dg_dis(&g), row_of(&[(0, 1), (1, 1)]));
    assert_eq!(get_dg_dis_par(&g), row_of(&[(0, 1), (1, 1)]));
}

#[test]
fn empty_graph_has_no_average() {
    let g = Graph::new();
    assert_eq!(get_avg_dg(&g), Err(StatsError::EmptyGraph));
    assert_eq!(get_avg_dg_par(&g), Err(StatsError::EmptyGraph));
    assert_eq!(get_avg_cm_nb(&g), Err(StatsError::EmptyGraph));
    assert_eq!(get_avg_cm_nb_par(&g), Err(StatsError::EmptyGraph));
    assert_eq!(get_cl_ef(&g), Err(StatsError::EmptyGraph));
    assert_eq!(get_cl_ef_par(&g), Err(StatsError::EmptyGraph));
}

#[test]
fn empty_graph_has_maximum_zero_and_empty_distributions() {
    let g = Graph::new();
    assert_eq!(get_max_dg(&g), 0);
    assert_eq!(get_max_dg_par(&g), 0);
    assert_eq!(get_max_cm_ng(&g), Ok(0));
    assert_eq!(get_max_cm_ng_par(&g), Ok(0));
    assert_eq!(get_dg_dis(&g), Row::new());
    assert_eq!(get_dg_dis_par(&g), Row::new());
    assert_eq!(get_cl_ds(&g), Ok(Row::new()));
    assert_eq!(get_cl_ds_par(&g), Ok(Row::new()));
    assert_eq!(get_cl_ef_dis(&g), Ok(vec![]));
    assert_eq!(get_cl_ef_dis_par(&g), Ok(vec![]));
}

#[test]
fn node_without_row_has_degree_zero_and_coefficient_zero() {
    let g = graph_of(&[(1, &[2, 3])]);
    assert_eq!(get_cl_coef(&g, 2), Coefficient { closed: 0, pairs: 0 });
    assert_eq!(get_cl_coef(&g, 99), Coefficient { closed: 0, pairs: 0 });
    assert_eq!(get_cl_coef(&g, 1), Coefficient { closed: 0, pairs: 1 });
}

#[test]
fn complete_neighbors_give_coefficient_one() {
    let g = complete_four();
    for node in 1..=4 {
        let c = get_cl_coef(&g, node);
        assert_eq!(c, Coefficient { closed: 3, pairs: 3 });
    }
    let star = graph_of(&[(0, &[1, 2, 3, 4, 5])]);
    assert_eq!(get_cl_coef(&star, 0), Coefficient { closed: 0, pairs: 10 });
}

#[test]
fn closed_pair_needs_edge_from_smaller_to_larger() {
    let forward = graph_of(&[(1, &[2, 3]), (2, &[3])]);
    assert_eq!(get_cl_coef(&forward, 1), Coefficient { closed: 1, pairs: 1 });
    let backward = graph_of(&[(1, &[2, 3]), (3, &[2])]);
    assert_eq!(get_cl_coef(&backward, 1), Coefficient { closed: 0, pairs: 1 });
}

#[test]
fn common_neighbors_are_twice_the_triangles() {
    let g = complete_four();
    assert_eq!(get_avg_cm_nb(&g), Ok(Average { sum: 24, count: 4 }));
    assert_eq!(get_avg_cm_nb_par(&g), Ok(Average { sum: 24, count: 4 }));
    assert_eq!(get_cl_ef(&g), Ok(Average { sum: 24, count: 4 }));
    assert_eq!(get_cl_ef_par(&g), Ok(Average { sum: 24, count: 4 }));
    assert_eq!(get_max_cm_ng(&g), Ok(6));
    assert_eq!(get_max_cm_ng_par(&g), Ok(6));
    for node in 1..=4 {
        assert_eq!(2 * get_cl_coef(&g, node).closed, 6);
    }
    let t = triangle();
    assert_eq!(get_avg_cm_nb(&t), Ok(Average { sum: 6, count: 3 }));
    assert_eq!(get_max_cm_ng(&t), Ok(2));
}

#[test]
fn self_loop_is_walked_once() {
    // At 1 the only walk is 1 -> 2 -> 2, though no triangle stands at 1.
    let g = graph_of(&[(1, &[2]), (2, &[1, 2])]);
    assert_eq!(get_cl_ds(&g), Ok(row_of(&[(1, 1), (3, 1)])));
    assert_eq!(get_max_cm_ng(&g), Ok(3));
    assert_eq!(get_avg_cm_nb(&g), Ok(Average { sum: 4, count: 2 }));
    assert_eq!(get_cl_coef(&g, 1), Coefficient { closed: 0, pairs: 0 });
}

#[test]
fn clustering_distribution_counts_nodes_by_closed_walks() {
    let g = graph_of(&[(1, &[2, 3]), (2, &[1, 3]), (3, &[1, 2]), (4, &[1]), (5, &[])]);
    let expected = row_of(&[(2, 3), (0, 2)]);
    assert_eq!(get_cl_ds(&g), Ok(expected.clone()));
    assert_eq!(get_cl_ds_par(&g), Ok(expected));
    assert_eq!(get_max_cm_ng(&g), Ok(2));
    assert_eq!(get_max_cm_ng_par(&g), Ok(2));
}

#[test]
fn coefficient_distribution_buckets_by_degree() {
    let g = graph_of(&[(1, &[2, 3]), (2, &[1, 3]), (3, &[1, 2]), (4, &[1]), (5, &[]), (6, &[4, 5])]);
    let expected = vec![
        DegreeBucket { degree: 0, nodes: 1, closed: 0 },
        DegreeBucket { degree: 1, nodes: 1, closed: 0 },
        DegreeBucket { degree: 2, nodes: 4, closed: 3 },
    ];
    assert_eq!(get_cl_ef_dis(&g), Ok(expected.clone()));
    assert_eq!(get_cl_ef_dis_par(&g), Ok(expected));
}

#[test]
fn degree_distribution_of_a_star() {
    let g = graph_of(&[(0, &[1, 2, 3]), (1, &[0]), (2, &[0]), (3, &[0])]);
    let expected = row_of(&[(3, 1), (1, 3)]);
    assert_eq!(get_dg_dis(&g), expected);
    assert_eq!(get_dg_dis_par(&g), expected);
    assert_eq!(get_max_dg(&g), 3);
    assert_eq!(get_max_dg_par(&g), 3);
    assert_eq!(get_avg_dg(&g), Ok(Average { sum: 6, count: 4 }));
    assert_eq!(get_avg_dg_par(&g), Ok(Average { sum: 6, count: 4 }));
}

#[test]
fn sequential_and_parallel_agree_on_a_larger_graph() {
    let mut g = Graph::new();
    for v in 0..200usize {
        let mut row = Row::new();
        for step in 1..=(v % 7) {
            row.insert((v + step * 3) % 200, 1);
        }
        g.insert(v, row);
    }
    assert_eq!(get_avg_dg(&g), get_avg_dg_par(&g));
    assert_eq!(get_max_dg(&g), get_max_dg_par(&g));
    assert_eq!(get_dg_dis(&g), get_dg_dis_par(&g));
    assert_eq!(get_avg_cm_nb(&g), get_avg_cm_nb_par(&g));
    assert_eq!(get_max_cm_ng(&g), get_max_cm_ng_par(&g));
    assert_eq!(get_cl_ds(&g), get_cl_ds_par(&g));
    assert_eq!(get_cl_ef_dis(&g), get_cl_ef_dis_par(&g));
    assert_eq!(get_max_dg(&g), 6);
    let avg = get_avg_dg(&g).unwrap();
    assert_eq!(avg.count, 200);
    let expected: u128 = (0..200u128).map(|v| v % 7).sum();
    assert_eq!(avg.sum, expected);
}
