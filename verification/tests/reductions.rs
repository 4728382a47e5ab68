use graph_stats::buckets::bucket_sums;
use graph_stats::buckets::keys_of;
use graph_stats::buckets::positions;
use graph_stats::buckets::DegreeBucket;
use graph_stats::functions::closed_walks_at;
use graph_stats::functions::degree_of;
use graph_stats::functions::max_value;
use graph_stats::functions::node_closed_pairs;
use graph_stats::functions::node_closed_walks;
use graph_stats::functions::node_degrees;
use graph_stats::functions::pair_up;
use graph_stats::functions::shared_neighbors;
use graph_stats::functions::sum_values;
use graph_stats::functions::tally;
use graph_stats::functions_par::merge_counts;
use graph_stats::functions_par::par_max_value;
use graph_stats::functions_par::par_node_closed_pairs;
use graph_stats::functions_par::par_node_closed_walks;
use graph_stats::functions_par::par_node_degrees;
use graph_stats::functions_par::par_sum_values;
use graph_stats::functions_par::par_tally;
use graph_stats::sorting::sort_distinct;
use graph_stats::sorting::sorted_keys;
use graph_stats::sorting::sorted_nodes;
use graph_stats::table::Graph;
use graph_stats::table::Row;

fn graph_of(rows: &[(usize, &[usize])]) -> Graph {
    let mut g = Graph::new();
    for (node, neighbors) in rows {
        let mut row = Row::new();
        for n in neighbors.iter() {
            row.insert(*n, 1);
        }
        g.insert(*node, row);
    }
    g
}

fn row_of(entries: &[(usize, usize)]) -> Row {
    let mut row = Row::new();
    for (k, v) in entries {
        row.insert(*k, *v);
    }
    row
}

#[test]
fn per_node_numbers_follow_the_order_of_the_nodes() {
    let g = graph_of(&[(1, &[2, 3]), (2, &[1, 3]), (3, &[1, 2]), (4, &[1])]);
    let nodes = vec![4, 1, 9, 3];
    assert_eq!(node_degrees(&g, &nodes), vec![1, 2, 0, 2]);
    assert_eq!(par_node_degrees(&g, &nodes), vec![1, 2, 0, 2]);
    assert_eq!(node_closed_walks(&g, &nodes), Some(vec![0, 2, 0, 2]));
    assert_eq!(par_node_closed_walks(&g, &nodes), Some(vec![0, 2, 0, 2]));
    assert_eq!(node_closed_pairs(&g, &nodes), Some(vec![0, 1, 0, 1]));
    assert_eq!(par_node_closed_pairs(&g, &nodes), Some(vec![0, 1, 0, 1]));
    assert_eq!(degree_of(&g, 1), 2);
    assert_eq!(degree_of(&g, 7), 0);
    assert_eq!(closed_walks_at(&g, 2), Some(2));
    assert_eq!(closed_walks_at(&g, 4), Some(0));
}

#[test]
fn shared_neighbors_counts_the_intersection() {
    let g = graph_of(&[(1, &[2, 3, 4]), (2, &[3, 4, 5])]);
    let row = row_of(&[(3, 1), (5, 1), (8, 1)]);
    assert_eq!(shared_neighbors(&g, &row, 2), 2);
    assert_eq!(shared_neighbors(&g, &row, 1), 1);
    assert_eq!(shared_neighbors(&g, &row, 3), 0);
}

#[test]
fn sums_and_maxima_of_values() {
    let values = vec![3, 0, 7, 7, 2];
    assert_eq!(sum_values(&values), 19);
    assert_eq!(par_sum_values(&values), 19);
    assert_eq!(max_value(&values), 7);
    assert_eq!(par_max_value(&values), 7);
    assert_eq!(sum_values(&vec![]), 0);
    assert_eq!(par_sum_values(&vec![]), 0);
    assert_eq!(max_value(&vec![]), 0);
    assert_eq!(par_max_value(&vec![]), 0);
}

#[test]
fn sums_do_not_wrap_at_the_word_size() {
    let values = vec![usize::MAX, usize::MAX, 1];
    let expected = 2 * (usize::MAX as u128) + 1;
    assert_eq!(sum_values(&values), expected);
    assert_eq!(par_sum_values(&values), expected);
    assert_eq!(par_max_value(&values), usize::MAX);
}

#[test]
fn tally_counts_occurrences() {
    let values = vec![5, 1, 5, 5, 0, 1];
    let expected = row_of(&[(5, 3), (1, 2), (0, 1)]);
    assert_eq!(tally(&values), expected);
    assert_eq!(par_tally(&values), expected);
    assert_eq!(tally(&vec![]), Row::new());
    assert_eq!(par_tally(&vec![]), Row::new());
}

#[test]
fn merge_adds_counts_key_by_key() {
    let mut total = row_of(&[(1, 2), (2, 5)]);
    let part = row_of(&[(2, 1), (3, 4)]);
    assert!(merge_counts(&mut total, &part));
    assert_eq!(total, row_of(&[(1, 2), (2, 6), (3, 4)]));
    let mut same = row_of(&[(1, 2)]);
    assert!(merge_counts(&mut same, &Row::new()));
    assert_eq!(same, row_of(&[(1, 2)]));
}

#[test]
fn merge_reports_a_count_that_does_not_fit() {
    let mut total = row_of(&[(1, usize::MAX)]);
    let part = row_of(&[(1, 1)]);
    assert!(!merge_counts(&mut total, &part));
    let mut fits = row_of(&[(1, usize::MAX - 1)]);
    assert!(merge_counts(&mut fits, &part));
    assert_eq!(fits, row_of(&[(1, usize::MAX)]));
}

#[test]
fn keys_come_out_in_ascending_order() {
    let row = row_of(&[(30, 1), (4, 1), (17, 1), (0, 1), (usize::MAX, 1)]);
    assert_eq!(sorted_keys(&row), vec![0, 4, 17, 30, usize::MAX]);
    let g = graph_of(&[(9, &[]), (2, &[1]), (5, &[])]);
    assert_eq!(sorted_nodes(&g), vec![2, 5, 9]);
    let mut keys = vec![3, 1, 2];
    sort_distinct(&mut keys);
    assert_eq!(keys, vec![1, 2, 3]);
    assert_eq!(sorted_keys(&Row::new()), Vec::<usize>::new());
}

#[test]
fn buckets_group_amounts_by_key() {
    let entries = vec![(2, 10), (0, 1), (2, 5), (7, 0), (0, 2)];
    let expected = vec![
        DegreeBucket { degree: 0, nodes: 2, closed: 3 },
        DegreeBucket { degree: 2, nodes: 2, closed: 15 },
        DegreeBucket { degree: 7, nodes: 1, closed: 0 },
    ];
    assert_eq!(bucket_sums(&entries), expected);
    assert_eq!(bucket_sums(&vec![]), vec![]);
    assert_eq!(keys_of(&entries), vec![2, 0, 2, 7, 0]);
    assert_eq!(pair_up(&vec![1, 2], &vec![8, 9]), vec![(1, 8), (2, 9)]);
    assert_eq!(positions(&vec![7, 3, 5]), row_of(&[(7, 0), (3, 1), (5, 2)]));
}

#[test]
fn bucket_sums_do_not_wrap_at_the_word_size() {
    let entries = vec![(1, usize::MAX), (1, usize::MAX)];
    let expected = vec![DegreeBucket { degree: 1, nodes: 2, closed: 2 * (usize::MAX as u128) }];
    assert_eq!(bucket_sums(&entries), expected);
}
