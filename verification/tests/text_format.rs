use graph_stats::distribution::read_distribution;
use graph_stats::distribution::sorted_entries;
use graph_stats::distribution::table_of;
use graph_stats::distribution::write_distribution;
use graph_stats::functions::get_dg_dis;
use graph_stats::functions_par::get_dg_dis_par;
use graph_stats::table::Graph;
use graph_stats::table::Row;
use graph_stats::text::is_space_byte;
use graph_stats::text::line_end_at;
use graph_stats::text::pair_at;
use graph_stats::text::parse_numbers;
use graph_stats::text::parse_pairs;
use graph_stats::text::parse_years;
use graph_stats::text::push_decimal;
use graph_stats::text::render_pairs;
use graph_stats::text::spaces_end;
use graph_stats::text::split_lines;
use graph_stats::text::word_at;
use graph_stats::text::word_end;
use graph_stats::text::InputError;

fn row_of(entries: &[(usize, usize)]) -> Row {
    let mut row = Row::new();
    for (k, v) in entries {
        row.insert(*k, *v);
    }
    row
}

#[test]
fn records_are_read_line_by_line() {
    assert_eq!(parse_pairs(b"1 2\n3 4\n"), Ok(vec![(1, 2), (3, 4)]));
    assert_eq!(parse_pairs(b"1 2\n3 4"), Ok(vec![(1, 2), (3, 4)]));
    assert_eq!(parse_pairs(b""), Ok(vec![]));
    assert_eq!(parse_pairs(b"10\t20\r\n30   40\r\n"), Ok(vec![(10, 20), (30, 40)]));
    assert_eq!(parse_pairs(b"  7 8 and more\n"), Ok(vec![(7, 8)]));
    assert_eq!(parse_pairs(b"+5 006"), Ok(vec![(5, 6)]));
}

#[test]
fn first_malformed_line_is_reported() {
    assert_eq!(parse_pairs(b"\n"), Err(InputError::Malformed { line: 0 }));
    assert_eq!(parse_pairs(b"1 2\n\n3 4\n"), Err(InputError::Malformed { line: 1 }));
    assert_eq!(parse_pairs(b"1 2\n3\n4\n"), Err(InputError::Malformed { line: 1 }));
    assert_eq!(parse_pairs(b"1 2\n3 4\nx 5\n6\n"), Err(InputError::Malformed { line: 2 }));
    assert_eq!(parse_pairs(b"-1 2"), Err(InputError::Malformed { line: 0 }));
    assert_eq!(parse_pairs(b"1 2x"), Err(InputError::Malformed { line: 0 }));
    assert_eq!(parse_pairs(b"1 +"), Err(InputError::Malformed { line: 0 }));
    assert_eq!(parse_pairs(b"1,2"), Err(InputError::Malformed { line: 0 }));
}

#[test]
fn numbers_that_do_not_fit_are_malformed() {
    let max = format!("{} {}", usize::MAX, usize::MAX);
    assert_eq!(parse_pairs(max.as_bytes()), Ok(vec![(usize::MAX, usize::MAX)]));
    assert_eq!(
        parse_pairs(b"340282366920938463463374607431768211456 1"),
        Err(InputError::Malformed { line: 0 })
    );
    let above = format!("1 {}0", usize::MAX);
    assert_eq!(parse_pairs(above.as_bytes()), Err(InputError::Malformed { line: 0 }));
    assert_eq!(word_at(b"18446744073709551615"), Some(18446744073709551615));
    assert_eq!(word_at(b"18446744073709551616"), None);
    assert_eq!(word_at(b"18446744073709551620"), None);
}

#[test]
fn tokens_and_spaces() {
    assert!(is_space_byte(b' '));
    assert!(is_space_byte(b'\t'));
    assert!(is_space_byte(b'\r'));
    assert!(is_space_byte(b'\n'));
    assert!(is_space_byte(11));
    assert!(is_space_byte(12));
    assert!(!is_space_byte(b'0'));
    assert!(!is_space_byte(8));
    assert!(!is_space_byte(14));
    assert_eq!(spaces_end(b"  ab ", 0), 2);
    assert_eq!(spaces_end(b"  ab ", 2), 2);
    assert_eq!(spaces_end(b"   ", 1), 3);
    assert_eq!(word_end(b"  ab ", 2), 4);
    assert_eq!(word_end(b"ab", 0), 2);
    assert_eq!(line_end_at(b"ab\ncd", 0), 2);
    assert_eq!(line_end_at(b"ab\ncd", 3), 5);
    assert_eq!(word_at(b"0"), Some(0));
    assert_eq!(word_at(b"+42"), Some(42));
    assert_eq!(word_at(b""), None);
    assert_eq!(word_at(b"+"), None);
    assert_eq!(word_at(b"4 2"), None);
    assert_eq!(pair_at(b" 1  2 "), Some((1, 2)));
    assert_eq!(pair_at(b"12"), None);
}

#[test]
fn lines_are_split_at_line_feeds() {
    let none: Vec<&[u8]> = vec![];
    assert_eq!(split_lines(b""), none);
    assert_eq!(split_lines(b"a"), vec![&b"a"[..]]);
    assert_eq!(split_lines(b"a\n"), vec![&b"a"[..]]);
    assert_eq!(split_lines(b"a\n\n"), vec![&b"a"[..], &b""[..]]);
    assert_eq!(split_lines(b"\n"), vec![&b""[..]]);
    assert_eq!(split_lines(b"a\nbc\r\nd"), vec![&b"a"[..], &b"bc\r"[..], &b"d"[..]]);
}

#[test]
fn numbers_are_read_one_on_a_line() {
    assert_eq!(parse_numbers(b"3\n2\n0\n"), Ok(vec![3, 2, 0]));
    assert_eq!(parse_numbers(b"3\r\n2\r\n"), Ok(vec![3, 2]));
    assert_eq!(parse_numbers(b""), Ok(vec![]));
    assert_eq!(parse_numbers(b"3\n 2\n"), Err(InputError::Malformed { line: 1 }));
    assert_eq!(parse_numbers(b"3 \n"), Err(InputError::Malformed { line: 0 }));
    assert_eq!(parse_numbers(b"3\n\n4"), Err(InputError::Malformed { line: 1 }));
    assert_eq!(parse_numbers(b"1 2\n"), Err(InputError::Malformed { line: 0 }));
}

#[test]
fn years_fit_in_thirty_two_bits() {
    assert_eq!(parse_years(b"2010\n1999\n"), Ok(vec![2010, 1999]));
    assert_eq!(parse_years(b"4294967295"), Ok(vec![4294967295]));
    assert_eq!(parse_years(b"2010\n4294967296\n"), Err(InputError::Malformed { line: 1 }));
    assert_eq!(parse_years(b"year\n"), Err(InputError::Malformed { line: 0 }));
}

#[test]
fn records_are_written_one_on_a_line() {
    assert_eq!(render_pairs(&vec![(1, 2), (10, 0)]), b"1 2\n10 0".to_vec());
    assert_eq!(render_pairs(&vec![]), Vec::<u8>::new());
    assert_eq!(render_pairs(&vec![(0, 0)]), b"0 0".to_vec());
    let max = format!("{} 7", usize::MAX);
    assert_eq!(render_pairs(&vec![(usize::MAX, 7)]), max.into_bytes());
    let mut out = b"x".to_vec();
    push_decimal(&mut out, 1203);
    assert_eq!(out, b"x1203".to_vec());
}

#[test]
fn written_records_read_back() {
    let records = vec![(0, 0), (7, 123456789), (usize::MAX, 1), (42, usize::MAX)];
    assert_eq!(parse_pairs(&render_pairs(&records)), Ok(records));
    assert_eq!(parse_pairs(&render_pairs(&vec![])), Ok(vec![]));
}

#[test]
fn distribution_is_written_sorted_by_key() {
    let table = row_of(&[(30, 1), (2, 3), (11, 5)]);
    assert_eq!(sorted_entries(&table), vec![(2, 3), (11, 5), (30, 1)]);
    assert_eq!(write_distribution(&table), b"2 3\n11 5\n30 1".to_vec());
    assert_eq!(write_distribution(&Row::new()), Vec::<u8>::new());
}

#[test]
fn distribution_round_trip() {
    let table = row_of(&[(30, 1), (2, 3), (11, 5), (0, 9)]);
    assert_eq!(read_distribution(&write_distribution(&table)), Ok(table));
    assert_eq!(read_distribution(&write_distribution(&Row::new())), Ok(Row::new()));
    assert_eq!(read_distribution(b"1 2\nx"), Err(InputError::Malformed { line: 1 }));
    assert_eq!(table_of(&vec![(1, 2), (3, 4), (1, 5)]), row_of(&[(1, 5), (3, 4)]));
}

#[test]
fn degree_histogram_round_trip() {
    let mut g = Graph::new();
    for v in 0..50usize {
        let mut row = Row::new();
        for n in 0..(v % 5) {
            row.insert(n + 100, 1);
        }
        g.insert(v, row);
    }
    let histogram = get_dg_dis(&g);
    let text = write_distribution(&histogram);
    assert_eq!(text, b"0 10\n1 10\n2 10\n3 10\n4 10".to_vec());
    assert_eq!(read_distribution(&text), Ok(histogram));
    assert_eq!(read_distribution(&write_distribution(&get_dg_dis_par(&g))), Ok(get_dg_dis(&g)));
}
