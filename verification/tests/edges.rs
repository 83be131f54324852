use roadgraph::edges::{edges_from_rows, max_vertex_label, parse_edge_list, parse_label, LoadError};
use roadgraph::graph::Graph;

#[test]
fn table_of_two_columns() {
    assert_eq!(parse_edge_list(b"1,2\n2,3\n"), Ok(vec![(1, 2), (2, 3)]));
    assert_eq!(parse_edge_list(b"10,20"), Ok(vec![(10, 20)]));
    assert_eq!(parse_edge_list(b""), Ok(vec![]));
}

#[test]
fn first_row_is_data() {
    assert_eq!(parse_edge_list(b"4,5\n1,2\n"), Ok(vec![(4, 5), (1, 2)]));
}

#[test]
fn quoted_fields_and_further_columns() {
    assert_eq!(parse_edge_list(b"\"1\",\"2\",x\n3,4,y\n"), Ok(vec![(1, 2), (3, 4)]));
}

#[test]
fn rows_of_unequal_length_are_malformed() {
    assert_eq!(parse_edge_list(b"1,2\n3,4,5\n"), Err(LoadError::Malformed));
}

#[test]
fn bytes_that_are_no_text_are_malformed() {
    assert_eq!(parse_edge_list(b"1,2\n\xff,4\n"), Err(LoadError::Malformed));
}

#[test]
fn single_column_is_missing_one() {
    assert_eq!(parse_edge_list(b"1\n2\n"), Err(LoadError::MissingColumn { row: 0 }));
}

#[test]
fn text_is_no_label() {
    assert_eq!(parse_edge_list(b"1,2\n3,x\n"), Err(LoadError::InvalidLabel { row: 1 }));
    assert_eq!(parse_edge_list(b"a,2\n"), Err(LoadError::InvalidLabel { row: 0 }));
    assert_eq!(parse_edge_list(b"1, 2\n"), Err(LoadError::InvalidLabel { row: 0 }));
    assert_eq!(parse_edge_list(b"-1,2\n"), Err(LoadError::InvalidLabel { row: 0 }));
}

#[test]
fn bad_first_field_comes_before_missing_second() {
    assert_eq!(parse_edge_list(b"x\n"), Err(LoadError::InvalidLabel { row: 0 }));
}

#[test]
fn zero_is_no_label() {
    assert_eq!(parse_edge_list(b"1,2\n2,3\n0,3\n"), Err(LoadError::ZeroLabel { row: 2 }));
    assert_eq!(parse_edge_list(b"1,0\n"), Err(LoadError::ZeroLabel { row: 0 }));
}

#[test]
fn first_faulty_row_is_reported() {
    assert_eq!(parse_edge_list(b"1,2\n0,1\nx,y\n"), Err(LoadError::ZeroLabel { row: 1 }));
}

#[test]
fn rows_without_the_reader() {
    let rows = vec![
        vec![b"3".to_vec(), b"4".to_vec()],
        vec![b"+5".to_vec(), b"006".to_vec(), b"rest".to_vec()],
    ];
    assert_eq!(edges_from_rows(&rows), Ok(vec![(3, 4), (5, 6)]));
    let empty_row: Vec<Vec<Vec<u8>>> = vec![vec![]];
    assert_eq!(edges_from_rows(&empty_row), Err(LoadError::MissingColumn { row: 0 }));
}

#[test]
fn labels_as_the_standard_parser_reads_them() {
    for text in ["0", "7", "42", "+42", "007", "", "+", "-", "-3", "++3", "4 ", " 4", "4x", "1_000",
        "18446744073709551615", "18446744073709551616", "99999999999999999999999", "+0"] {
        assert_eq!(parse_label(text.as_bytes()), text.parse::<usize>().ok(), "{:?}", text);
    }
    assert_eq!(parse_label(b"18446744073709551615"), Some(usize::MAX));
    assert_eq!(parse_label(b"18446744073709551616"), None);
    assert_eq!(parse_label(b"120"), Some(120));
}

#[test]
fn largest_label() {
    assert_eq!(max_vertex_label(&[]), 0);
    assert_eq!(max_vertex_label(&[(1, 2), (9, 3), (4, 8)]), 9);
    assert_eq!(max_vertex_label(&[(1, 2), (3, 11), (4, 8)]), 11);
}

#[test]
fn table_to_graph() {
    let edges = parse_edge_list(b"1,2\n2,3\n4,5\n").unwrap();
    let g = Graph::create_undirected(&edges);
    assert_eq!(g.example_function_for_testing(), max_vertex_label(&edges));
    assert_eq!(g.calculate_network_diameter(), None);
    assert_eq!(g.bfs_shortest_path(1, 3), Some(vec![0, 1, 2]));
}
