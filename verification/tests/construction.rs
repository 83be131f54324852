use roadgraph::graph::Graph;

#[test]
fn test_example_function_for_testing() {
    // Arrange
    let mut g = Graph { outedges: vec![] };
    g.add_undirected_edges(&[(1, 2), (2, 3)]);

    // Act
    let result = g.example_function_for_testing();

    // Assert
    assert_eq!(result, 3);
}

#[test]
fn path_of_three_vertices() {
    let g = Graph::create_undirected(&[(1, 2), (2, 3)]);
    assert_eq!(g.example_function_for_testing(), 3);
    assert_eq!(g.outedges, vec![vec![1], vec![0, 2], vec![1]]);
    assert_eq!(g.bfs_shortest_path(1, 3), Some(vec![0, 1, 2]));
    let labels: Vec<usize> = g.bfs_shortest_path(1, 3).unwrap().iter().map(|v| v + 1).collect();
    assert_eq!(labels, vec![1, 2, 3]);
    assert_eq!(g.calculate_degrees(), vec![1, 2, 1]);
}

#[test]
fn self_loop_counts_twice() {
    let g = Graph::create_undirected(&[(1, 1)]);
    assert_eq!(g.outedges, vec![vec![0, 0]]);
    assert_eq!(g.calculate_degrees(), vec![2]);
}

#[test]
fn isolated_vertex_before_dangling_loop() {
    let g = Graph::create_undirected(&[(1, 2), (2, 3), (5, 5)]);
    assert_eq!(g.example_function_for_testing(), 5);
    assert_eq!(g.outedges[3], Vec::<usize>::new());
    assert_eq!(g.calculate_degrees()[3], 0);
    for other in [1usize, 2, 3, 5] {
        assert_eq!(g.bfs_shortest_path(4, other), None);
        assert_eq!(g.bfs_shortest_path(other, 4), None);
    }
}

#[test]
fn no_edges_no_vertices() {
    let g = Graph::create_undirected(&[]);
    assert_eq!(g.example_function_for_testing(), 0);
    assert_eq!(g.calculate_degrees(), Vec::<usize>::new());
}

#[test]
fn size_reaches_largest_label() {
    let edges = [(7usize, 2usize), (3, 9), (4, 4), (1, 6)];
    let g = Graph::create_undirected(&edges);
    assert_eq!(g.outedges.len(), 9);
    for (u, v) in edges {
        assert!(g.outedges[u - 1].contains(&(v - 1)));
        assert!(g.outedges[v - 1].contains(&(u - 1)));
    }
}

#[test]
fn insertion_keeps_input_order_and_earlier_entries() {
    let mut g = Graph { outedges: vec![vec![2], vec![], vec![0]] };
    g.add_undirected_edges(&[(1, 3), (1, 2), (4, 1)]);
    assert_eq!(g.outedges, vec![vec![2, 2, 1, 3], vec![0], vec![0, 0], vec![0]]);
}

#[test]
fn parallel_edges_are_kept() {
    let g = Graph::create_undirected(&[(1, 2), (2, 1), (1, 2)]);
    assert_eq!(g.outedges, vec![vec![1, 1, 1], vec![0, 0, 0]]);
    assert_eq!(g.calculate_degrees(), vec![3, 3]);
}

#[test]
fn sorting_orders_every_list() {
    let mut g = Graph { outedges: vec![vec![3, 1, 2, 1], vec![0], vec![0], vec![0]] };
    g.sort_graph_lists();
    assert_eq!(g.outedges, vec![vec![1, 1, 2, 3], vec![0], vec![0], vec![0]]);
}

#[test]
fn sorting_twice_changes_nothing_more() {
    let mut g = Graph { outedges: vec![] };
    g.add_undirected_edges(&[(1, 4), (1, 3), (1, 2), (3, 2), (3, 1)]);
    g.sort_graph_lists();
    let once = g.outedges.clone();
    g.sort_graph_lists();
    assert_eq!(g.outedges, once);
    assert_eq!(once[0], vec![1, 2, 2, 3]);
}

#[test]
fn creation_sorts_what_insertion_left() {
    let g = Graph::create_undirected(&[(1, 4), (1, 3), (1, 2)]);
    assert_eq!(g.outedges[0], vec![1, 2, 3]);
}

#[test]
fn well_formedness_is_checked() {
    assert!(Graph::create_undirected(&[(1, 2), (2, 3), (5, 5)]).is_well_formed());
    assert!(Graph { outedges: vec![] }.is_well_formed());
    assert!(Graph { outedges: vec![vec![1], vec![]] }.is_well_formed());
    assert!(!Graph { outedges: vec![vec![1], vec![2]] }.is_well_formed());
}
