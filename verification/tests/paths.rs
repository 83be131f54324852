use roadgraph::graph::Graph;

#[test]
fn shortest_path_takes_the_short_way() {
    // 1-2-3-4-5 and the chord 1-4
    let g = Graph::create_undirected(&[(1, 2), (2, 3), (3, 4), (4, 5), (1, 4)]);
    assert_eq!(g.bfs_shortest_path(1, 5), Some(vec![0, 3, 4]));
    assert_eq!(g.bfs_shortest_path(5, 1), Some(vec![4, 3, 0]));
    assert_eq!(g.bfs_shortest_path(2, 4), Some(vec![1, 0, 3]));
}

#[test]
fn shortest_path_steps_are_adjacent() {
    let g = Graph::create_undirected(&[(1, 2), (2, 3), (3, 4), (4, 5), (5, 6), (6, 1), (2, 5)]);
    for start in 1..=6usize {
        for end in 1..=6usize {
            let path = g.bfs_shortest_path(start, end).unwrap();
            assert_eq!(path[0], start - 1);
            assert_eq!(path[path.len() - 1], end - 1);
            for step in path.windows(2) {
                assert!(g.outedges[step[0]].contains(&step[1]));
            }
            assert!(path.len() <= 4);
        }
    }
    assert_eq!(g.bfs_shortest_path(1, 4).unwrap().len(), 4);
    assert_eq!(g.bfs_shortest_path(1, 5).unwrap().len(), 3);
}

#[test]
fn ties_go_to_the_smaller_neighbour() {
    // two ways of equal length from 1 to 4: over 2 and over 3
    let g = Graph::create_undirected(&[(1, 3), (1, 2), (3, 4), (2, 4)]);
    assert_eq!(g.bfs_shortest_path(1, 4), Some(vec![0, 1, 3]));
    assert_eq!(g.bfs_shortest_path(4, 1), Some(vec![3, 1, 0]));
}

#[test]
fn neighbours_are_taken_as_listed() {
    let g = Graph { outedges: vec![vec![2, 1], vec![0, 3], vec![0, 3], vec![2, 1]] };
    assert_eq!(g.bfs_shortest_path(1, 4), Some(vec![0, 2, 3]));
}

#[test]
fn no_path_between_components() {
    let g = Graph::create_undirected(&[(1, 2), (2, 3), (4, 5)]);
    assert_eq!(g.bfs_shortest_path(3, 4), None);
    assert_eq!(g.bfs_shortest_path(4, 3), None);
    assert_eq!(g.bfs_shortest_path(1, 5), None);
    assert_eq!(g.bfs_shortest_path(4, 5), Some(vec![3, 4]));
}

#[test]
fn path_to_itself_is_one_vertex() {
    let g = Graph::create_undirected(&[(1, 2), (2, 3), (3, 1)]);
    for v in 1..=3usize {
        assert_eq!(g.bfs_shortest_path(v, v), Some(vec![v - 1]));
    }
}

#[test]
fn path_to_itself_beyond_the_graph() {
    let g = Graph::create_undirected(&[(1, 2)]);
    assert_eq!(g.bfs_shortest_path(7, 7), Some(vec![6]));
}

#[test]
fn end_beyond_the_graph_is_not_reached() {
    let g = Graph::create_undirected(&[(1, 2)]);
    assert_eq!(g.bfs_shortest_path(1, 7), None);
}

#[test]
fn self_loops_and_parallel_edges_do_not_lengthen_paths() {
    let g = Graph::create_undirected(&[(1, 1), (1, 2), (1, 2), (2, 2), (2, 3)]);
    assert_eq!(g.bfs_shortest_path(1, 3), Some(vec![0, 1, 2]));
}
