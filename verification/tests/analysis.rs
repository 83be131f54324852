use roadgraph::analysis::rank_by_degree;
use roadgraph::graph::Graph;

#[test]
fn diameter_undefined_when_disconnected() {
    let g = Graph::create_undirected(&[(1, 2), (2, 3), (4, 5)]);
    assert_eq!(g.bfs_shortest_path(3, 4), None);
    assert_eq!(g.calculate_network_diameter(), None);
}

#[test]
fn diameter_counts_vertices() {
    let g = Graph::create_undirected(&[(1, 2), (2, 3)]);
    assert_eq!(g.calculate_network_diameter(), Some(3));
    let ring = Graph::create_undirected(&[(1, 2), (2, 3), (3, 4), (4, 5), (5, 6), (6, 1)]);
    assert_eq!(ring.calculate_network_diameter(), Some(4));
    let pair = Graph::create_undirected(&[(1, 2)]);
    assert_eq!(pair.calculate_network_diameter(), Some(2));
}

#[test]
fn diameter_of_small_graphs_is_zero() {
    assert_eq!(Graph::create_undirected(&[]).calculate_network_diameter(), Some(0));
    assert_eq!(Graph::create_undirected(&[(1, 1)]).calculate_network_diameter(), Some(0));
}

#[test]
fn diameter_undefined_with_isolated_vertex() {
    let g = Graph::create_undirected(&[(1, 2), (2, 3), (5, 5)]);
    assert_eq!(g.calculate_network_diameter(), None);
}

#[test]
fn built_graphs_have_no_one_way_entries() {
    let g = Graph::create_undirected(&[(1, 2), (2, 3), (3, 1), (1, 2), (4, 4), (2, 5)]);
    assert_eq!(g.calculate_local_bridges(), 0);
}

#[test]
fn one_way_entries_are_counted_each() {
    // 0 lists 1 twice and 2 once; 1 does not list 0; 2 lists 0
    let g = Graph { outedges: vec![vec![1, 1, 2], vec![2], vec![0]] };
    assert_eq!(g.calculate_local_bridges(), 3);
}

#[test]
fn degree_sum_counts_both_ends() {
    let g = Graph::create_undirected(&[(1, 2), (2, 3), (3, 3)]);
    assert_eq!(g.degree_sum(), 6);
    assert_eq!(Graph::create_undirected(&[]).degree_sum(), 0);
}

#[test]
fn reference_distances_count_vertices() {
    let g = Graph::create_undirected(&[(1, 2), (2, 3), (5, 6)]);
    assert_eq!(
        g.reference_distances(),
        vec![Some(1), Some(2), Some(3), None, None, None]
    );
}

#[test]
fn closeness_terms_of_a_path() {
    let g = Graph::create_undirected(&[(1, 2), (2, 3)]);
    let terms = g.reference_distances();
    let sum: f64 = terms.iter().flatten().map(|d| 1.0 / *d as f64).sum();
    let average_closeness = sum / terms.len() as f64;
    let average_degree = g.degree_sum() as f64 / terms.len() as f64;
    assert!((average_closeness - (1.0 + 0.5 + 1.0 / 3.0) / 3.0).abs() < 1e-12);
    assert!((average_degree - 4.0 / 3.0).abs() < 1e-12);
}

#[test]
fn ranking_is_by_degree_then_index() {
    assert_eq!(rank_by_degree(&vec![2, 0, 3, 0, 2, 1]), vec![1, 3, 5, 0, 4, 2]);
    assert_eq!(rank_by_degree(&vec![]), Vec::<usize>::new());
    assert_eq!(rank_by_degree(&vec![5, 5, 5]), vec![0, 1, 2]);
    assert_eq!(rank_by_degree(&vec![3, 2, 1]), vec![2, 1, 0]);
}

#[test]
fn ranking_of_a_star() {
    let g = Graph::create_undirected(&[(1, 2), (1, 3), (1, 4), (2, 3)]);
    let degrees = g.calculate_degrees();
    assert_eq!(degrees, vec![3, 2, 2, 1]);
    assert_eq!(rank_by_degree(&degrees), vec![3, 1, 2, 0]);
}
