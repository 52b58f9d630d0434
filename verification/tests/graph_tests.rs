use sheaf_spectral::graph::Graph;

#[test]
fn test_complete_graph_edges() {
    let g = Graph::complete(4);
    assert_eq!(g.num_edges(), 6);
    assert_eq!(g.degree(0), 3);
}

#[test]
fn test_path_graph() {
    let g = Graph::path(4);
    assert_eq!(g.num_edges(), 3);
    assert_eq!(g.degree(0), 1);
    assert_eq!(g.degree(1), 2);
    assert!(g.is_connected());
}

#[test]
fn test_cycle_graph() {
    let g = Graph::cycle(5);
    assert_eq!(g.num_edges(), 5);
    for v in 0..5 {
        assert_eq!(g.degree(v), 2);
    }
}

#[test]
fn test_graph_laplacian() {
    let g = Graph::path(3);
    let l = g.laplacian();
    // L = [[1,-1,0],[-1,2,-1],[0,-1,1]]
    assert_eq!(l[0][0], 1);
    assert_eq!(l[0][1], -1);
    assert_eq!(l[1][1], 2);
    assert_eq!(l[2][2], 1);
}

#[test]
fn test_connectivity() {
    let mut g = Graph::new(4);
    g.add_edge(0, 1);
    g.add_edge(2, 3);
    assert!(!g.is_connected());
    g.add_edge(1, 2);
    assert!(g.is_connected());
}

#[test]
fn add_edge_normalizes_and_ignores_duplicates() {
    let mut g = Graph::new(3);
    g.add_edge(2, 0);
    g.add_edge(0, 2);
    g.add_edge(1, 2);
    assert_eq!(g.num_edges(), 2);
    assert_eq!(g.edge_endpoints(0), (0, 2));
    assert_eq!(g.edge_endpoints(1), (1, 2));
    assert_eq!(g.degree(2), 2);
    assert_eq!(g.degree(0), 1);
}

#[test]
fn small_graphs() {
    assert_eq!(Graph::complete(0).num_edges(), 0);
    assert_eq!(Graph::complete(1).num_edges(), 0);
    assert_eq!(Graph::complete(5).num_edges(), 10);
    assert_eq!(Graph::path(0).num_edges(), 0);
    assert_eq!(Graph::path(1).num_edges(), 0);
    assert_eq!(Graph::cycle(2).num_edges(), 1);
    assert_eq!(Graph::cycle(3).num_edges(), 3);
    assert_eq!(Graph::path(5).edges, vec![(0, 1), (1, 2), (2, 3), (3, 4)]);
    assert_eq!(Graph::cycle(4).edges, vec![(0, 1), (1, 2), (2, 3), (0, 3)]);
}

#[test]
fn connectivity_edge_cases() {
    assert!(Graph::new(0).is_connected());
    assert!(Graph::new(1).is_connected());
    assert!(!Graph::new(2).is_connected());
    assert!(Graph::complete(6).is_connected());
    assert!(Graph::cycle(7).is_connected());
    let mut g = Graph::new(5);
    g.add_edge(0, 4);
    g.add_edge(4, 3);
    g.add_edge(1, 2);
    assert!(!g.is_connected());
    g.add_edge(2, 3);
    assert!(g.is_connected());
}

#[test]
fn incidence_matrix_is_oriented() {
    let g = Graph::path(3);
    let b = g.incidence_matrix();
    assert_eq!(b, vec![vec![1, 0], vec![-1, 1], vec![0, -1]]);
    let empty = Graph::new(2).incidence_matrix();
    assert_eq!(empty, vec![Vec::<i64>::new(), Vec::new()]);
}

#[test]
fn laplacian_is_degree_minus_adjacency() {
    let g = Graph::complete(3);
    assert_eq!(g.laplacian(), vec![vec![2, -1, -1], vec![-1, 2, -1], vec![-1, -1, 2]]);
    let c = Graph::cycle(4);
    let l = c.laplacian();
    assert_eq!(l[0], vec![2, -1, 0, -1]);
    assert_eq!(l[2], vec![0, -1, 2, -1]);
    for i in 0..4 {
        assert_eq!(l[i].iter().sum::<i64>(), 0);
        for j in 0..4 {
            assert_eq!(l[i][j], l[j][i]);
        }
    }
    let trace: i64 = (0..4).map(|i| l[i][i]).sum();
    assert_eq!(trace, 2 * c.num_edges() as i64);
}

#[test]
fn laplacian_quadratic_form_is_sum_of_squared_differences() {
    let g = Graph::cycle(5);
    let l = g.laplacian();
    let x: Vec<i64> = vec![3, -1, 4, 1, -5];
    let mut form = 0i64;
    for i in 0..5 {
        for j in 0..5 {
            form += x[i] * l[i][j] * x[j];
        }
    }
    let expected: i64 = g.edges.iter().map(|&(a, b)| (x[a] - x[b]) * (x[a] - x[b])).sum();
    assert_eq!(form, expected);
    assert_eq!(form, 16 + 25 + 9 + 36 + 64);
    // Constant vectors are harmonic.
    for i in 0..5 {
        assert_eq!(l[i].iter().map(|v| v * 7).sum::<i64>(), 0);
    }
}

#[test]
fn complete_graph_edges_in_lexicographic_order() {
    assert_eq!(Graph::complete(3).edges, vec![(0, 1), (0, 2), (1, 2)]);
    assert_eq!(
        Graph::complete(4).edges,
        vec![(0, 1), (0, 2), (0, 3), (1, 2), (1, 3), (2, 3)]
    );
    let g = Graph::complete(4);
    for v in 0..4 {
        assert_eq!(g.degree(v), 3);
    }
}
