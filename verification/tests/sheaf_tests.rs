use sheaf_spectral::graph::Graph;
use sheaf_spectral::sheaf::Sheaf;

#[test]
fn test_constant_sheaf_dims() {
    let g = Graph::path(3);
    let s = Sheaf::constant(&g, 2);
    assert_eq!(s.vertex_dims, vec![2, 2, 2]);
    assert_eq!(s.edge_dims, vec![2, 2]);
    assert_eq!(s.total_vertex_dim(), 6);
    assert_eq!(s.total_edge_dim(), 4);
}

#[test]
fn test_coboundary_constant_sheaf() {
    // Path graph 0-1-2 with constant sheaf d=1.
    // D should be the oriented incidence matrix:
    // Edge (0,1): row 0 → [-1, +1, 0]
    // Edge (1,2): row 1 → [0, -1, +1]
    let g = Graph::path(3);
    let s = Sheaf::constant(&g, 1);
    let blocks = s.coboundary_blocks(&g);
    assert_eq!(blocks.len(), 2);
    // D[(0, 0)] = -1: the tail block of edge 0 sits at row 0, column 0.
    assert_eq!((blocks[0].row, blocks[0].tail_col), (0, 0));
    // D[(0, 1)] = +1: the head block of edge 0 sits at row 0, column 1.
    assert_eq!((blocks[0].row, blocks[0].head_col), (0, 1));
    // D[(1, 1)] = -1 and D[(1, 2)] = +1.
    assert_eq!((blocks[1].row, blocks[1].tail_col), (1, 1));
    assert_eq!((blocks[1].row, blocks[1].head_col), (1, 2));
    for b in &blocks {
        assert_eq!((b.rows, b.tail_cols, b.head_cols), (1, 1, 1));
    }
}

#[test]
fn coboundary_blocks_with_mixed_stalks() {
    let mut g = Graph::new(3);
    g.add_edge(2, 0);
    g.add_edge(1, 2);
    let s = Sheaf { vertex_dims: vec![2, 1, 3], edge_dims: vec![4, 2] };
    assert_eq!(s.total_vertex_dim(), 6);
    assert_eq!(s.total_edge_dim(), 6);
    assert_eq!(s.vertex_offsets(), vec![0, 2, 3]);
    let blocks = s.coboundary_blocks(&g);
    // Edge 0 is (0, 2): rows 0..4, tail = vertex 0 (cols 0..2), head = vertex 2 (cols 3..6).
    assert_eq!(blocks[0].row, 0);
    assert_eq!(blocks[0].rows, 4);
    assert_eq!((blocks[0].tail_col, blocks[0].tail_cols), (0, 2));
    assert_eq!((blocks[0].head_col, blocks[0].head_cols), (3, 3));
    // Edge 1 is (1, 2): rows 4..6, tail = vertex 1 (col 2), head = vertex 2 (cols 3..6).
    assert_eq!(blocks[1].row, 4);
    assert_eq!(blocks[1].rows, 2);
    assert_eq!((blocks[1].tail_col, blocks[1].tail_cols), (2, 1));
    assert_eq!((blocks[1].head_col, blocks[1].head_cols), (3, 3));
}

#[test]
fn constant_sheaf_on_empty_graph() {
    let g = Graph::new(0);
    let s = Sheaf::constant(&g, 5);
    assert!(s.vertex_dims.is_empty());
    assert_eq!(s.total_vertex_dim(), 0);
    assert_eq!(s.total_edge_dim(), 0);
    assert!(s.vertex_offsets().is_empty());
}

#[test]
fn constant_sheaf_blocks_are_scaled_incidence() {
    let g = Graph::path(3);
    let s = Sheaf::constant(&g, 2);
    assert_eq!(s.vertex_offsets(), vec![0, 2, 4]);
    let blocks = s.coboundary_blocks(&g);
    assert_eq!((blocks[0].row, blocks[0].tail_col, blocks[0].head_col), (0, 0, 2));
    assert_eq!((blocks[1].row, blocks[1].tail_col, blocks[1].head_col), (2, 2, 4));
    for b in &blocks {
        assert_eq!((b.rows, b.tail_cols, b.head_cols), (2, 2, 2));
    }
}
