use sheaf_spectral::graph::Graph;
use sheaf_spectral::persistent::PersistentSheaf;
use sheaf_spectral::sheaf::Sheaf;

fn identity_order(g: &Graph) -> Vec<usize> {
    (0..g.num_edges()).collect()
}

fn infinite_bars(deaths: &[Option<usize>]) -> usize {
    deaths.iter().filter(|d| d.is_none()).count()
}

#[test]
fn test_persistent_h0_empty_graph() {
    let g = Graph::new(3);
    let s = Sheaf::constant(&g, 1);
    let order = identity_order(&g);
    let ps = PersistentSheaf::new(g, s);
    let barcode = ps.compute_persistent_h0(&order);
    // 3 disconnected vertices: 3 bars, all infinite
    assert_eq!(barcode.len(), 3);
    for bar in &barcode {
        assert!(bar.is_none());
    }
}

#[test]
fn test_persistent_h0_connected() {
    let g = Graph::path(3);
    let s = Sheaf::constant(&g, 1);
    let order = identity_order(&g);
    let ps = PersistentSheaf::new(g, s);
    let barcode = ps.compute_persistent_h0(&order);
    // Path(3) connected: 3 bars born, 2 die → 1 infinite
    assert_eq!(barcode.len(), 3);
    assert_eq!(infinite_bars(&barcode), 1);
}

#[test]
fn test_persistent_h0_complete() {
    let g = Graph::complete(4);
    let s = Sheaf::constant(&g, 1);
    let order = identity_order(&g);
    let ps = PersistentSheaf::new(g, s);
    let barcode = ps.compute_persistent_h0(&order);
    // 4 vertices, 6 edges: 4 bars, 3 die → 1 infinite
    assert_eq!(barcode.len(), 4);
    assert_eq!(infinite_bars(&barcode), 1);
}

#[test]
fn test_persistent_h0_dim2() {
    let g = Graph::path(3);
    let s = Sheaf::constant(&g, 2);
    let order = identity_order(&g);
    let ps = PersistentSheaf::new(g, s);
    let barcode = ps.compute_persistent_h0(&order);
    // 3 vertices × 2 = 6 bars, 2 edges × 2 = 4 die → 2 infinite
    assert_eq!(barcode.len(), 6);
    assert_eq!(infinite_bars(&barcode), 2);
}

#[test]
fn h0_deaths_follow_the_merges() {
    // Complete graph on 3 vertices, edges (0,1), (0,2), (1,2).
    // Order: (1,2) first, then (0,1), then (0,2), which closes a cycle.
    let g = Graph::complete(3);
    let s = Sheaf::constant(&g, 2);
    let ps = PersistentSheaf::new(g, s);
    let deaths = ps.compute_persistent_h0(&vec![2, 0, 1]);
    assert_eq!(deaths, vec![Some(0), Some(0), Some(1), Some(1), None, None]);
}

#[test]
fn h0_infinite_bars_count_components() {
    // Two components: {0, 1, 2} and {3, 4}; vertex 5 isolated.
    let mut g = Graph::new(6);
    g.add_edge(0, 1);
    g.add_edge(1, 2);
    g.add_edge(0, 2);
    g.add_edge(3, 4);
    let s = Sheaf::constant(&g, 1);
    let ps = PersistentSheaf::new(g, s);
    let deaths = ps.compute_persistent_h0(&vec![3, 2, 1, 0]);
    assert_eq!(infinite_bars(&deaths), 3);
    assert_eq!(deaths, vec![Some(0), Some(1), Some(2), None, None, None]);
}

#[test]
fn exact_h0_from_kernel_dims() {
    let g = Graph::path(3);
    let s = Sheaf::constant(&g, 1);
    let ps = PersistentSheaf::new(g, s);
    // Kernel dimensions of the sheaf Laplacian after each edge of path(3).
    let deaths = ps.compute_persistent_h0_exact(&vec![2, 1]);
    assert_eq!(deaths, vec![Some(0), Some(1), None]);
    assert_eq!(infinite_bars(&deaths), 1);
    // A step that does not change the kernel kills nothing.
    let deaths = ps.compute_persistent_h0_exact(&vec![3, 1]);
    assert_eq!(deaths, vec![Some(1), Some(1), None]);
    let deaths = ps.compute_persistent_h0_exact(&vec![]);
    assert_eq!(deaths, vec![None, None, None]);
}

#[test]
fn filtration_subgraph_and_subsheaf() {
    let g = Graph::cycle(4);
    let s = Sheaf { vertex_dims: vec![1, 1, 1, 1], edge_dims: vec![1, 2, 3, 4] };
    let ps = PersistentSheaf::new(g, s);
    let order = vec![3, 1, 0, 2];
    let sub = ps.filtration_subgraph(&order, 2);
    assert_eq!(sub.n, 4);
    assert_eq!(sub.edges, vec![(0, 3), (1, 2)]);
    assert!(!sub.is_connected());
    let full = ps.filtration_subgraph(&order, 4);
    assert!(full.is_connected());
    let sub_sheaf = ps.filtration_subsheaf(&order, 2);
    assert_eq!(sub_sheaf.vertex_dims, vec![1, 1, 1, 1]);
    assert_eq!(sub_sheaf.edge_dims, vec![4, 2]);
}

#[test]
fn test_exact_persistent_h0() {
    let g = Graph::path(3);
    let s = Sheaf::constant(&g, 1);
    let ps = PersistentSheaf::new(g, s);
    // dim ker L of the constant sheaf on the filtration of path(3): 2 after the first
    // edge, 1 after the second.
    let barcode = ps.compute_persistent_h0_exact(&vec![2, 1]);
    assert_eq!(barcode.len(), 3);
    assert_eq!(infinite_bars(&barcode), 1);
}

#[test]
fn exact_and_union_find_agree_on_constant_sheaf() {
    let g = Graph::complete(4);
    let s = Sheaf::constant(&g, 2);
    let order = identity_order(&g);
    let ps = PersistentSheaf::new(g, s);
    let fast = ps.compute_persistent_h0(&order);
    // Kernel dimensions of the constant sheaf: 2 per component after each step.
    let exact = ps.compute_persistent_h0_exact(&vec![6, 4, 2, 2, 2, 2]);
    assert_eq!(fast, exact);
    assert_eq!(fast, vec![Some(0), Some(0), Some(1), Some(1), Some(2), Some(2), None, None]);
}
