use sheaf_spectral::connection::connection_layout;
use sheaf_spectral::graph::Graph;
use sheaf_spectral::neural::{layer_shapes, SimpleRng};
use sheaf_spectral::spectrum::{count_set_flags, first_set_flag, split_by_flag};

#[test]
fn rng_is_xorshift64() {
    let mut rng = SimpleRng::new(42);
    assert_eq!(rng.next_u64(), 45454805674);
    assert_eq!(rng.next_u64(), 11532217803599905471);
}

#[test]
fn rng_zero_seed_behaves_as_one() {
    let mut a = SimpleRng::new(0);
    let mut b = SimpleRng::new(1);
    assert_eq!(a.next_u64(), 1082269761);
    assert_eq!(b.next_u64(), 1082269761);
    for _ in 0..100 {
        let x = a.next_u64();
        assert_eq!(x, b.next_u64());
        assert_ne!(x, 0);
    }
}

#[test]
fn layer_shapes_are_consecutive_pairs() {
    assert_eq!(layer_shapes(&vec![2, 4, 3]), vec![(2, 4), (4, 3)]);
    assert_eq!(layer_shapes(&vec![3, 8, 4, 1]), vec![(3, 8), (8, 4), (4, 1)]);
    assert_eq!(layer_shapes(&vec![5]), vec![]);
    assert_eq!(layer_shapes(&vec![]), vec![]);
}

#[test]
fn spectrum_flags() {
    let zero = vec![true, true, false, false, false];
    assert_eq!(count_set_flags(&zero), 2);
    assert_eq!(split_by_flag(&zero), (vec![0, 1], vec![2, 3, 4]));
    let positive = vec![false, false, true, true];
    assert_eq!(first_set_flag(&positive), Some(2));
    assert_eq!(first_set_flag(&vec![false, false]), None);
    assert_eq!(first_set_flag(&vec![]), None);
    let mixed = vec![false, true, false, true];
    let (set, unset) = split_by_flag(&mixed);
    assert_eq!(set, vec![1, 3]);
    assert_eq!(unset, vec![0, 2]);
    assert_eq!(set.len() + unset.len(), mixed.len());
    assert_eq!(count_set_flags(&vec![]), 0);
}

#[test]
fn connection_layout_blocks() {
    let g = Graph::path(3);
    let lay = connection_layout(&g, 2);
    assert_eq!(lay.size, 6);
    assert_eq!(lay.offsets, vec![0, 2, 4]);
    assert_eq!(lay.degrees, vec![1, 2, 1]);
    let lay = connection_layout(&Graph::complete(4), 3);
    assert_eq!(lay.size, 12);
    assert_eq!(lay.degrees, vec![3, 3, 3, 3]);
    assert_eq!(lay.offsets, vec![0, 3, 6, 9]);
}
