use lib::dsp::partition::{
    is_partition, select, select_vector, BoundaryLayout, ReducedPivotProfile, ReducedSolveProfile,
};

#[test]
fn a_partition_names_every_unknown_once() {
    assert!(is_partition(4, &[0, 2], &[3, 1]));
    assert!(is_partition(0, &[], &[]));
    assert!(!is_partition(4, &[0, 2], &[3]));
    assert!(!is_partition(4, &[0, 2, 2], &[3, 1]));
    assert!(!is_partition(3, &[0, 2], &[3]));
    assert!(!is_partition(3, &[0, 1], &[1, 2]));
}

#[test]
fn a_block_is_gathered_row_by_row() {
    let matrix: Vec<u32> = (0..16).collect();
    assert_eq!(select(&matrix, &[1, 3], &[0, 2], 4), vec![4, 6, 12, 14]);
    assert_eq!(select(&matrix, &[2], &[3, 3, 0], 4), vec![11, 11, 8]);
    assert_eq!(select(&matrix, &[], &[1], 4), Vec::<u32>::new());
    assert_eq!(select_vector(&[10, 20, 30], &[2, 0]), vec![30, 10]);
    let values = [0.5f64, 1.5, 2.5];
    assert_eq!(select_vector(&values, &[1]), vec![1.5]);
}

#[test]
fn profile_deltas_never_go_below_zero() {
    let before = ReducedSolveProfile { dense_solve_ns: 100, recovery_ns: 50, calls: 3 };
    let after = ReducedSolveProfile { dense_solve_ns: 160, recovery_ns: 40, calls: 5 };
    let delta = after.saturating_delta(before);
    assert_eq!((delta.dense_solve_ns, delta.recovery_ns, delta.calls), (60, 0, 2));
    let none = after.saturating_delta(after);
    assert_eq!((none.dense_solve_ns, none.recovery_ns, none.calls), (0, 0, 0));
    let zero = ReducedSolveProfile::default();
    assert_eq!((zero.dense_solve_ns, zero.recovery_ns, zero.calls), (0, 0, 0));
    let pivots = ReducedPivotProfile::default();
    assert_eq!((pivots.replays, pivots.learns, pivots.invalidations), (0, 0, 0));
}

#[test]
fn a_boundary_layout_places_every_unknown() {
    let layout = BoundaryLayout::new(5, &[3, 1], &[4, 1, 0, 4, 9]).expect("a usable boundary");
    assert_eq!(layout.internal, vec![0, 2, 4]);
    let none = usize::MAX;
    assert_eq!(layout.node_to_boundary, vec![none, 1, none, 0, none]);
    assert_eq!(layout.internal_local_of_global, vec![0, none, 1, none, 2]);
    // Node 1 is on the boundary and 9 is out of range; 4 appears once.
    assert_eq!(layout.active_rhs_nodes, vec![4, 0]);
    assert_eq!(layout.active_internal_local, vec![2, 0]);
    assert_eq!(layout.boundary_matrix_slots, vec![18, 16, 8, 6]);
}

#[test]
fn an_unusable_boundary_has_no_layout() {
    assert!(BoundaryLayout::new(4, &[], &[]).is_none());
    assert!(BoundaryLayout::new(2, &[0, 1], &[]).is_none());
    assert!(BoundaryLayout::new(4, &[1, 1], &[]).is_none());
    assert!(BoundaryLayout::new(4, &[4], &[]).is_none());
}

#[test]
fn which_half_is_internal_does_not_matter() {
    for (internal, boundary) in [(&[0usize, 2][..], &[3usize, 1][..]), (&[0, 2], &[3]), (&[1, 1], &[0])] {
        assert_eq!(is_partition(4, internal, boundary), is_partition(4, boundary, internal));
    }
}
