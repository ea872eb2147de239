use lib::dsp::time::full_trace::selected_solve;

#[test]
fn relative_sample_mapping_matches_tail_profiler() {
    assert_eq!(selected_solve(1024, 0), Some(1025));
    assert_eq!(selected_solve(1024, 59930), Some(60955));
    assert_eq!((59930 / 64, 59930 % 64), (936, 26));
    assert_eq!(selected_solve(u64::MAX, 0), None);
}

#[test]
fn a_selection_past_the_last_solve_is_refused() {
    assert_eq!(selected_solve(u64::MAX, 0), None);
    assert_eq!(selected_solve(u64::MAX - 1, 0), Some(u64::MAX));
    assert_eq!(selected_solve(1, u64::MAX), None);
    assert_eq!(selected_solve(0, u64::MAX - 1), Some(u64::MAX));
}
