use lib::dsp::device::{land, Landing, Mark, Terminals};
use lib::dsp::netlist::GROUND;

fn marked(pattern: &[bool]) -> Vec<usize> {
    pattern.iter().enumerate().filter(|(_, &m)| m).map(|(i, _)| i).collect()
}

#[test]
fn a_conductance_marks_both_diagonals_and_both_couplings() {
    let mut pattern = vec![false; 9];
    let mut mark = Mark { pattern: &mut pattern, n: 3 };
    mark.conductance(0, 2);
    assert_eq!(marked(&pattern), vec![0, 2, 6, 8]);
}

#[test]
fn a_conductance_to_ground_marks_only_its_own_diagonal() {
    let mut pattern = vec![false; 9];
    let mut mark = Mark { pattern: &mut pattern, n: 3 };
    mark.conductance(1, GROUND);
    mark.conductance(GROUND, GROUND);
    assert_eq!(marked(&pattern), vec![4]);
}

#[test]
fn a_transconductance_marks_its_rows_against_its_controls() {
    let mut pattern = vec![false; 16];
    let mut mark = Mark { pattern: &mut pattern, n: 4 };
    mark.transconductance(0, 1, 2, GROUND);
    assert_eq!(marked(mark.pattern), vec![2, 6]);
    mark.transconductance(GROUND, 3, 0, 1);
    assert_eq!(marked(&pattern), vec![2, 6, 12, 13]);
}

#[test]
fn branch_terms_skip_a_grounded_node() {
    let mut pattern = vec![false; 9];
    let mut mark = Mark { pattern: &mut pattern, n: 3 };
    mark.branch_current(0, 2);
    mark.branch_constraint(2, 1);
    mark.branch_current(GROUND, 2);
    mark.branch_constraint(2, GROUND);
    assert_eq!(marked(&pattern), vec![2, 7]);
}

#[test]
fn an_op_amp_declares_both_of_its_states() {
    // Output 0, inputs 1 and 2, referenced to ground, branch row 3.
    let mut pattern = vec![false; 16];
    let mut mark = Mark { pattern: &mut pattern, n: 4 };
    Terminals::OpAmp { out: 0, plus: 1, minus: 2, reference: GROUND, branch: 3 }.footprint(&mut mark);
    // Row 0 takes the branch current; the branch row constrains the inputs
    // (linear) and the output (against a rail).
    assert_eq!(marked(&pattern), vec![3, 12, 13, 14]);
}

#[test]
fn a_triode_couples_plate_and_grid_through_the_cathode() {
    let mut pattern = vec![false; 9];
    let mut mark = Mark { pattern: &mut pattern, n: 3 };
    Terminals::Triode { p: 0, g: 1, k: 2 }.footprint(&mut mark);
    // Every entry of the three by three block but the grid row's plate column.
    assert_eq!(marked(&pattern), vec![0, 1, 2, 4, 5, 6, 7, 8]);
}

#[test]
fn a_pnp_and_an_npn_declare_mirrored_footprints() {
    let mut npn = vec![false; 9];
    Terminals::Bipolar { c: 0, b: 1, e: 2, pnp: false }.footprint(&mut Mark { pattern: &mut npn, n: 3 });
    let mut pnp = vec![false; 9];
    Terminals::Bipolar { c: 0, b: 1, e: 2, pnp: true }.footprint(&mut Mark { pattern: &mut pnp, n: 3 });
    // Both junctions couple every terminal to every other.
    assert_eq!(marked(&npn), (0..9).collect::<Vec<usize>>());
    assert_eq!(marked(&pnp), (0..9).collect::<Vec<usize>>());
}

#[test]
fn simple_devices_are_one_conductance() {
    let mut pattern = vec![false; 4];
    Terminals::Pair { a: 1, b: GROUND }.footprint(&mut Mark { pattern: &mut pattern, n: 2 });
    assert_eq!(marked(&pattern), vec![3]);
    let mut pattern = vec![false; 9];
    Terminals::Jfet { d: 0, g: 1, s: GROUND }.footprint(&mut Mark { pattern: &mut pattern, n: 3 });
    assert_eq!(marked(&pattern), vec![0, 1]);
    let mut pattern = vec![false; 16];
    Terminals::Pentode { p: 0, g: 1, k: GROUND, s: 2 }.footprint(&mut Mark { pattern: &mut pattern, n: 4 });
    assert_eq!(marked(&pattern), vec![0, 1, 2, 5, 9, 10]);
    let mut pattern = vec![false; 16];
    Terminals::Transconductor { plus: 0, minus: 1, out: 2, reference: GROUND }
        .footprint(&mut Mark { pattern: &mut pattern, n: 4 });
    assert_eq!(marked(&pattern), vec![8, 9]);
}

#[test]
fn ground_lands_nowhere_and_a_full_system_lands_in_place() {
    assert_eq!(land(GROUND, None, 4), Landing::Ground);
    assert_eq!(land(GROUND, Some(&[0, 1, 2]), 3), Landing::Ground);
    assert_eq!(land(3, None, 0), Landing::Row(3));
}

#[test]
fn a_condensed_stamp_lands_through_its_map_or_not_at_all() {
    let map = [usize::MAX, 0, 2, 1];
    assert_eq!(land(1, Some(&map), 3), Landing::Row(0));
    assert_eq!(land(3, Some(&map), 3), Landing::Row(1));
    assert_eq!(land(0, Some(&map), 3), Landing::Unmapped);
    assert_eq!(land(2, Some(&map), 2), Landing::Unmapped);
    assert_eq!(land(7, Some(&map), 3), Landing::Unmapped);
}
