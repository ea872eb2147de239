use lib::dsp::netlist::Netlist;
use lib::dsp::time::{
    boundary_candidates, boundary_nodes, compact_rows, marked_slots, nonlinear_reduction_worthwhile,
    optional_promotions, structure_templates,
};

#[test]
fn tiny_circuits_are_not_condensed() {
    assert!(!nonlinear_reduction_worthwhile(5, 1));
    assert!(!nonlinear_reduction_worthwhile(10, 0));
    assert!(!nonlinear_reduction_worthwhile(10, 10));
    assert!(!nonlinear_reduction_worthwhile(6, 5));
}

#[test]
fn condensation_pays_when_the_boundary_is_small() {
    // 8 + 32 + 4 = 44 against 850.
    assert!(nonlinear_reduction_worthwhile(10, 2));
    // 64 + 16 + 16 = 96 against 183.6.
    assert!(nonlinear_reduction_worthwhile(6, 4));
    // 5832 + 72 + 324 = 6228 against 6800; one more is 7258.
    assert!(nonlinear_reduction_worthwhile(20, 18));
    assert!(!nonlinear_reduction_worthwhile(20, 19));
}

#[test]
fn the_bounds_reach_the_last_marked_entry() {
    // Row 0 reaches column 2; row 1 has nothing past its diagonal; row 2
    // holds only its diagonal. Column 0 goes down to row 2.
    let pattern = [
        true, false, true, //
        false, false, false, //
        true, false, true,
    ];
    let (reach, depth) = structure_templates(&pattern, 3);
    assert_eq!(reach, vec![2, 1, 2]);
    assert_eq!(depth, vec![2, 1, 2]);
    let (offsets, columns, slots) = compact_rows(&pattern, &reach, 3);
    assert_eq!(offsets, vec![0, 2, 2, 4]);
    assert_eq!(columns, vec![0, 2, 0, 2]);
    assert_eq!(slots, vec![0, 2, 6, 8]);
    assert_eq!(marked_slots(&pattern), vec![0, 2, 6, 8]);
}

#[test]
fn an_empty_pattern_leaves_every_bound_on_the_diagonal() {
    let pattern = [false; 16];
    let (reach, depth) = structure_templates(&pattern, 4);
    assert_eq!(reach, vec![0, 1, 2, 3]);
    assert_eq!(depth, vec![0, 1, 2, 3]);
    let (offsets, columns, slots) = compact_rows(&pattern, &reach, 4);
    assert_eq!(offsets, vec![0; 5]);
    assert!(columns.is_empty() && slots.is_empty());
}

#[test]
fn the_boundary_holds_what_the_devices_touch() {
    let mut net = Netlist::new("stage");
    net.input("in", true)
        .capacitor("in", "g", true)
        .resistor("g", "gnd", true)
        .triode("p", "g", "k", true)
        .resistor("p", "b+", true)
        .supply("b+", true)
        .resistor("k", "gnd", true)
        .resistor("p", "out", true)
        .resistor("out", "gnd", true);
    let circuit = net.build("out").expect("a triode stage is a circuit");
    let n = circuit.unknowns();
    let (boundary, active) = boundary_nodes(&circuit, n);
    let mut named: Vec<&str> = boundary.iter().map(|&k| circuit.node_name(k)).collect();
    named.sort();
    assert_eq!(named, vec!["g", "k", "p"]);
    let mut driven: Vec<&str> = active.iter().map(|&k| circuit.node_name(k)).collect();
    driven.sort();
    assert_eq!(driven, vec!["b+", "g", "in"]);
    assert!(boundary.windows(2).all(|w| w[0] < w[1]));
    assert!(active.windows(2).all(|w| w[0] < w[1]));
}

#[test]
fn candidates_promote_the_fewest_unknowns_first() {
    let candidates = boundary_candidates(&vec![4, 1], &vec![2, 3]);
    assert_eq!(
        candidates,
        vec![vec![1, 4], vec![1, 2, 4], vec![1, 3, 4], vec![1, 2, 3, 4]]
    );
    let alone = boundary_candidates(&vec![5, 0], &vec![]);
    assert_eq!(alone, vec![vec![0, 5]]);
}

#[test]
fn a_long_optional_list_tries_only_the_two_ends() {
    let optional: Vec<usize> = (10..21).collect();
    let candidates = boundary_candidates(&vec![3, 1, 12], &optional);
    assert_eq!(candidates.len(), 2);
    assert_eq!(candidates[0], vec![3, 1, 12]);
    let mut expected: Vec<usize> = vec![1, 3];
    expected.extend(10..21);
    assert_eq!(candidates[1], expected);
}

#[test]
fn transformer_branches_and_the_output_may_be_promoted() {
    let mut net = Netlist::new("iron");
    net.input("in", true)
        .resistor("in", "p", true)
        .transformer("p", "gnd", "s", "gnd", true)
        .diode("s", "out", true)
        .resistor("out", "gnd", true);
    let circuit = net.build("out").expect("a transformer into a diode is a circuit");
    let n = circuit.unknowns();
    let (boundary, _) = boundary_nodes(&circuit, n);
    let optional = optional_promotions(&circuit, &boundary, n);
    // The diode's ends are on the boundary already, so only the transformer's
    // branch is left to promote.
    assert_eq!(optional, vec![circuit.branch_of(2)]);
    let optional = optional_promotions(&circuit, &vec![], n);
    let mut expected = vec![circuit.branch_of(2), circuit.output];
    expected.sort();
    assert_eq!(optional, expected);
}

#[test]
fn the_gate_is_exact_for_the_largest_sizes() {
    assert!(nonlinear_reduction_worthwhile(1 << 40, 1_041_532_441_408));
    assert!(!nonlinear_reduction_worthwhile(1 << 40, 1_041_532_441_409));
    let n = u64::MAX as usize;
    assert!(nonlinear_reduction_worthwhile(n, 1));
    assert!(nonlinear_reduction_worthwhile(n, 17_474_014_740_522_471_622));
    assert!(!nonlinear_reduction_worthwhile(n, 17_474_014_740_522_471_623));
    assert!(!nonlinear_reduction_worthwhile(n, n - 2));
}
