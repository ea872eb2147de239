use lib::dsp::netlist::{cuthill_mckee, Fault, Netlist, Part, GROUND};

/// An input driving a divider: `in` through a resistor to `out`, and `out`
/// through another to ground.
fn divider() -> Netlist {
    let mut net = Netlist::new("divider");
    net.input("in", true).resistor("in", "out", true).resistor("out", "gnd", true);
    net
}

fn is_permutation(to: &[usize]) -> bool {
    let mut seen = vec![false; to.len()];
    for &x in to {
        if x >= to.len() || seen[x] {
            return false;
        }
        seen[x] = true;
    }
    true
}

#[test]
fn asking_for_a_node_twice_gives_the_same_index() {
    let mut net = Netlist::new("nodes");
    let plate = net.node("plate");
    let grid = net.node("grid");
    assert_eq!(plate, 0);
    assert_eq!(grid, 1);
    assert_eq!(net.node("plate"), plate);
    assert_eq!(net.node("grid"), grid);
    assert_eq!(net.ground(), GROUND);
}

#[test]
fn a_divider_builds_and_names_every_unknown() {
    let circuit = divider().build("out").expect("a divider is a circuit");
    assert_eq!(circuit.nodes, 2);
    assert_eq!(circuit.branches, 0);
    assert_eq!(circuit.unknowns(), 2);
    assert_eq!(circuit.names.len(), 2);
    assert_eq!(circuit.node_name(circuit.output), "out");
    assert_eq!(circuit.node_name(GROUND), "gnd");
    assert!(circuit.is_linear());
    assert_eq!(circuit.parts.len(), 3);
    assert_eq!(circuit.branch_row, vec![usize::MAX; 3]);
    // Ground stays ground through the renumbering.
    match circuit.parts[2] {
        Part::Resistor { b, .. } => assert_eq!(b, GROUND),
        _ => panic!("the third part is the resistor to ground"),
    }
}

#[test]
fn a_missing_output_is_refused_by_name() {
    let fault = divider().build("plate").err().expect("no node called plate");
    assert_eq!(
        fault,
        Fault::Malformed("'divider' has no node called 'plate' to take its output from".to_string())
    );
}

#[test]
fn a_circuit_without_an_input_is_refused() {
    let mut net = Netlist::new("silent");
    net.resistor("a", "b", true).resistor("a", "b", true);
    assert_eq!(
        net.build("b").err(),
        Some(Fault::Malformed("'silent' has no input".to_string()))
    );
}

#[test]
fn a_value_that_cannot_be_stamped_is_refused() {
    let mut net = Netlist::new("broken");
    net.input("in", true).capacitor("in", "out", false).resistor("out", "gnd", true);
    assert_eq!(
        net.build("out").err(),
        Some(Fault::Malformed("a capacitor in 'broken' has a value of zero or less".to_string()))
    );
}

#[test]
fn a_node_connected_once_is_dangling() {
    let mut net = Netlist::new("loose");
    net.input("in", true).resistor("in", "out", true).resistor("out", "gnd", true);
    net.resistor("out", "nowhere", true);
    let fault = net.build("out").err().expect("nowhere has one connection");
    assert_eq!(fault, Fault::Dangling { node: "nowhere".to_string(), connections: 1 });
    assert_eq!(
        fault.to_string(),
        "node 'nowhere' has 1 connection(s); it needs at least two or its row of the matrix is empty and the solve returns NaN"
    );
}

#[test]
fn an_output_the_input_cannot_reach_is_refused() {
    let mut net = Netlist::new("islands");
    net.input("in", true).resistor("in", "gnd", true);
    net.resistor("out", "gnd", true).resistor("out", "gnd", true);
    let fault = net.build("out").err().expect("nothing joins in to out");
    assert_eq!(fault, Fault::Unreachable { from: "in".to_string(), to: "out".to_string() });
    assert_eq!(fault.to_string(), "no path from 'in' to 'out'");
}

#[test]
fn ground_is_not_a_path() {
    // Both halves touch ground, and that does not join them.
    let mut net = Netlist::new("shared ground");
    net.input("in", true).resistor("in", "ground", true);
    net.diode("out", "gnd", true).resistor("out", "gnd", true);
    assert!(matches!(net.build("out"), Err(Fault::Unreachable { .. })));
}

#[test]
fn a_chain_is_numbered_from_its_far_end() {
    // in - mid - out, each touching only its neighbours. Breadth first from
    // the least connected end gives in, mid, out; reversed, in is last.
    let mut net = Netlist::new("chain");
    net.input("in", true)
        .resistor("in", "mid", true)
        .resistor("mid", "out", true)
        .resistor("out", "gnd", true);
    let circuit = net.build("out").expect("a chain is a circuit");
    assert_eq!(circuit.names, vec!["out".to_string(), "mid".to_string(), "in".to_string()]);
    assert_eq!(circuit.output, 0);
    assert_eq!(circuit.parts[0], Part::Input { node: 2 });
    assert_eq!(circuit.parts[1], Part::Resistor { a: 2, b: 1 });
}

#[test]
fn branch_rows_are_named_and_ordered_with_the_nodes() {
    let mut net = Netlist::new("transformer");
    net.input("in", true)
        .resistor("in", "p", true)
        .transformer("p", "gnd", "s", "gnd", true)
        .resistor("s", "out", true)
        .resistor("out", "gnd", true)
        .opamp("o", "s", "o", true)
        .resistor("o", "gnd", true);
    let circuit = net.build("out").expect("a transformer stage is a circuit");
    assert_eq!(circuit.nodes, 5);
    assert_eq!(circuit.branches, 2);
    assert_eq!(circuit.unknowns(), 7);
    let row = circuit.branch_of(2);
    assert_eq!(circuit.names[row], "i0");
    let op_row = circuit.branch_of(5);
    assert_eq!(circuit.names[op_row], "i1");
    assert_ne!(row, op_row);
    assert_eq!(circuit.branch_of(0), usize::MAX);
    assert!(!circuit.is_linear());
    let mut names = circuit.names.clone();
    names.sort();
    assert_eq!(names, vec!["i0", "i1", "in", "o", "out", "p", "s"]);
}

#[test]
fn the_renumbering_is_a_permutation() {
    let parts = vec![
        Part::Input { node: 0 },
        Part::Resistor { a: 0, b: 1 },
        Part::Transformer { p1: 1, p2: GROUND, s1: 2, s2: GROUND },
        Part::Triode { p: 3, g: 2, k: 4 },
        Part::Resistor { a: 4, b: GROUND },
        Part::OpAmp { out: 3, plus: 2, minus: 3, reference: GROUND },
    ];
    let to = cuthill_mckee(&parts, 5);
    assert_eq!(to.len(), 7);
    assert!(is_permutation(&to));
    assert_eq!(cuthill_mckee(&[], 0), Vec::<usize>::new());
    // Nodes nobody touches still get a place.
    let to = cuthill_mckee(&[], 3);
    assert!(is_permutation(&to));
}

#[test]
fn initial_voltages_and_rests_are_carried_through() {
    let mut net = Netlist::new("controls");
    net.input("in", true)
        .pot("in", "w", "gnd", 2, true)
        .resistor("w", "gnd", true)
        .initial_voltage("w")
        .rest(4);
    let circuit = net.build("w").expect("a pot stage is a circuit");
    assert_eq!(circuit.controls, 5);
    assert_eq!(circuit.resting, vec![4]);
    assert_eq!(circuit.initial_nodes.len(), 1);
    assert_eq!(circuit.node_name(circuit.initial_nodes[0]), "w");
}

#[test]
fn parts_report_what_they_touch() {
    let pentode = Part::Pentode { p: 1, g: 2, k: 3, s: 4 };
    assert_eq!(pentode.touches(), vec![1, 2, 3, 4]);
    assert!(!pentode.is_linear());
    assert!(!pentode.needs_branch());
    assert_eq!(pentode.name(), "pentode");
    let transformer = Part::Transformer { p1: 0, p2: GROUND, s1: 1, s2: GROUND };
    assert!(transformer.needs_branch());
    assert!(transformer.is_linear());
    assert_eq!(transformer.name(), "transformer");
    assert_eq!(Part::OpAmp { out: 0, plus: 1, minus: 2, reference: GROUND }.name(), "op-amp");
    let mut part = Part::Pot { a: 0, wiper: 1, b: GROUND, control: 7 };
    part.renumber(&[2, 0]);
    assert_eq!(part, Part::Pot { a: 2, wiper: 0, b: GROUND, control: 7 });
}

#[test]
fn counts_are_written_in_decimal() {
    let fault = Fault::Dangling { node: "x".to_string(), connections: 1207 };
    assert!(fault.to_string().starts_with("node 'x' has 1207 connection(s)"));
    let fault = Fault::Dangling { node: "y".to_string(), connections: 0 };
    assert!(fault.to_string().starts_with("node 'y' has 0 connection(s)"));
}

#[test]
fn a_path_runs_both_ways() {
    let forwards = {
        let mut net = Netlist::new("forwards");
        net.input("a", true).resistor("a", "b", true).resistor("b", "gnd", true);
        net.build("b")
    };
    let backwards = {
        let mut net = Netlist::new("backwards");
        net.input("b", true).resistor("a", "b", true).resistor("a", "gnd", true);
        net.build("a")
    };
    assert!(forwards.is_ok());
    assert!(backwards.is_ok());
}

#[test]
fn the_connection_checks_answer_before_any_path_is_sought() {
    assert_eq!(divider().check_connected("out"), Ok((1, 0)));
    assert!(matches!(divider().check_connected("nowhere"), Err(Fault::Malformed(_))));
    // Islands are connected enough; only the path between them is missing.
    let mut net = Netlist::new("islands");
    net.input("in", true).resistor("in", "gnd", true);
    net.resistor("out", "gnd", true).resistor("out", "gnd", true);
    assert_eq!(net.check_connected("out"), Ok((1, 0)));
    // An input on the reference passes these checks and names the reference.
    let mut net = Netlist::new("grounded");
    net.input("gnd", true).resistor("out", "gnd", true).resistor("out", "gnd", true);
    assert_eq!(net.check_connected("out"), Ok((0, GROUND)));
    let mut net = Netlist::new("loose");
    net.input("in", true).resistor("in", "out", true);
    assert_eq!(
        net.check_connected("out"),
        Err(Fault::Dangling { node: "out".to_string(), connections: 1 })
    );
}
