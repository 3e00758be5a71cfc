use qcircuit::dag::CircuitDAG;
use qcircuit::lines::{
    add_bounded, barrier_from, find_creg, group_index, group_name, group_param, if_from,
    if_param_from, measure_followed, measure_from, parse_gate_line, reset_from, resolve_cbit,
    single_from, single_named, single_param_from, three_qubit_from, two_qubit_from,
    two_qubit_param_from, Creg, Patterns,
};
use qcircuit::node::DAGNode;
use qcircuit::params::{format_param, PiPattern};
use qcircuit::parser::Scan;
use qcircuit::pattern::{group, has_group};

fn parsed(text: &str) -> CircuitDAG {
    let mut dag = CircuitDAG::new();
    assert!(dag.parse_qasm(text).is_ok());
    dag
}

fn ids(dag: &CircuitDAG) -> Vec<String> {
    dag.nodes.iter().map(|n| n.id.clone()).collect()
}

fn s(v: &[&str]) -> Vec<String> {
    v.iter().map(|x| x.to_string()).collect()
}

fn g(v: &[Option<&str>]) -> Vec<Option<String>> {
    v.iter().map(|x| x.map(|t| t.to_string())).collect()
}

fn line(text: &str) -> Option<(DAGNode, bool)> {
    parse_gate_line(&Patterns::new(), text, None, &vec![])
}

#[test]
fn parse_bell_circuit() {
    let dag = parsed("OPENQASM 2.0;\ninclude \"qelib1.inc\";\n\nqreg q[2];\ncreg c[1];\n\nh q[0];\ncx q[0], q[1];\n");
    assert_eq!(dag.num_qubits, 2);
    assert_eq!(dag.num_cbits, 0);
    assert_eq!(ids(&dag), s(&["H_q0_s0", "CX_q1_s1"]));
    assert_eq!(dag.nodes[1].control, Some(0));
    assert_eq!(dag.nodes[1].target, Some(1));
    assert_eq!(dag.nodes[1].dependencies, s(&["H_q0_s0"]));
    assert_eq!(dag.root_nodes, s(&["H_q0_s0"]));
}

#[test]
fn parse_replaces_the_nodes() {
    let mut dag = CircuitDAG::new();
    dag.add_gate("Z", 3, 0, None);
    assert!(dag.parse_qasm("x q[0];").is_ok());
    assert_eq!(ids(&dag), s(&["X_q0_s0"]));
    assert_eq!(dag.num_qubits, 1);
    assert_eq!(dag.num_cbits, 0);
}

#[test]
fn parse_replaces_the_counts() {
    let mut dag = CircuitDAG::new();
    dag.add_gate("MEASURE", 0, 0, None);
    dag.add_gate("H", 5, 1, None);
    assert_eq!((dag.num_qubits, dag.num_cbits), (6, 1));
    assert!(dag.parse_qasm("").is_ok());
    assert_eq!((dag.nodes.len(), dag.num_qubits, dag.num_cbits), (0, 0, 0));
    assert!(dag.root_nodes.is_empty());
}

#[test]
fn parse_gives_the_same_on_a_used_and_on_a_fresh_circuit() {
    let text = "qreg q[3];\ncreg c[2];\nh q[0];\ncx q[0], q[1];\nmeasure q[1] -> c[1];\n";
    let mut used = CircuitDAG::new();
    used.add_measure_control_gate(6, 7, 0);
    used.add_barrier(3);
    assert!(used.parse_qasm(text).is_ok());
    let fresh = parsed(text);
    assert_eq!(ids(&used), ids(&fresh));
    assert_eq!((used.num_qubits, used.num_cbits), (fresh.num_qubits, fresh.num_cbits));
    assert_eq!((used.num_qubits, used.num_cbits), (3, 2));
    assert_eq!(used.root_nodes, fresh.root_nodes);
}

#[test]
fn independent_gates_share_a_step() {
    let dag = parsed("h q[0];\nx q[1];\ny q[2];\nz q[0];\n");
    let steps: Vec<isize> = dag.nodes.iter().map(|n| n.step).collect();
    assert_eq!(steps, vec![0, 0, 0, 1]);
    assert_eq!(dag.nodes[3].dependencies, s(&["H_q0_s0"]));
}

#[test]
fn multi_qubit_gates_get_a_step_of_their_own() {
    let dag = parsed("h q[0];\ncx q[1], q[2];\nx q[3];\ncz q[4], q[5];\n");
    let steps: Vec<isize> = dag.nodes.iter().map(|n| n.step).collect();
    assert_eq!(steps, vec![0, 1, 1, 2]);
    assert!(dag.nodes[1].dependencies.is_empty());
}

#[test]
fn first_multi_qubit_gate_stays_in_step_zero() {
    let dag = parsed("cx q[0], q[1];\nh q[2];\nh q[0];\n");
    let steps: Vec<isize> = dag.nodes.iter().map(|n| n.step).collect();
    assert_eq!(steps, vec![0, 0, 1]);
}

#[test]
fn barrier_closes_its_step() {
    let dag = parsed("h q[0];\nbarrier q[0], q[1];\nx q[1];\nbarrier q[0];\nbarrier q[0];\n");
    assert_eq!(ids(&dag), s(&["H_q0_s0", "BARRIER_q-1_s1", "X_q1_s2", "BARRIER_q-1_s3", "BARRIER_q-1_s4"]));
    assert_eq!(dag.nodes[1].target, None);
}

#[test]
fn unknown_lines_are_dropped() {
    let dag = parsed("gate foo a { h a; }\nthis is not qasm\n// a comment\n\n   \nh q[0];\nh q[x];\nqreg\ncreg c;\n");
    assert_eq!(ids(&dag), s(&["H_q0_s0"]));
}

#[test]
fn semicolon_is_optional_and_space_is_trimmed() {
    let dag = parsed("   h q[0]  \r\n\tx q[0];\t\n");
    assert_eq!(ids(&dag), s(&["H_q0_s0", "X_q0_s1"]));
}

#[test]
fn qreg_sets_the_number_of_qubits() {
    assert_eq!(parsed("qreg q[5];").num_qubits, 5);
    assert_eq!(parsed("qreg q[5];\nqreg r[2];").num_qubits, 2);
    assert_eq!(parsed("qreg q[1];\nx q[3];").num_qubits, 4);
    assert_eq!(parsed("x q[3];\nqreg q[1];").num_qubits, 4);
}

#[test]
fn measure_alone_is_a_measurement() {
    let dag = parsed("creg c[2];\nmeasure q[1] -> c[1];\nh q[0];\n");
    assert_eq!(ids(&dag), s(&["MEASURE_q1_s0", "H_q0_s0"]));
    assert_eq!(dag.num_cbits, 2);
}

#[test]
fn measure_and_guarded_x_are_fused() {
    let dag = parsed("creg c[2];\nh q[0];\nmeasure q[0] -> c[0];\nif (c[0]==1) x q[2];\nz q[2];\n");
    assert_eq!(ids(&dag), s(&["H_q0_s0", "MCX_q2_s1", "Z_q2_s2"]));
    let m = &dag.nodes[1];
    assert_eq!(m.measure_source, Some(0));
    assert_eq!(m.target, Some(2));
    assert_eq!(m.dependencies, s(&["H_q0_s0"]));
    assert_eq!(dag.nodes[2].dependencies, s(&["MCX_q2_s1"]));
    assert_eq!(dag.num_cbits, 1);
}

#[test]
fn guard_on_another_bit_is_not_fused() {
    let dag = parsed("creg c[2];\nmeasure q[0] -> c[0];\nif (c[1]==1) x q[2];\n");
    assert_eq!(ids(&dag), s(&["MEASURE_q0_s0", "X_q2_s0"]));
    assert_eq!(dag.nodes[1].classical_control, Some(1));
}

#[test]
fn guard_that_is_no_x_on_one_is_not_fused() {
    let dag = parsed("creg c[2];\nmeasure q[0] -> c[0];\nif (c[0]==1) z q[2];\n");
    assert_eq!(ids(&dag), s(&["MEASURE_q0_s0", "Z_q2_s0"]));
    let dag = parsed("creg c[2];\nmeasure q[0] -> c[0];\nif (c[0]==0) x q[2];\n");
    assert_eq!(ids(&dag), s(&["MEASURE_q0_s0", "X_q2_s0"]));
}

#[test]
fn registers_are_laid_end_to_end() {
    let dag = parsed("creg a[2];\ncreg b[3];\nif (b[1]==1) x q[0];\nif (a[1]==1) y q[1];\nif (b==1) z q[2];\n");
    assert_eq!(dag.nodes[0].classical_control, Some(3));
    assert_eq!(dag.nodes[1].classical_control, Some(1));
    assert_eq!(dag.nodes[2].classical_control, Some(2));
    assert_eq!(dag.num_cbits, 4);
}

#[test]
fn unknown_register_falls_back() {
    let dag = parsed("if (c7==1) x q[0];\nif (d[3]==1) y q[1];\n");
    assert_eq!(dag.nodes[0].classical_control, Some(7));
    assert_eq!(dag.nodes[1].classical_control, Some(0));
}

#[test]
fn noise_comment_is_a_node_in_a_step_of_its_own() {
    let dag = parsed("h q[0];\n// noise depolarizing q[0] param=0.01\n// noise phase_damping q[1]\nx q[1];\n");
    assert_eq!(ids(&dag), s(&["H_q0_s0", "NOISE_q0_s1", "NOISE_q1_s2", "X_q1_s3"]));
    let n = &dag.nodes[1];
    assert!(n.is_noise);
    assert_eq!(n.noise_type, "depolarizing");
    assert_eq!(format_param(&n.params[0]), "0.01");
    assert_eq!(n.dependencies, s(&["H_q0_s0"]));
    assert!(dag.nodes[2].params.is_empty());
    assert_eq!(dag.nodes[3].dependencies, s(&["NOISE_q1_s2"]));
}

#[test]
fn dagger_suffix_is_stripped() {
    let dag = parsed("sdg q[0];\ntdg q[1];\n");
    assert_eq!(ids(&dag), s(&["S_q0_s0", "T_q1_s0"]));
    assert!(dag.nodes[0].is_dagger && dag.nodes[1].is_dagger);
}

#[test]
fn parameters_are_read() {
    let dag = parsed("rx(pi/2) q[0];\nu3(pi, 0.5, -pi/4) q[1];\ncrz(3*pi/4) q[0], q[1];\nif (c[0]==1) rz(pi) q[2];\n");
    assert_eq!(format_param(&dag.nodes[0].params[0]), "pi/2");
    let u3: Vec<String> = dag.nodes[1].params.iter().map(format_param).collect();
    assert_eq!(u3, s(&["pi", "0.5", "-pi/4"]));
    assert_eq!(dag.nodes[2].gate_type, "CRZ");
    assert_eq!(dag.nodes[2].control, Some(0));
    assert_eq!(format_param(&dag.nodes[2].params[0]), "3*pi/4");
    assert_eq!(dag.nodes[3].classical_control, Some(0));
    assert_eq!(format_param(&dag.nodes[3].params[0]), "pi");
}

#[test]
fn bad_parameter_becomes_zero_or_is_left_out() {
    let dag = parsed("crz(pi/0) q[0], q[1];\nu2(pi/0, 1) q[2];\n");
    assert_eq!(format_param(&dag.nodes[0].params[0]), "0");
    assert_eq!(dag.nodes[1].params.len(), 1);
    assert_eq!(format_param(&dag.nodes[1].params[0]), "1");
}

#[test]
fn three_qubit_gate_has_two_controls() {
    let dag = parsed("ccx q[0], q[1], q[2];");
    let n = &dag.nodes[0];
    assert_eq!(n.gate_type, "CCX");
    assert_eq!(n.controls, vec![0, 1]);
    assert_eq!(n.target, Some(2));
    assert_eq!(n.control, None);
}

#[test]
fn huge_index_reads_as_zero() {
    let dag = parsed("x q[99999999999999999999999999];\ny q[18446744073709551615];\n");
    assert_eq!(dag.nodes[0].target, Some(0));
    assert_eq!(dag.nodes[1].target, Some(0));
}

#[test]
fn gate_line_patterns_in_order_of_priority() {
    assert_eq!(line("reset q[3];").unwrap().0.gate_type, "RESET");
    assert!(line("reset q[3];").unwrap().0.is_reset);
    assert_eq!(line("barrier q[0];").unwrap().0.gate_type, "BARRIER");
    assert_eq!(line("measure q[1] -> c[1];").unwrap().0.gate_type, "MEASURE");
    assert_eq!(line("if(c==1) h q[1]").unwrap().0.gate_type, "H");
    assert_eq!(line("swap q[1], q[2];").unwrap().0.gate_type, "SWAP");
    assert_eq!(line("H q[1];").unwrap().0.gate_type, "H");
    assert!(line("h q[1] extra").is_none());
    assert!(line("").is_none());
    assert!(!line("h q[1];").unwrap().1);
}

#[test]
fn gate_line_takes_next_line_only_when_fused() {
    let cregs = vec![Creg { name: "c".to_string(), start: 0 }];
    let patterns = Patterns::new();
    let r = parse_gate_line(&patterns, "measure q[0] -> c[1];", Some("if (c[1]==1) x q[4];"), &cregs).unwrap();
    assert!(r.1);
    assert_eq!(r.0.gate_type, "MCX");
    assert_eq!(r.0.target, Some(4));
    assert_eq!(r.0.measure_source, Some(0));
    let r = parse_gate_line(&patterns, "measure q[0] -> c[1];", Some("h q[4];"), &cregs).unwrap();
    assert!(!r.1);
    assert_eq!(r.0.gate_type, "MEASURE");
    let r = parse_gate_line(&patterns, "h q[0];", Some("if (c[1]==1) x q[4];"), &cregs).unwrap();
    assert!(!r.1);
}

#[test]
fn nodes_from_groups() {
    let pi = PiPattern::new();
    assert_eq!(reset_from(&g(&[Some("reset q[2];"), Some("2")])).target, Some(2));
    assert_eq!(barrier_from().gate_type, "BARRIER");
    let n = two_qubit_from(&g(&[None, Some("cz"), Some("3"), Some("4")]));
    assert_eq!((n.gate_type.as_str(), n.control, n.target), ("CZ", Some(3), Some(4)));
    let n = two_qubit_param_from(&pi, &g(&[None, Some("crx"), Some("pi/2"), Some("1"), Some("0")]));
    assert_eq!((n.gate_type.as_str(), n.control, n.target), ("CRX", Some(1), Some(0)));
    assert_eq!(format_param(&n.params[0]), "pi/2");
    let n = three_qubit_from(&g(&[None, Some("ccx"), Some("0"), Some("1"), Some("2")]));
    assert_eq!((n.controls.clone(), n.target), (vec![0, 1], Some(2)));
    let n = single_from(&g(&[None, Some("sdg"), Some("5")]));
    assert_eq!((n.gate_type.as_str(), n.is_dagger, n.target), ("S", true, Some(5)));
    let n = single_from(&g(&[None, Some("dg"), Some("5")]));
    assert_eq!((n.gate_type.as_str(), n.is_dagger), ("", true));
    let n = single_from(&g(&[None, Some("h"), Some("x")]));
    assert_eq!((n.gate_type.as_str(), n.is_dagger, n.target), ("H", false, Some(0)));
    let n = single_param_from(&pi, &g(&[None, Some("u2"), Some("pi, bad ,0.5"), Some("1")]));
    assert_eq!(n.params.len(), 2);
    let cregs = vec![Creg { name: "c".to_string(), start: 2 }];
    let n = if_from(&g(&[None, Some("c"), Some("1"), Some("1"), Some("x"), Some("0")]), &cregs);
    assert_eq!((n.gate_type.as_str(), n.classical_control, n.target), ("X", Some(3), Some(0)));
    let n = if_param_from(&pi, &g(&[None, Some("c"), None, Some("1"), Some("rz"), Some("oops"), Some("0")]), &cregs);
    assert_eq!(n.classical_control, Some(2));
    assert_eq!(format_param(&n.params[0]), "0");
    let m = g(&[None, Some("0"), Some("c"), Some("0")]);
    let h = Some(g(&[None, Some("c"), Some("0"), Some("1"), Some("x"), Some("9")]));
    let (n, used) = measure_from(&m, &h, &cregs);
    assert!(used);
    assert_eq!((n.gate_type.as_str(), n.measure_source, n.target), ("MCX", Some(0), Some(9)));
    let (n, used) = measure_from(&m, &None, &cregs);
    assert!(!used);
    assert_eq!((n.gate_type.as_str(), n.measure_source, n.target), ("MEASURE", None, Some(0)));
}

#[test]
fn groups_and_registers() {
    let pi = PiPattern::new();
    let v = g(&[Some("x"), None, Some("12")]);
    assert_eq!(group(&v, 0), "x");
    assert_eq!(group(&v, 1), "");
    assert_eq!(group(&v, 7), "");
    assert!(has_group(&v, 0) && !has_group(&v, 1) && !has_group(&v, 3));
    assert_eq!(group_index(&v, 2), 12);
    assert_eq!(group_index(&v, 0), 0);
    assert_eq!(group_name(&v, 0), "X");
    assert_eq!(format_param(&group_param(&pi, &v, 2)), "12");
    assert_eq!(format_param(&group_param(&pi, &v, 1)), "0");
    let cregs = vec![
        Creg { name: "a".to_string(), start: 0 },
        Creg { name: "b".to_string(), start: 4 },
        Creg { name: "a".to_string(), start: 9 },
    ];
    assert_eq!(find_creg(&cregs, &"a".to_string()), Some(9));
    assert_eq!(find_creg(&cregs, &"b".to_string()), Some(4));
    assert_eq!(find_creg(&cregs, &"z".to_string()), None);
    assert_eq!(resolve_cbit(&cregs, &"b".to_string(), &"2".to_string()), 6);
    assert_eq!(resolve_cbit(&cregs, &"b".to_string(), &"".to_string()), 4);
    assert_eq!(resolve_cbit(&cregs, &"c12".to_string(), &"5".to_string()), 12);
    assert_eq!(resolve_cbit(&cregs, &"d".to_string(), &"5".to_string()), 0);
    assert_eq!(add_bounded(3, 4), 7);
    assert_eq!(add_bounded(usize::MAX - 1, 4), usize::MAX - 1);
}

#[test]
fn place_gives_step_id_and_dependencies() {
    let mut dag = CircuitDAG::new();
    let mut st = Scan::new();
    let mut h = DAGNode::default();
    h.gate_type = "H".to_string();
    h.target = Some(0);
    dag.place(&mut st, h);
    let mut cx = DAGNode::default();
    cx.gate_type = "CX".to_string();
    cx.target = Some(1);
    cx.control = Some(0);
    dag.place(&mut st, cx);
    assert_eq!(ids(&dag), s(&["H_q0_s0", "CX_q1_s1"]));
    assert_eq!(st.step, 1);
    assert_eq!(st.claimed, vec![1, 0]);
    assert_eq!(dag.nodes[1].dependencies, s(&["H_q0_s0"]));
    let patterns = Patterns::new();
    assert!(!dag.read_line(&mut st, &patterns, "x q[2];", None));
    assert!(patterns.match_reset("reset q[1];").is_some());
    assert!(patterns.match_reset("x q[1];").is_none());
    assert_eq!(patterns.match_qreg("  qreg q[12]; // all").unwrap()[2], Some("12".to_string()));
    assert_eq!(patterns.match_creg("creg out[3];").unwrap()[1], Some("out".to_string()));
    assert_eq!(patterns.match_noise("// noise amp q[0]").unwrap()[3], None);
    assert_eq!(dag.nodes[2].id, "X_q2_s1");
    assert_eq!(dag.qubits_required(), 3);
}

#[test]
fn single_named_splits_the_inverse_from_the_name() {
    let n = single_named("SDG".to_string(), 3);
    assert_eq!((n.gate_type.as_str(), n.target, n.is_dagger), ("S", Some(3), true));
    let n = single_named("H".to_string(), 0);
    assert_eq!((n.gate_type.as_str(), n.target, n.is_dagger), ("H", Some(0), false));
    let n = single_named("DG".to_string(), 1);
    assert_eq!((n.gate_type.as_str(), n.target, n.is_dagger), ("", Some(1), true));
    let n = single_named("sdg".to_string(), 1);
    assert_eq!((n.gate_type.as_str(), n.target, n.is_dagger), ("sdg", Some(1), false));
    let n = single_named("DGX".to_string(), 1);
    assert_eq!((n.gate_type.as_str(), n.target, n.is_dagger), ("DGX", Some(1), false));
    assert!(n.control.is_none() && n.controls.is_empty() && n.params.is_empty());
}

#[test]
fn measure_followed_fuses_only_an_x_on_the_bit_just_written() {
    let (n, used) = measure_followed(2, 5, 5, 1, "X", 4);
    assert!(used);
    assert_eq!((n.gate_type.as_str(), n.target, n.measure_source), ("MCX", Some(4), Some(2)));
    for (cond, value, name) in [(4, 1, "X"), (5, 0, "X"), (5, 2, "X"), (5, 1, "Z"), (5, 1, "x")] {
        let (n, used) = measure_followed(2, 5, cond, value, name, 4);
        assert!(!used);
        assert_eq!((n.gate_type.as_str(), n.target, n.measure_source), ("MEASURE", Some(2), None));
    }
}
