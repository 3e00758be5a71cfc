use qcircuit::dag::CircuitDAG;
use qcircuit::node::DAGNode;
use qcircuit::order::sort_by_step;
use qcircuit::params::{format_param, parse_param_expr, ParamExpr};
use qcircuit::writer::{write_node_as, write_node_qasm};

const HEAD_2_1: &str = "OPENQASM 2.0;\ninclude \"qelib1.inc\";\n\nqreg q[2];\ncreg c[1];\n\n";

fn p(text: &str) -> ParamExpr {
    parse_param_expr(text).unwrap()
}

fn gate(t: &str, target: usize) -> DAGNode {
    let mut n = DAGNode::default();
    n.gate_type = t.to_string();
    n.target = Some(target);
    n
}

#[test]
fn bell_circuit_text() {
    let mut dag = CircuitDAG::new();
    dag.ensure_qubits(2);
    dag.add_gate("H", 0, 0, None);
    dag.add_gate("CX", 1, 1, Some(0));
    let text = dag.to_qasm();
    assert_eq!(text, format!("{}h q[0];\ncx q[0], q[1];\n", HEAD_2_1));
    let h = text.find("h q[0];").unwrap();
    let cx = text.find("cx q[0], q[1];").unwrap();
    assert!(h < cx);
}

#[test]
fn empty_circuit_declares_one_bit_of_each() {
    let dag = CircuitDAG::new();
    assert_eq!(dag.to_qasm(), "OPENQASM 2.0;\ninclude \"qelib1.inc\";\n\nqreg q[1];\ncreg c[1];\n\n");
}

#[test]
fn registers_are_sized_by_the_counts() {
    let mut dag = CircuitDAG::new();
    dag.add_gate("MEASURE", 11, 0, None);
    assert_eq!(
        dag.to_qasm(),
        "OPENQASM 2.0;\ninclude \"qelib1.inc\";\n\nqreg q[12];\ncreg c[12];\n\nmeasure q[11] -> c[11];\n"
    );
}

#[test]
fn statements_come_in_step_order() {
    let mut dag = CircuitDAG::new();
    dag.add_gate("Z", 0, 2, None);
    dag.add_gate("X", 1, 1, None);
    dag.add_gate("H", 0, 0, None);
    dag.add_gate("Y", 1, 0, None);
    let text = dag.to_qasm();
    assert_eq!(text, format!("{}h q[0];\ny q[1];\nx q[1];\nz q[0];\n", HEAD_2_1));
}

#[test]
fn negative_steps_are_written_first() {
    let mut dag = CircuitDAG::new();
    dag.ensure_qubits(2);
    dag.add_gate("X", 0, 0, None);
    dag.add_gate("H", 0, -1, None);
    assert_eq!(dag.to_qasm(), format!("{}h q[0];\nx q[0];\n", HEAD_2_1));
}

#[test]
fn sort_by_step_keeps_order_of_equal_steps() {
    let steps: Vec<isize> = vec![2, 0, 1, 0, 2, 1];
    let order: Vec<usize> = vec![0, 1, 2, 3, 4, 5];
    assert_eq!(sort_by_step(&steps, &order), vec![1, 3, 2, 5, 0, 4]);
    let order: Vec<usize> = vec![5, 4, 3, 2, 1, 0];
    assert_eq!(sort_by_step(&steps, &order), vec![3, 1, 5, 2, 4, 0]);
    assert_eq!(sort_by_step(&steps, &vec![]), Vec::<usize>::new());
}

#[test]
fn to_qasm_in_given_order() {
    let mut dag = CircuitDAG::new();
    dag.add_gate("H", 0, 0, None);
    dag.add_gate("Y", 1, 0, None);
    let text = dag.to_qasm_in_order(&vec![1, 0]);
    assert_eq!(text, format!("{}y q[1];\nh q[0];\n", HEAD_2_1));
}

#[test]
fn barrier_spans_all_qubits() {
    let mut n = DAGNode::default();
    n.gate_type = "BARRIER".to_string();
    assert_eq!(write_node_qasm(&n, 3), "barrier q[0], q[1], q[2];\n");
    assert_eq!(write_node_qasm(&n, 1), "barrier q[0];\n");
}

#[test]
fn noise_is_written_as_comment() {
    let mut n = gate("NOISE", 2);
    n.is_noise = true;
    n.noise_type = "depolarizing".to_string();
    assert_eq!(write_node_qasm(&n, 3), "// noise depolarizing q[2]\n");
    n.params = vec![p("0.01")];
    assert_eq!(write_node_qasm(&n, 3), "// noise depolarizing q[2] param=0.01\n");
}

#[test]
fn reset_statement() {
    let mut n = gate("RESET", 1);
    n.is_reset = true;
    assert_eq!(write_node_qasm(&n, 2), "reset q[1];\n");
}

#[test]
fn classically_controlled_statements() {
    let mut n = gate("X", 1);
    n.classical_control = Some(2);
    assert_eq!(write_node_qasm(&n, 2), "if (c[2]==1) x q[1];\n");
    n.is_dagger = true;
    n.gate_type = "S".to_string();
    assert_eq!(write_node_qasm(&n, 2), "if (c[2]==1) sdg q[1];\n");
    n.params = vec![p("pi/4")];
    n.gate_type = "RZ".to_string();
    assert_eq!(write_node_qasm(&n, 2), "if (c[2]==1) rz(pi/4) q[1];\n");
    n.controls = vec![3, 4];
    n.gate_type = "CCX".to_string();
    assert_eq!(write_node_qasm(&n, 2), "if (c[2]==1) ccx q[3], q[4], q[1];\n");
    n.control = Some(0);
    assert_eq!(write_node_qasm(&n, 2), "if (c[2]==1) cx q[0], q[1];\n");
}

#[test]
fn measurement_statements() {
    let n = gate("MEASURE", 3);
    assert_eq!(write_node_qasm(&n, 4), "measure q[3] -> c[3];\n");
    let mut m = gate("MCX", 1);
    m.measure_source = Some(0);
    assert_eq!(write_node_qasm(&m, 2), "measure q[0] -> c[0];\nif (c[0]==1) x q[1];\n");
}

#[test]
fn multi_control_statements() {
    let mut n = gate("CCX", 2);
    n.controls = vec![0, 1];
    assert_eq!(write_node_qasm(&n, 3), "ccx q[0], q[1], q[2];\n");
    n.gate_type = "TOFFOLI".to_string();
    assert_eq!(write_node_qasm(&n, 3), "ccx q[0], q[1], q[2];\n");
    n.controls = vec![0];
    assert_eq!(write_node_qasm(&n, 3), "toffoli q[0], q[2];\n");
    n.gate_type = "C3X".to_string();
    n.controls = vec![0, 1, 3];
    assert_eq!(write_node_qasm(&n, 4), "c3x q[0], q[1], q[3], q[2];\n");
}

#[test]
fn single_control_statements() {
    let mut n = gate("CX", 1);
    n.control = Some(0);
    assert_eq!(write_node_qasm(&n, 2), "cx q[0], q[1];\n");
    for (t, w) in [("CZ", "cz"), ("SWAP", "swap"), ("CH", "ch")] {
        n.gate_type = t.to_string();
        assert_eq!(write_node_qasm(&n, 2), format!("{} q[0], q[1];\n", w));
    }
    n.gate_type = "CRX".to_string();
    assert_eq!(write_node_qasm(&n, 2), "cx q[0], q[1];\n");
    n.params = vec![p("pi/2")];
    for (t, w) in [("CRX", "crx"), ("CRY", "cry"), ("CRZ", "crz"), ("CP", "cu1"), ("CU1", "cu1")] {
        n.gate_type = t.to_string();
        assert_eq!(write_node_qasm(&n, 2), format!("{}(pi/2) q[0], q[1];\n", w));
    }
    n.gate_type = "WHATEVER".to_string();
    assert_eq!(write_node_qasm(&n, 2), "cx q[0], q[1];\n");
}

#[test]
fn single_qubit_statements() {
    let mut n = gate("H", 0);
    assert_eq!(write_node_qasm(&n, 1), "h q[0];\n");
    n.gate_type = "S".to_string();
    n.is_dagger = true;
    assert_eq!(write_node_qasm(&n, 1), "sdg q[0];\n");
    n.gate_type = "T".to_string();
    assert_eq!(write_node_qasm(&n, 1), "tdg q[0];\n");
    n.gate_type = "H".to_string();
    assert_eq!(write_node_qasm(&n, 1), "h q[0];\n");
    n.is_dagger = false;
    n.gate_type = "Foo".to_string();
    assert_eq!(write_node_qasm(&n, 1), "foo q[0];\n");
}

#[test]
fn parameterized_statements() {
    let mut n = gate("RX", 0);
    assert_eq!(write_node_qasm(&n, 1), "rx q[0];\n");
    n.params = vec![p("pi/2")];
    assert_eq!(write_node_qasm(&n, 1), "rx(pi/2) q[0];\n");
    for t in ["RY", "RZ", "P", "U1"] {
        n.gate_type = t.to_string();
        assert_eq!(write_node_qasm(&n, 1), format!("{}(pi/2) q[0];\n", t.to_lowercase()));
    }
    n.gate_type = "U2".to_string();
    assert_eq!(write_node_qasm(&n, 1), "u2 q[0];\n");
    n.params = vec![p("0"), p("-pi")];
    assert_eq!(write_node_qasm(&n, 1), "u2(0, -pi) q[0];\n");
    n.gate_type = "U3".to_string();
    assert_eq!(write_node_qasm(&n, 1), "u3 q[0];\n");
    n.params = vec![p("pi/2"), p("0.5"), p("3*pi/4")];
    assert_eq!(write_node_qasm(&n, 1), "u3(pi/2, 0.5, 3*pi/4) q[0];\n");
    n.gate_type = "RX".to_string();
    assert_eq!(write_node_qasm(&n, 1), "rx q[0];\n");
    n.gate_type = "H".to_string();
    assert_eq!(write_node_qasm(&n, 1), "h q[0];\n");
}

#[test]
fn a_misfit_of_parameters_is_written_bare() {
    for t in ["RX", "RY", "RZ", "P", "U1", "U2", "U3"] {
        let low = t.to_lowercase();
        for count in 0..5usize {
            let mut n = gate(t, 2);
            n.params = (0..count).map(|_| p("0.5")).collect();
            let fits = match t {
                "U2" => count == 2,
                "U3" => count == 3,
                _ => count == 1,
            };
            let text = write_node_qasm(&n, 3);
            if fits {
                let list = vec!["0.5"; count].join(", ");
                assert_eq!(text, format!("{}({}) q[2];\n", low, list));
            } else {
                assert_eq!(text, format!("{} q[2];\n", low));
            }
        }
    }
    let mut n = gate("S", 0);
    n.is_dagger = true;
    n.params = vec![p("1")];
    assert_eq!(write_node_qasm(&n, 1), "sdg q[0];\n");
    let mut n = gate("RX", 0);
    n.is_dagger = true;
    assert_eq!(write_node_qasm(&n, 1), "rx q[0];\n");
}

#[test]
fn every_node_has_a_line() {
    let mut dag = CircuitDAG::new();
    dag.add_gate("RX", 0, 0, None);
    dag.add_parameterized_gate("U2", 1, 0, vec![p("1")], None);
    dag.add_parameterized_gate("U3", 0, 1, vec![], None);
    dag.add_measure_control_gate(0, 1, 2);
    dag.add_barrier(3);
    dag.add_node(DAGNode::default());
    let text = dag.to_qasm();
    let body: Vec<&str> = text.lines().skip(6).collect();
    assert_eq!(
        body,
        vec![
            "rx q[0];",
            "u2 q[1];",
            " q[-1];",
            "u3 q[0];",
            "measure q[0] -> c[0];",
            "if (c[0]==1) x q[1];",
            "barrier q[0], q[1];",
        ]
    );
}

#[test]
fn write_node_as_takes_the_name_in_lower_case() {
    let mut n = gate("RX", 1);
    n.params = vec![p("pi")];
    assert_eq!(write_node_as(&n, 2, "rx"), "rx(pi) q[1];\n");
    assert_eq!(write_node_as(&n, 2, "u2"), "u2 q[1];\n");
    assert_eq!(write_node_as(&n, 2, "h"), "h q[1];\n");
    assert_eq!(write_node_as(&n, 2, "RX"), "RX q[1];\n");
    n.params = vec![];
    n.is_dagger = true;
    assert_eq!(write_node_as(&n, 2, "s"), "sdg q[1];\n");
    assert_eq!(write_node_as(&n, 2, "sz"), "szdg q[1];\n");
    assert_eq!(write_node_as(&n, 2, "h"), "h q[1];\n");
    n.is_dagger = false;
    n.classical_control = Some(3);
    assert_eq!(write_node_as(&n, 2, "y"), "if (c[3]==1) y q[1];\n");
    n.classical_control = None;
    n.controls = vec![0, 2, 4];
    assert_eq!(write_node_as(&n, 2, "mcz"), "mcz q[0], q[2], q[4], q[1];\n");
    n.gate_type = "BARRIER".to_string();
    assert_eq!(write_node_as(&n, 2, "anything"), "barrier q[0], q[1];\n");
}

#[test]
fn write_node_qasm_lowers_the_name() {
    let n = gate("FooBar", 0);
    assert_eq!(write_node_qasm(&n, 1), "foobar q[0];\n");
    assert_eq!(write_node_as(&n, 1, "FooBar"), "FooBar q[0];\n");
}

#[test]
fn node_without_target_is_written_with_minus_one() {
    let mut n = DAGNode::default();
    n.gate_type = "X".to_string();
    assert_eq!(write_node_qasm(&n, 1), "x q[-1];\n");
}

#[test]
fn round_trip_keeps_gate_order() {
    let mut dag = CircuitDAG::new();
    dag.add_gate("H", 0, 0, None);
    dag.add_parameterized_gate("RX", 1, 0, vec![p("pi/2")], None);
    dag.add_gate("CX", 1, 1, Some(0));
    dag.add_multi_control_gate("CCX", 2, 2, vec![0, 1]);
    dag.add_dagger_gate("S", 0, 3);
    dag.add_parameterized_gate("CRZ", 2, 4, vec![p("-pi/4")], Some(1));
    dag.add_reset(0, 5);
    dag.add_measure_control_gate(1, 2, 6);
    dag.add_gate("MEASURE", 0, 7, None);
    let text = dag.to_qasm();
    let mut back = CircuitDAG::new();
    assert!(back.parse_qasm(&text).is_ok());
    let a = dag.to_circuit();
    let b = back.to_circuit();
    assert_eq!(a.gates.len(), b.gates.len());
    for (x, y) in a.gates.iter().zip(b.gates.iter()) {
        assert_eq!(x.gate_type, y.gate_type);
        assert_eq!(x.target, y.target);
        assert_eq!(x.control, y.control);
        assert_eq!(x.controls, y.controls);
        assert_eq!(x.measure_source, y.measure_source);
        assert_eq!(x.is_dagger, y.is_dagger);
        let px: Vec<String> = x.params.iter().map(format_param).collect();
        let py: Vec<String> = y.params.iter().map(format_param).collect();
        assert_eq!(px, py);
    }
    assert_eq!(back.to_qasm(), text);
}
