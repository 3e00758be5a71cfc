use qcircuit::dag::{same_texts, CircuitDAG};
use qcircuit::display::{
    control_symbol, format_basis_state, gate_display_name, pad_center, target_symbol,
};
use qcircuit::editor::App;
use qcircuit::node::DAGNode;
use qcircuit::state::StateVector;

fn basis(num_qubits: usize, k: usize) -> StateVector<u32> {
    let mut s = StateVector::new(num_qubits, 0u32, 1u32);
    s.amplitudes[0] = 0;
    s.amplitudes[k] = 1;
    s
}

fn which(s: &StateVector<u32>) -> usize {
    assert_eq!(s.amplitudes.iter().filter(|a| **a == 1).count(), 1);
    assert_eq!(s.amplitudes.iter().filter(|a| **a == 0).count(), s.amplitudes.len() - 1);
    s.amplitudes.iter().position(|a| *a == 1).unwrap()
}

#[test]
fn new_state_is_basis_state_zero() {
    let s = StateVector::new(3, 0u32, 1u32);
    assert_eq!(s.num_qubits, 3);
    assert_eq!(s.amplitudes, vec![1, 0, 0, 0, 0, 0, 0, 0]);
    let s = StateVector::new(0, 0u32, 1u32);
    assert_eq!(s.amplitudes, vec![1]);
}

#[test]
fn x_turns_one_bit_over() {
    let mut s = StateVector::new(3, 0u32, 1u32);
    s.apply_x(1);
    assert_eq!(which(&s), 0b010);
    s.apply_x(2);
    assert_eq!(which(&s), 0b110);
    s.apply_x(1);
    assert_eq!(which(&s), 0b100);
}

#[test]
fn x_twice_is_identity() {
    let mut s = StateVector { amplitudes: vec![10u32, 11, 12, 13, 14, 15, 16, 17], num_qubits: 3 };
    for q in 0..3 {
        s.apply_x(q);
        s.apply_x(q);
        assert_eq!(s.amplitudes, vec![10, 11, 12, 13, 14, 15, 16, 17]);
    }
    s.apply_x(0);
    assert_eq!(s.amplitudes, vec![11, 10, 13, 12, 15, 14, 17, 16]);
}

#[test]
fn cx_follows_its_truth_table() {
    for k in 0..4usize {
        let mut s = basis(2, k);
        s.apply_cx(0, 1);
        let expected = if k & 1 != 0 { k ^ 2 } else { k };
        assert_eq!(which(&s), expected);
    }
    let mut s = StateVector { amplitudes: vec![1u32, 2, 3, 4], num_qubits: 2 };
    s.apply_cx(1, 0);
    assert_eq!(s.amplitudes, vec![1, 2, 4, 3]);
    s.apply_cx(1, 1);
    assert_eq!(s.amplitudes, vec![1, 2, 4, 3]);
}

#[test]
fn cx_with_control_on_zero_changes_nothing() {
    let mut s = StateVector { amplitudes: vec![5u32, 0, 7, 0, 9, 0, 11, 0], num_qubits: 3 };
    s.apply_cx(0, 2);
    assert_eq!(s.amplitudes, vec![5, 0, 7, 0, 9, 0, 11, 0]);
    s.apply_cx(0, 1);
    assert_eq!(s.amplitudes, vec![5, 0, 7, 0, 9, 0, 11, 0]);
}

#[test]
fn two_cx_on_one_target_are_no_toffoli() {
    let mut s = basis(3, 0b001);
    s.apply_cx(0, 2);
    s.apply_cx(1, 2);
    assert_eq!(which(&s), 0b101);
    let mut s = basis(3, 0b011);
    s.apply_cx(0, 2);
    s.apply_cx(1, 2);
    assert_eq!(which(&s), 0b011);
}

#[test]
fn swap_exchanges_two_qubits() {
    for k in 0..8usize {
        let mut s = basis(3, k);
        s.apply_swap(0, 2);
        let b0 = k & 1;
        let b2 = (k >> 2) & 1;
        let expected = (k & 0b010) | (b0 << 2) | b2;
        assert_eq!(which(&s), expected);
        s.apply_swap(2, 0);
        assert_eq!(which(&s), k);
        s.apply_swap(1, 1);
        assert_eq!(which(&s), k);
    }
}

#[test]
fn symbols_and_names() {
    assert_eq!(control_symbol("SWAP"), "×");
    assert_eq!(control_symbol("CX"), "●");
    assert_eq!(target_symbol("CZ"), "●");
    assert_eq!(target_symbol("SWAP"), "×");
    assert_eq!(target_symbol("CX"), "⊕");
    assert_eq!(gate_display_name("MEASURE"), "M");
    assert_eq!(gate_display_name("RX"), "RX");
}

#[test]
fn centered_text() {
    assert_eq!(pad_center("H", 5), "  H  ");
    assert_eq!(pad_center("RX", 5), " RX  ");
    assert_eq!(pad_center("SWAP", 5), "SWAP ");
    assert_eq!(pad_center("TOFFOLI", 5), "TOFFO");
    assert_eq!(pad_center("S†", 4), " S† ");
    assert_eq!(pad_center("", 0), "");
}

#[test]
fn basis_states_are_written_highest_qubit_first() {
    assert_eq!(format_basis_state(0, 2), "|00⟩");
    assert_eq!(format_basis_state(1, 2), "|01⟩");
    assert_eq!(format_basis_state(6, 3), "|110⟩");
    assert_eq!(format_basis_state(5, 0), "|⟩");
    assert_eq!(format_basis_state(1, 70).chars().count(), 72);
    assert!(format_basis_state(usize::MAX, 70).starts_with("|000000"));
}

#[test]
fn well_formed_circuits_pass_the_check() {
    let mut dag = CircuitDAG::new();
    assert!(dag.is_well_formed());
    dag.add_gate("H", 0, 0, None);
    dag.add_gate("CX", 1, 1, Some(0));
    dag.add_gate("MEASURE", 1, 2, None);
    assert!(dag.is_well_formed());
    dag.num_qubits = 9;
    assert!(dag.is_well_formed());
    dag.num_qubits = 1;
    assert!(!dag.is_well_formed());
    dag.num_qubits = 2;
    dag.num_cbits = 1;
    assert!(!dag.is_well_formed());
    dag.num_cbits = 2;
    dag.root_nodes.clear();
    assert!(!dag.is_well_formed());
    dag.root_nodes = vec!["H_q0_s0".to_string()];
    assert!(dag.is_well_formed());
    let copy = dag.nodes[0].clone();
    dag.nodes.push(copy);
    dag.root_nodes.push("H_q0_s0".to_string());
    assert!(!dag.is_well_formed());
}

#[test]
fn nodes_in_range() {
    let mut n = DAGNode::default();
    assert!(n.is_in_range());
    n.controls = vec![1, usize::MAX];
    assert!(!n.is_in_range());
    n.controls = vec![1];
    n.target = Some(usize::MAX);
    assert!(!n.is_in_range());
    n.target = Some(usize::MAX - 1);
    assert!(n.is_in_range());
    assert!(n.is_covered(usize::MAX, 0));
    assert!(!n.is_covered(5, 0));
    n.gate_type = "MEASURE".to_string();
    assert!(!n.is_covered(usize::MAX, 5));
}

#[test]
fn sessions_pass_the_check() {
    let mut app = App::new();
    assert!(app.is_well_formed());
    app.control_qubits = vec![usize::MAX];
    assert!(!app.is_well_formed());
    app.control_qubits.clear();
    app.cursor_qubit = usize::MAX;
    assert!(!app.is_well_formed());
}

#[test]
fn ensure_qubits_only_grows() {
    let mut dag = CircuitDAG::new();
    dag.ensure_qubits(3);
    assert_eq!(dag.num_qubits, 3);
    dag.ensure_qubits(2);
    assert_eq!(dag.num_qubits, 3);
    assert!(same_texts(&vec!["a".to_string()], &vec!["a".to_string()]));
    assert!(!same_texts(&vec!["a".to_string()], &vec!["b".to_string()]));
    assert!(!same_texts(&vec!["a".to_string()], &vec![]));
}

#[test]
fn copies_of_circuit_and_state() {
    let mut dag = CircuitDAG::new();
    dag.add_gate("H", 0, 0, None);
    dag.add_gate("CX", 1, 1, Some(0));
    let copy = dag.clone_dag();
    assert_eq!(copy.nodes.len(), 2);
    assert_eq!(copy.nodes[1].dependencies, vec!["H_q0_s0".to_string()]);
    assert_eq!(copy.root_nodes, dag.root_nodes);
    assert_eq!((copy.num_qubits, copy.num_cbits), (2, 0));
    assert!(copy.is_well_formed());
    let s = StateVector { amplitudes: vec![3u32, 4], num_qubits: 1 };
    let t = s.clone_state();
    assert_eq!(t.amplitudes, vec![3, 4]);
    assert_eq!(t.num_qubits, 1);
}

#[test]
fn defaults_are_the_new_values() {
    let dag = CircuitDAG::default();
    assert_eq!((dag.nodes.len(), dag.num_qubits, dag.num_cbits), (0, 0, 0));
    let app = App::default();
    assert_eq!(app.dag.num_qubits, 4);
    assert_eq!(app.qasm_text, App::new().qasm_text);
}
