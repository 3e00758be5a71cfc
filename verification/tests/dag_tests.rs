use qcircuit::dag::CircuitDAG;
use qcircuit::node::{generate_node_id, DAGNode};
use qcircuit::params::{format_param, parse_param_expr, ParamExpr};

fn ids(dag: &CircuitDAG) -> Vec<String> {
    dag.nodes.iter().map(|n| n.id.clone()).collect()
}

fn node<'a>(dag: &'a CircuitDAG, id: &str) -> &'a DAGNode {
    dag.nodes.iter().find(|n| n.id == id).unwrap()
}

fn s(v: &[&str]) -> Vec<String> {
    v.iter().map(|x| x.to_string()).collect()
}

#[test]
fn new_circuit_is_empty() {
    let dag = CircuitDAG::new();
    assert_eq!(dag.nodes.len(), 0);
    assert_eq!(dag.num_qubits, 0);
    assert_eq!(dag.num_cbits, 0);
    assert_eq!(dag.max_step(), 0);
    assert!(dag.root_nodes.is_empty());
}

#[test]
fn default_node_is_blank() {
    let n = DAGNode::default();
    assert_eq!(n.id, "");
    assert_eq!(n.gate_type, "");
    assert_eq!(n.target, None);
    assert_eq!(n.control, None);
    assert!(n.controls.is_empty());
    assert_eq!(n.measure_source, None);
    assert_eq!(n.step, 0);
    assert!(n.params.is_empty());
    assert!(!n.is_dagger && !n.is_reset && !n.is_noise);
    assert_eq!(n.classical_control, None);
    assert_eq!(n.noise_type, "");
    assert!(n.dependencies.is_empty());
}

#[test]
fn node_id_is_type_target_step() {
    assert_eq!(generate_node_id("H", Some(2), 0), "H_q2_s0");
    assert_eq!(generate_node_id("BARRIER", None, 7), "BARRIER_q-1_s7");
    assert_eq!(generate_node_id("CX", Some(10), -3), "CX_q10_s-3");
    assert_eq!(generate_node_id("X", Some(0), 120), "X_q0_s120");
}

#[test]
fn add_node_fills_in_missing_id() {
    let mut dag = CircuitDAG::new();
    let mut n = DAGNode::default();
    n.gate_type = "Y".to_string();
    n.target = Some(3);
    n.step = 5;
    dag.add_node(n);
    assert_eq!(ids(&dag), s(&["Y_q3_s5"]));
    assert_eq!(dag.num_qubits, 4);
}

#[test]
fn add_node_keeps_given_id() {
    let mut dag = CircuitDAG::new();
    let mut n = DAGNode::default();
    n.id = "custom".to_string();
    n.gate_type = "Y".to_string();
    n.target = Some(0);
    dag.add_node(n);
    assert_eq!(ids(&dag), s(&["custom"]));
}

#[test]
fn add_node_replaces_node_of_same_id_and_puts_it_last() {
    let mut dag = CircuitDAG::new();
    dag.add_gate("H", 0, 0, None);
    dag.add_gate("X", 1, 0, None);
    dag.add_gate("H", 0, 0, Some(1));
    assert_eq!(ids(&dag), s(&["X_q1_s0", "H_q0_s0"]));
    assert_eq!(node(&dag, "H_q0_s0").control, Some(1));
}

#[test]
fn add_gate_assigns_id_and_grows_counts() {
    let mut dag = CircuitDAG::new();
    dag.add_gate("H", 2, 0, None);
    assert_eq!(ids(&dag), s(&["H_q2_s0"]));
    assert_eq!(dag.num_qubits, 3);
    assert_eq!(dag.num_cbits, 0);
    assert_eq!(dag.root_nodes, s(&["H_q2_s0"]));
    dag.add_gate("CX", 1, 1, Some(5));
    assert_eq!(dag.num_qubits, 6);
}

#[test]
fn counts_never_shrink_on_add() {
    let mut dag = CircuitDAG::new();
    dag.ensure_qubits(8);
    dag.add_gate("H", 0, 0, None);
    assert_eq!(dag.num_qubits, 8);
}

#[test]
fn barrier_needs_no_qubit() {
    let mut dag = CircuitDAG::new();
    dag.add_barrier(0);
    assert_eq!(dag.num_qubits, 0);
    assert_eq!(dag.num_cbits, 0);
    assert_eq!(ids(&dag), s(&["BARRIER_q-1_s0"]));
}

#[test]
fn counts_grow_from_the_fields_that_bear_an_index() {
    let mut dag = CircuitDAG::new();
    dag.add_node(DAGNode::default());
    assert_eq!((dag.num_qubits, dag.num_cbits), (0, 0));
    let mut n = DAGNode::default();
    n.gate_type = "X".to_string();
    n.target = Some(0);
    dag.add_node(n);
    assert_eq!((dag.num_qubits, dag.num_cbits), (1, 0));
    let mut n = DAGNode::default();
    n.gate_type = "CCX".to_string();
    n.target = Some(1);
    n.controls = vec![4, 2];
    n.step = 1;
    dag.add_node(n);
    assert_eq!((dag.num_qubits, dag.num_cbits), (5, 0));
    let mut n = DAGNode::default();
    n.gate_type = "X".to_string();
    n.classical_control = Some(3);
    n.step = 2;
    dag.add_node(n);
    assert_eq!((dag.num_qubits, dag.num_cbits), (5, 4));
    dag.add_gate("H", 0, 3, None);
    assert_eq!((dag.num_qubits, dag.num_cbits), (5, 4));
}

#[test]
fn classical_bits_grow_with_measure_and_control() {
    let mut dag = CircuitDAG::new();
    dag.add_gate("MEASURE", 2, 0, None);
    assert_eq!(dag.num_cbits, 3);
    dag.add_classical_control_gate("X", 0, 1, 4);
    assert_eq!(dag.num_cbits, 5);
    dag.add_measure_control_gate(6, 1, 2);
    assert_eq!(dag.num_cbits, 7);
    assert_eq!(dag.num_qubits, 7);
}

#[test]
fn dependency_is_last_node_on_qubit() {
    let mut dag = CircuitDAG::new();
    dag.add_gate("H", 0, 0, None);
    dag.add_gate("X", 0, 1, None);
    dag.add_gate("Z", 0, 2, None);
    assert_eq!(node(&dag, "H_q0_s0").dependencies, Vec::<String>::new());
    assert_eq!(node(&dag, "X_q0_s1").dependencies, s(&["H_q0_s0"]));
    assert_eq!(node(&dag, "Z_q0_s2").dependencies, s(&["X_q0_s1"]));
    assert_eq!(dag.root_nodes, s(&["H_q0_s0"]));
}

#[test]
fn dependency_ties_break_by_type_name() {
    let mut dag = CircuitDAG::new();
    dag.add_gate("A", 0, 0, None);
    dag.add_gate("B", 0, 0, None);
    assert_eq!(node(&dag, "B_q0_s0").dependencies, s(&["A_q0_s0"]));
    let mut dag = CircuitDAG::new();
    dag.add_gate("Z", 0, 0, None);
    dag.add_gate("X", 0, 0, None);
    assert_eq!(node(&dag, "X_q0_s0").dependencies, Vec::<String>::new());
}

#[test]
fn dependencies_are_listed_once() {
    let mut dag = CircuitDAG::new();
    dag.add_gate("CX", 1, 0, Some(0));
    dag.add_gate("CZ", 1, 1, Some(0));
    assert_eq!(node(&dag, "CZ_q1_s1").dependencies, s(&["CX_q1_s0"]));
}

#[test]
fn build_deps_takes_each_qubit_in_turn() {
    let mut dag = CircuitDAG::new();
    dag.add_gate("H", 0, 0, None);
    dag.add_gate("X", 1, 0, None);
    let deps = dag.build_deps(&vec![1, 0, 2], 1, "CX");
    assert_eq!(deps, s(&["X_q1_s0", "H_q0_s0"]));
    let none = dag.build_deps(&vec![0, 1], 0, "A");
    assert!(none.is_empty());
}

#[test]
fn remove_node_prunes_dependencies() {
    let mut dag = CircuitDAG::new();
    dag.add_gate("H", 0, 0, None);
    dag.add_gate("X", 0, 1, None);
    dag.remove_node("H_q0_s0");
    assert_eq!(ids(&dag), s(&["X_q0_s1"]));
    assert!(node(&dag, "X_q0_s1").dependencies.is_empty());
    assert_eq!(dag.root_nodes, s(&["X_q0_s1"]));
    assert_eq!(dag.num_qubits, 1);
}

#[test]
fn remove_missing_node_changes_nothing() {
    let mut dag = CircuitDAG::new();
    dag.add_gate("H", 0, 0, None);
    dag.remove_node("nothing");
    assert_eq!(ids(&dag), s(&["H_q0_s0"]));
}

#[test]
fn get_node_at_finds_every_role() {
    let mut dag = CircuitDAG::new();
    dag.add_gate("CX", 1, 0, Some(0));
    dag.add_multi_control_gate("CCX", 4, 1, vec![2, 3]);
    dag.add_measure_control_gate(5, 6, 2);
    assert_eq!(dag.get_node_at(0, 0).unwrap().id, "CX_q1_s0");
    assert_eq!(dag.get_node_at(0, 1).unwrap().id, "CX_q1_s0");
    assert_eq!(dag.get_node_at(1, 3).unwrap().id, "CCX_q4_s1");
    assert_eq!(dag.get_node_at(2, 5).unwrap().id, "MCX_q6_s2");
    assert!(dag.get_node_at(1, 0).is_none());
    assert_eq!(dag.get_node_at_mut(1, 2), Some("CCX_q4_s1".to_string()));
    assert_eq!(dag.get_node_at_mut(3, 2), None);
    assert_eq!(dag.index_at(2, 6), Some(2));
}

#[test]
fn remove_node_at_cell() {
    let mut dag = CircuitDAG::new();
    dag.add_gate("H", 0, 0, None);
    dag.add_gate("X", 1, 0, None);
    dag.remove_node_at(0, 1);
    assert_eq!(ids(&dag), s(&["H_q0_s0"]));
    dag.remove_node_at(5, 0);
    assert_eq!(ids(&dag), s(&["H_q0_s0"]));
}

#[test]
fn can_place_only_on_free_or_single_qubit_cells() {
    let mut dag = CircuitDAG::new();
    dag.add_gate("H", 0, 0, None);
    dag.add_gate("CX", 2, 0, Some(1));
    assert!(dag.can_place_gate_at(0, &vec![0]));
    assert!(dag.can_place_gate_at(0, &vec![3]));
    assert!(!dag.can_place_gate_at(0, &vec![1]));
    assert!(!dag.can_place_gate_at(0, &vec![0, 2]));
    assert!(dag.can_place_gate_at(1, &vec![1, 2]));
    assert!(dag.can_place_gate_at(0, &vec![]));
}

#[test]
fn barrier_claims_every_qubit_of_its_step() {
    let mut dag = CircuitDAG::new();
    dag.add_gate("H", 0, 0, None);
    dag.add_barrier(1);
    let before = ids(&dag);
    assert!(dag.can_place_gate_at(0, &vec![0, 1]));
    assert!(!dag.can_place_gate_at(1, &vec![0]));
    assert!(!dag.can_place_gate_at(1, &vec![7]));
    assert!(!dag.can_place_gate_at(1, &vec![2, 3]));
    assert!(dag.can_place_gate_at(1, &vec![]));
    assert!(dag.can_place_gate_at(2, &vec![0]));
    assert_eq!(ids(&dag), before);
}

#[test]
fn barrier_alone_blocks_its_step() {
    let mut dag = CircuitDAG::new();
    dag.add_barrier(0);
    assert!(!dag.can_place_gate_at(0, &vec![0]));
    assert!(dag.can_place_gate_at(1, &vec![0]));
}

#[test]
fn measurement_controlled_gate_blocks_both_qubits() {
    let mut dag = CircuitDAG::new();
    dag.add_measure_control_gate(0, 2, 0);
    assert!(!dag.can_place_gate_at(0, &vec![0]));
    assert!(!dag.can_place_gate_at(0, &vec![2]));
    assert!(dag.can_place_gate_at(0, &vec![1]));
}

#[test]
fn build_deps_takes_the_greatest_step_not_the_last_inserted() {
    let mut dag = CircuitDAG::new();
    dag.add_gate("H", 0, 5, None);
    dag.add_gate("X", 0, 2, None);
    assert_eq!(dag.build_deps(&vec![0], 7, "Z"), s(&["H_q0_s5"]));
    assert_eq!(dag.build_deps(&vec![0], 5, "A"), s(&["X_q0_s2"]));
    assert_eq!(dag.build_deps(&vec![0], 2, "Z"), s(&["X_q0_s2"]));
    assert!(dag.build_deps(&vec![0], 2, "X").is_empty());
    assert!(dag.build_deps(&vec![1], 9, "Z").is_empty());
}

#[test]
fn build_deps_breaks_ties_of_step_by_type() {
    let mut dag = CircuitDAG::new();
    dag.add_gate("Y", 0, 3, None);
    dag.add_gate("H", 0, 3, None);
    dag.add_gate("CX", 1, 3, Some(0));
    assert_eq!(dag.build_deps(&vec![0], 3, "Z"), s(&["Y_q0_s3"]));
    assert_eq!(dag.build_deps(&vec![0], 3, "Y"), s(&["H_q0_s3"]));
    assert_eq!(dag.build_deps(&vec![0], 3, "H"), s(&["CX_q1_s3"]));
    assert!(dag.build_deps(&vec![0], 3, "CX").is_empty());
    assert_eq!(dag.build_deps(&vec![1, 0], 4, "A"), s(&["CX_q1_s3", "Y_q0_s3"]));
}

#[test]
fn build_deps_takes_the_later_of_two_equal_nodes() {
    let mut dag = CircuitDAG::new();
    dag.add_gate("CX", 0, 1, Some(1));
    dag.add_gate("CX", 1, 1, Some(0));
    assert_eq!(dag.build_deps(&vec![0], 2, "H"), s(&["CX_q1_s1"]));
}

#[test]
fn a_gate_added_late_depends_on_the_most_recent_before_it() {
    let mut dag = CircuitDAG::new();
    dag.add_gate("H", 0, 5, None);
    dag.add_gate("X", 0, 2, None);
    dag.add_gate("Z", 0, 7, None);
    assert_eq!(node(&dag, "Z_q0_s7").dependencies, s(&["H_q0_s5"]));
    assert!(node(&dag, "X_q0_s2").dependencies.is_empty());
}

#[test]
fn remove_nodes_on_qubit_removes_all_that_touch_it() {
    let mut dag = CircuitDAG::new();
    dag.add_gate("H", 0, 0, None);
    dag.add_gate("CX", 1, 1, Some(0));
    dag.add_gate("X", 1, 2, None);
    dag.add_gate("Z", 2, 0, None);
    dag.remove_nodes_on_qubit(0);
    assert_eq!(ids(&dag), s(&["X_q1_s2", "Z_q2_s0"]));
    assert!(node(&dag, "X_q1_s2").dependencies.is_empty());
    assert_eq!(dag.num_qubits, 3);
}

#[test]
fn barriers_are_unique_per_step() {
    let mut dag = CircuitDAG::new();
    dag.add_gate("H", 0, 0, None);
    dag.add_barrier(1);
    dag.add_barrier(1);
    dag.add_barrier(2);
    assert_eq!(ids(&dag), s(&["H_q0_s0", "BARRIER_q-1_s1", "BARRIER_q-1_s2"]));
    let b = node(&dag, "BARRIER_q-1_s1");
    assert_eq!(b.target, None);
    assert!(b.dependencies.is_empty());
}

#[test]
fn add_family_sets_the_fields_of_each_shape() {
    let mut dag = CircuitDAG::new();
    dag.add_parameterized_gate("RX", 0, 0, vec![parse_param_expr("pi/2").unwrap()], None);
    dag.add_dagger_gate("S", 1, 0);
    dag.add_reset(2, 0);
    dag.add_noise(3, 0, "depolarizing", vec![parse_param_expr("0.01").unwrap()]);
    dag.add_classical_control_gate("X", 4, 0, 2);
    let rx = node(&dag, "RX_q0_s0");
    assert_eq!(rx.params.len(), 1);
    assert_eq!(format_param(&rx.params[0]), "pi/2");
    assert!(node(&dag, "S_q1_s0").is_dagger);
    let r = node(&dag, "RESET_q2_s0");
    assert!(r.is_reset);
    assert_eq!(r.gate_type, "RESET");
    let n = node(&dag, "NOISE_q3_s0");
    assert!(n.is_noise);
    assert_eq!(n.noise_type, "depolarizing");
    assert_eq!(format_param(&n.params[0]), "0.01");
    assert_eq!(node(&dag, "X_q4_s0").classical_control, Some(2));
    assert_eq!(dag.num_cbits, 3);
}

#[test]
fn max_step_is_largest_step() {
    let mut dag = CircuitDAG::new();
    dag.add_gate("H", 0, 3, None);
    dag.add_gate("X", 0, 7, None);
    dag.add_gate("Z", 0, 5, None);
    assert_eq!(dag.max_step(), 7);
}

#[test]
fn topological_sort_visits_every_node_once_after_its_dependencies() {
    let mut dag = CircuitDAG::new();
    dag.add_gate("H", 0, 0, None);
    dag.add_gate("H", 1, 0, None);
    dag.add_gate("CX", 1, 1, Some(0));
    dag.add_gate("X", 2, 0, None);
    dag.add_gate("CX", 2, 2, Some(1));
    dag.add_gate("Z", 0, 3, None);
    let sorted = dag.topological_sort();
    assert_eq!(sorted.len(), dag.nodes.len());
    let order: Vec<String> = sorted.iter().map(|n| n.id.clone()).collect();
    for n in &dag.nodes {
        assert_eq!(order.iter().filter(|id| **id == n.id).count(), 1);
    }
    for (i, n) in sorted.iter().enumerate() {
        for d in &n.dependencies {
            let j = order.iter().position(|id| id == d).unwrap();
            assert!(j < i);
        }
    }
}

#[test]
fn topological_order_starts_from_the_roots() {
    let mut dag = CircuitDAG::new();
    dag.add_gate("H", 0, 0, None);
    dag.add_gate("X", 0, 1, None);
    dag.add_gate("Y", 1, 0, None);
    assert_eq!(dag.topological_order(), vec![0, 2, 1]);
}

#[test]
fn topological_sort_survives_a_cycle() {
    let mut dag = CircuitDAG::new();
    let mut a = DAGNode::default();
    a.id = "a".to_string();
    a.gate_type = "H".to_string();
    a.target = Some(0);
    a.dependencies = vec!["b".to_string()];
    let mut b = DAGNode::default();
    b.id = "b".to_string();
    b.gate_type = "X".to_string();
    b.target = Some(0);
    b.dependencies = vec!["a".to_string(), "missing".to_string()];
    dag.add_node(a);
    dag.add_node(b);
    let mut order = dag.topological_order();
    order.sort();
    assert_eq!(order, vec![0, 1]);
}

#[test]
fn shrink_takes_the_last_qubit_with_its_nodes() {
    let mut dag = CircuitDAG::new();
    dag.add_gate("H", 0, 0, None);
    dag.add_gate("CX", 2, 1, Some(0));
    dag.shrink_qubit();
    assert_eq!(dag.num_qubits, 2);
    assert_eq!(ids(&dag), s(&["H_q0_s0"]));
    dag.shrink_qubit();
    assert_eq!(dag.num_qubits, 1);
    dag.shrink_qubit();
    assert_eq!(dag.num_qubits, 1);
    assert_eq!(ids(&dag), s(&["H_q0_s0"]));
}

#[test]
fn clone_keeps_every_field() {
    let mut n = DAGNode::default();
    n.id = "id".to_string();
    n.gate_type = "RX".to_string();
    n.target = Some(1);
    n.control = Some(2);
    n.controls = vec![3, 4];
    n.measure_source = Some(5);
    n.step = 6;
    n.params = vec![ParamExpr::Number { text: "0.5".to_string() }];
    n.is_dagger = true;
    n.classical_control = Some(7);
    n.noise_type = "x".to_string();
    n.dependencies = vec!["a".to_string()];
    let c = n.clone();
    assert_eq!(c.id, "id");
    assert_eq!(c.gate_type, "RX");
    assert_eq!((c.target, c.control, c.measure_source, c.classical_control), (Some(1), Some(2), Some(5), Some(7)));
    assert_eq!(c.controls, vec![3, 4]);
    assert_eq!(c.step, 6);
    assert_eq!(format_param(&c.params[0]), "0.5");
    assert!(c.is_dagger);
    assert_eq!(c.dependencies, vec!["a".to_string()]);
    assert_eq!(c.qubits_used(), vec![1, 2, 3, 4, 5]);
    assert!(c.is_multi_qubit());
    assert!(c.references(4) && !c.references(0));
}
