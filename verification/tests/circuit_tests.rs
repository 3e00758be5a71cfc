use qcircuit::circuit::{Circuit, Gate};
use qcircuit::dag::CircuitDAG;
use qcircuit::params::{format_param, parse_param_expr};
use qcircuit::quantum::{gate_kind, inverse_of, simulation_plan, GateKind};

fn gate(t: &str, target: usize, step: isize) -> Gate {
    Gate {
        step,
        gate_type: t.to_string(),
        target,
        control: None,
        controls: vec![],
        measure_source: None,
        params: vec![],
        is_dagger: false,
        is_reset: false,
        is_noise: false,
        noise_type: String::new(),
        classical_control: None,
    }
}

fn circuit(num_qubits: usize, gates: Vec<Gate>) -> Circuit {
    Circuit { num_qubits, gates, max_steps: 0 }
}

#[test]
fn to_circuit_copies_the_nodes_in_order() {
    let mut dag = CircuitDAG::new();
    dag.add_gate("H", 0, 0, None);
    dag.add_gate("CX", 1, 3, Some(0));
    dag.add_barrier(4);
    let c = dag.to_circuit();
    assert_eq!(c.num_qubits, 2);
    assert_eq!(c.max_steps, 4);
    assert_eq!(c.gates.len(), 3);
    assert_eq!(c.gates[0].gate_type, "H");
    assert_eq!(c.gates[1].control, Some(0));
    assert_eq!(c.gates[1].step, 3);
    assert_eq!(c.gates[2].gate_type, "BARRIER");
    assert_eq!(c.gates[2].target, 0);
}

#[test]
fn to_circuit_of_negative_steps_has_last_step_zero() {
    let mut dag = CircuitDAG::new();
    dag.add_gate("H", 0, -2, None);
    assert_eq!(dag.to_circuit().max_steps, 0);
}

#[test]
fn gate_references_its_qubits() {
    let mut g = gate("CCX", 2, 0);
    g.controls = vec![0, 1];
    g.measure_source = Some(5);
    g.control = Some(4);
    for q in [0, 1, 2, 4, 5] {
        assert!(g.references(q));
    }
    assert!(!g.references(3));
    assert_eq!(g.extent(), Some((0, 2)));
    assert_eq!(g.measured(), Some(5));
    assert_eq!(gate("MEASURE", 3, 0).measured(), Some(3));
    assert_eq!(gate("H", 3, 0).measured(), None);
    assert_eq!(gate("H", 3, 0).extent(), None);
}

#[test]
fn classical_bits_of_a_circuit() {
    assert_eq!(circuit(3, vec![]).num_cbits(), 0);
    assert_eq!(circuit(3, vec![gate("H", 2, 0)]).num_cbits(), 0);
    let mut m = gate("MCX", 0, 1);
    m.measure_source = Some(4);
    assert_eq!(circuit(3, vec![gate("MEASURE", 2, 0), m, gate("MEASURE", 1, 2)]).num_cbits(), 5);
}

#[test]
fn measure_at_step() {
    let mut m = gate("MCX", 0, 1);
    m.measure_source = Some(4);
    let c = circuit(5, vec![gate("H", 1, 0), gate("MEASURE", 2, 0), m, gate("MEASURE", 3, 0)]);
    assert_eq!(c.get_measure_at_step(0), Some(2));
    assert_eq!(c.get_measure_at_step(1), Some(4));
    assert_eq!(c.get_measure_at_step(2), None);
}

#[test]
fn gate_at_cell_is_first_found() {
    let mut cx = gate("CX", 1, 0);
    cx.control = Some(0);
    let c = circuit(3, vec![gate("H", 2, 0), cx, gate("X", 1, 0)]);
    assert_eq!(c.get_gate_at(0, 1).unwrap().gate_type, "CX");
    assert_eq!(c.get_gate_at(0, 0).unwrap().gate_type, "CX");
    assert_eq!(c.get_gate_at(0, 2).unwrap().gate_type, "H");
    assert!(c.get_gate_at(1, 1).is_none());
}

#[test]
fn remove_gate_at_clears_cell_and_barriers() {
    let mut c = circuit(3, vec![gate("H", 0, 0), gate("BARRIER", 0, 1), gate("X", 1, 1), gate("Y", 2, 1), gate("BARRIER", 0, 2)]);
    c.remove_gate_at(1, 1);
    let left: Vec<&str> = c.gates.iter().map(|g| g.gate_type.as_str()).collect();
    assert_eq!(left, vec!["H", "Y", "BARRIER"]);
}

#[test]
fn cell_of_plain_gate() {
    let c = circuit(2, vec![gate("H", 0, 0)]);
    let i = c.get_cell_info(0, 0);
    assert_eq!(i.gate.unwrap().gate_type, "H");
    assert!(!i.is_control && !i.is_target && !i.vert_above && !i.vert_below);
    assert!(!i.pass_through && !i.measure_below && !i.is_barrier);
    let e = c.get_cell_info(0, 1);
    assert!(e.gate.is_none());
}

#[test]
fn cells_of_controlled_gate() {
    let mut cx = gate("CX", 3, 0);
    cx.control = Some(1);
    let c = circuit(5, vec![cx]);
    let ctrl = c.get_cell_info(0, 1);
    assert!(ctrl.is_control && !ctrl.is_target && !ctrl.vert_above && ctrl.vert_below);
    let mid = c.get_cell_info(0, 2);
    assert!(mid.gate.is_none() && mid.pass_through && mid.vert_above && mid.vert_below);
    let tgt = c.get_cell_info(0, 3);
    assert!(!tgt.is_control && tgt.is_target && tgt.vert_above && !tgt.vert_below);
    let out = c.get_cell_info(0, 4);
    assert!(!out.vert_above && !out.vert_below && !out.pass_through);
    let other = c.get_cell_info(1, 2);
    assert!(!other.pass_through && !other.vert_above);
}

#[test]
fn cells_of_toffoli_and_measurement() {
    let mut ccx = gate("CCX", 0, 0);
    ccx.controls = vec![2, 4];
    let mut c = circuit(5, vec![ccx, gate("MEASURE", 1, 1)]);
    assert!(c.get_cell_info(0, 4).is_control);
    assert!(c.get_cell_info(0, 0).is_target);
    assert!(c.get_cell_info(0, 3).pass_through);
    assert!(c.get_cell_info(1, 3).measure_below);
    assert!(!c.get_cell_info(1, 1).measure_below);
    assert!(!c.get_cell_info(1, 0).measure_below);
    c.gates.push(gate("BARRIER", 0, 2));
    let b = c.get_cell_info(2, 3);
    assert!(b.is_barrier);
    assert_eq!(b.gate.unwrap().gate_type, "BARRIER");
}

#[test]
fn gate_kinds() {
    assert_eq!(gate_kind("H", false), Some(GateKind::H));
    assert_eq!(gate_kind("SDG", false), Some(GateKind::Sdg));
    assert_eq!(gate_kind("Sdg", false), Some(GateKind::Sdg));
    assert_eq!(gate_kind("Tdg", true), Some(GateKind::Tdg));
    assert_eq!(gate_kind("P", false), Some(GateKind::Rz));
    assert_eq!(gate_kind("U1", false), Some(GateKind::Rz));
    assert_eq!(gate_kind("CX", true), Some(GateKind::Cx));
    assert_eq!(gate_kind("CX", false), None);
    assert_eq!(gate_kind("SWAP", true), Some(GateKind::Swap));
    assert_eq!(gate_kind("CZ", false), None);
    assert_eq!(gate_kind("RESET", false), Some(GateKind::Reset));
    assert_eq!(gate_kind("MEASURE", false), None);
    assert_eq!(gate_kind("CCX", true), None);
    assert_eq!(gate_kind("h", false), None);
}

#[test]
fn plan_of_bell_circuit() {
    let mut dag = CircuitDAG::new();
    dag.add_gate("CX", 1, 1, Some(0));
    dag.add_gate("H", 0, 0, None);
    let plan = simulation_plan(&dag.to_circuit(), -1);
    assert_eq!(plan.num_qubits, 2);
    let ops: Vec<(GateKind, usize, Option<usize>)> = plan.ops.iter().map(|o| (o.kind, o.target, o.control)).collect();
    assert_eq!(ops, vec![(GateKind::H, 0, None), (GateKind::Cx, 1, Some(0))]);
}

#[test]
fn plan_stops_at_the_cutoff() {
    let mut dag = CircuitDAG::new();
    dag.add_gate("H", 0, 0, None);
    dag.add_gate("X", 0, 1, None);
    dag.add_gate("Z", 0, 2, None);
    let c = dag.to_circuit();
    assert_eq!(simulation_plan(&c, 1).ops.len(), 2);
    assert_eq!(simulation_plan(&c, 0).ops.len(), 1);
    assert_eq!(simulation_plan(&c, -5).ops.len(), 3);
}

#[test]
fn plan_of_circuit_without_qubits() {
    let plan = simulation_plan(&circuit(0, vec![gate("H", 0, 0)]), -1);
    assert_eq!(plan.num_qubits, 1);
    assert!(plan.ops.is_empty());
}

#[test]
fn plan_passes_over_what_is_not_simulated() {
    let mut noise = gate("NOISE", 0, 0);
    noise.is_noise = true;
    let mut guarded = gate("X", 0, 0);
    guarded.classical_control = Some(0);
    let mut mcx = gate("MCX", 1, 0);
    mcx.measure_source = Some(0);
    let c = circuit(2, vec![gate("BARRIER", 0, 0), gate("MEASURE", 0, 0), mcx, noise, guarded, gate("FOO", 0, 0), gate("RESET", 1, 0)]);
    let plan = simulation_plan(&c, -1);
    let kinds: Vec<GateKind> = plan.ops.iter().map(|o| o.kind).collect();
    assert_eq!(kinds, vec![GateKind::Reset]);
}

#[test]
fn plan_fans_out_over_controls() {
    let mut ccx = gate("CCX", 2, 0);
    ccx.controls = vec![0, 1];
    assert!(simulation_plan(&circuit(3, vec![ccx]), -1).ops.is_empty());
    let mut cx = gate("CX", 2, 0);
    cx.controls = vec![0, 1];
    let plan = simulation_plan(&circuit(3, vec![cx]), -1);
    let ops: Vec<(GateKind, usize, Option<usize>)> = plan.ops.iter().map(|o| (o.kind, o.target, o.control)).collect();
    assert_eq!(ops, vec![(GateKind::Cx, 2, Some(0)), (GateKind::Cx, 2, Some(1))]);
    let mut h = gate("H", 2, 0);
    h.controls = vec![0, 1];
    let plan = simulation_plan(&circuit(3, vec![h]), -1);
    let ops: Vec<(GateKind, usize, Option<usize>)> = plan.ops.iter().map(|o| (o.kind, o.target, o.control)).collect();
    assert_eq!(ops, vec![(GateKind::H, 2, None), (GateKind::H, 2, None)]);
}

#[test]
fn plan_keeps_the_angle_of_a_rotation() {
    let mut rx = gate("RX", 0, 0);
    rx.params = vec![parse_param_expr("pi/2").unwrap(), parse_param_expr("1").unwrap()];
    let mut x = gate("X", 0, 1);
    x.params = vec![parse_param_expr("pi").unwrap()];
    let plan = simulation_plan(&circuit(1, vec![rx, x, gate("RZ", 0, 2)]), -1);
    assert_eq!(format_param(plan.ops[0].angle.as_ref().unwrap()), "pi/2");
    assert!(plan.ops[1].angle.is_none());
    assert_eq!(plan.ops[2].kind, GateKind::Rz);
    assert!(plan.ops[2].angle.is_none());
}

#[test]
fn plan_sorts_by_step_and_keeps_order_within_a_step() {
    let c = circuit(2, vec![gate("Z", 0, 1), gate("X", 0, 0), gate("Y", 1, 1), gate("H", 1, 0)]);
    let kinds: Vec<GateKind> = simulation_plan(&c, -1).ops.iter().map(|o| o.kind).collect();
    assert_eq!(kinds, vec![GateKind::X, GateKind::H, GateKind::Z, GateKind::Y]);
}

#[test]
fn plan_with_reset_after_hadamard() {
    let mut dag = CircuitDAG::new();
    dag.add_gate("H", 0, 0, None);
    dag.add_reset(0, 1);
    let kinds: Vec<GateKind> = simulation_plan(&dag.to_circuit(), -1).ops.iter().map(|o| o.kind).collect();
    assert_eq!(kinds, vec![GateKind::H, GateKind::Reset]);
}

#[test]
fn clone_of_circuit() {
    let mut cx = gate("CX", 1, 0);
    cx.control = Some(0);
    cx.params = vec![parse_param_expr("pi").unwrap()];
    let c = circuit(2, vec![cx]).clone();
    assert_eq!(c.num_qubits, 2);
    assert_eq!(c.gates[0].control, Some(0));
    assert_eq!(format_param(&c.gates[0].params[0]), "pi");
}

#[test]
fn plan_passes_over_every_gate_that_a_measurement_controls() {
    let mut x = gate("X", 1, 0);
    x.measure_source = Some(0);
    let mut h = gate("H", 1, 1);
    h.measure_source = Some(0);
    let c = circuit(2, vec![x, h, gate("MCX", 1, 2), gate("Z", 0, 3)]);
    let plan = simulation_plan(&c, -1);
    let ops: Vec<(GateKind, usize)> = plan.ops.iter().map(|o| (o.kind, o.target)).collect();
    assert_eq!(ops, vec![(GateKind::Z, 0)]);
}

#[test]
fn plan_without_the_skipped_gates_is_the_same() {
    let mut noise = gate("NOISE", 0, 1);
    noise.is_noise = true;
    let mut guarded = gate("X", 0, 2);
    guarded.classical_control = Some(0);
    let mut fused = gate("X", 1, 3);
    fused.measure_source = Some(0);
    let mut cx = gate("CX", 1, 4);
    cx.control = Some(0);
    let kept = vec![gate("H", 0, 0), cx];
    let mut all = vec![gate("BARRIER", 0, 0), gate("MEASURE", 0, 1), noise, guarded, fused];
    all.insert(0, kept[0].clone());
    all.push(kept[1].clone());
    for cutoff in [-1isize, 0, 3, 4, 9] {
        let a = simulation_plan(&circuit(2, all.clone()), cutoff);
        let b = simulation_plan(&circuit(2, kept.clone()), cutoff);
        let ka: Vec<(GateKind, usize, Option<usize>)> = a.ops.iter().map(|o| (o.kind, o.target, o.control)).collect();
        let kb: Vec<(GateKind, usize, Option<usize>)> = b.ops.iter().map(|o| (o.kind, o.target, o.control)).collect();
        assert_eq!(ka, kb);
        assert_eq!(a.num_qubits, b.num_qubits);
    }
}

#[test]
fn plan_runs_a_dagger_gate_as_the_inverse() {
    let mut dag = CircuitDAG::new();
    dag.add_gate("H", 0, 0, None);
    dag.add_dagger_gate("S", 0, 1);
    dag.add_dagger_gate("T", 0, 2);
    dag.add_gate("S", 0, 3, None);
    let plan = simulation_plan(&dag.to_circuit(), -1);
    let kinds: Vec<GateKind> = plan.ops.iter().map(|o| o.kind).collect();
    assert_eq!(kinds, vec![GateKind::H, GateKind::Sdg, GateKind::Tdg, GateKind::S]);
    assert!(plan.ops.iter().all(|o| !o.inverse));
}

#[test]
fn plan_of_the_line_sdg_is_the_inverse_of_s() {
    let mut dag = CircuitDAG::new();
    assert!(dag.parse_qasm("qreg q[1];\nh q[0];\nsdg q[0];\ntdg q[0];\n").is_ok());
    let plan = simulation_plan(&dag.to_circuit(), -1);
    let kinds: Vec<GateKind> = plan.ops.iter().map(|o| o.kind).collect();
    assert_eq!(kinds, vec![GateKind::H, GateKind::Sdg, GateKind::Tdg]);
}

#[test]
fn plan_inverts_by_kind_or_by_angle() {
    let mut sdg = gate("SDG", 0, 0);
    sdg.is_dagger = true;
    let mut x = gate("X", 0, 1);
    x.is_dagger = true;
    let mut rx = gate("RX", 0, 2);
    rx.is_dagger = true;
    rx.params = vec![parse_param_expr("pi/2").unwrap()];
    let mut rz = gate("RZ", 0, 3);
    rz.params = vec![parse_param_expr("pi/2").unwrap()];
    let mut cx = gate("CX", 1, 4);
    cx.control = Some(0);
    cx.is_dagger = true;
    let plan = simulation_plan(&circuit(2, vec![sdg, x, rx, rz, cx]), -1);
    let ops: Vec<(GateKind, bool)> = plan.ops.iter().map(|o| (o.kind, o.inverse)).collect();
    assert_eq!(
        ops,
        vec![
            (GateKind::S, false),
            (GateKind::X, false),
            (GateKind::Rx, true),
            (GateKind::Rz, false),
            (GateKind::Cx, false),
        ]
    );
    assert_eq!(format_param(plan.ops[2].angle.as_ref().unwrap()), "pi/2");
}

#[test]
fn inverse_of_each_kind() {
    assert_eq!(inverse_of(GateKind::S), GateKind::Sdg);
    assert_eq!(inverse_of(GateKind::Sdg), GateKind::S);
    assert_eq!(inverse_of(GateKind::T), GateKind::Tdg);
    assert_eq!(inverse_of(GateKind::Tdg), GateKind::T);
    for k in [GateKind::H, GateKind::X, GateKind::Y, GateKind::Z, GateKind::Rx, GateKind::Ry, GateKind::Rz, GateKind::Cx, GateKind::Cz, GateKind::Swap, GateKind::Reset] {
        assert_eq!(inverse_of(k), k);
    }
}
