use qcircuit::dag::CircuitDAG;

#[test]
fn long_chain_is_sorted_without_deep_recursion() {
    let mut dag = CircuitDAG::new();
    let n: usize = 1500;
    for step in 0..n {
        dag.add_gate("X", 0, step as isize, None);
    }
    let order = dag.topological_order();
    assert_eq!(order.len(), n);
    for (i, k) in order.iter().enumerate() {
        assert_eq!(*k, i);
    }
    assert_eq!(dag.nodes[n - 1].dependencies.len(), 1);
}

#[test]
fn parsing_two_hundred_lines() {
    let mut text = String::from("OPENQASM 2.0;\ninclude \"qelib1.inc\";\nqreg q[4];\ncreg c[4];\n");
    for i in 0..200 {
        match i % 4 {
            0 => text.push_str("h q[0];\n"),
            1 => text.push_str("cx q[0], q[1];\n"),
            2 => text.push_str("rz(pi/4) q[2];\n"),
            _ => text.push_str("ccx q[0], q[1], q[3];\n"),
        }
    }
    let start = std::time::Instant::now();
    let mut dag = CircuitDAG::new();
    assert!(dag.parse_qasm(&text).is_ok());
    assert_eq!(dag.nodes.len(), 200);
    let again = dag.to_qasm();
    let mut back = CircuitDAG::new();
    assert!(back.parse_qasm(&again).is_ok());
    assert_eq!(back.nodes.len(), 200);
    println!("elapsed: {:?}", start.elapsed());
    assert!(start.elapsed().as_secs() < 15);
}
