use qcircuit::circuit::Gate;
use qcircuit::editor::{App, EditAction, Focus, PLACE_REFUSED};
use qcircuit::menu::{gate_menu, is_parameterized_gate};
use qcircuit::params::{format_param, parse_param_expr};
use qcircuit::text::{
    chars_of, has_prefix, has_suffix, parse_index, split_at, string_of, text_before, trim,
};

const EMPTY_4: &str = "OPENQASM 2.0;\ninclude \"qelib1.inc\";\n\nqreg q[4];\ncreg c[1];\n\n";

fn ids(app: &App) -> Vec<String> {
    app.dag.nodes.iter().map(|n| n.id.clone()).collect()
}

fn chars(s: &str) -> Vec<char> {
    s.chars().collect()
}

#[test]
fn new_session() {
    let app = App::new();
    assert_eq!(app.dag.num_qubits, 4);
    assert_eq!(app.qasm_text, EMPTY_4);
    assert_eq!(app.last_qasm, EMPTY_4);
    assert_eq!(app.qasm_cursor, EMPTY_4.chars().count());
    assert_eq!(app.focus, Focus::Circuit);
    assert_eq!((app.cursor_qubit, app.cursor_step), (0, 0));
}

#[test]
fn place_single_qubit_gate() {
    let mut app = App::new();
    app.cursor_qubit = 2;
    app.pending_gate = "H".to_string();
    assert!(app.place_gate("H", None));
    assert_eq!(ids(&app), vec!["H_q2_s0".to_string()]);
    assert_eq!(app.cursor_step, 1);
    assert_eq!(app.pending_gate, "");
    assert_eq!(app.qasm_text, format!("{}h q[2];\n", EMPTY_4));
}

#[test]
fn two_qubit_gate_needs_a_target() {
    let mut app = App::new();
    app.pending_gate = "CX".to_string();
    assert!(!app.place_gate("CX", None));
    assert!(ids(&app).is_empty());
    assert_eq!(app.pending_gate, "CX");
    assert_eq!(app.status_msg, "");
    assert!(!app.place_gate("CCX", None));
    assert!(!app.place_gate("MCX", None));
}

#[test]
fn place_two_qubit_gate() {
    let mut app = App::new();
    assert!(app.place_gate("CX", Some(1)));
    let n = &app.dag.nodes[0];
    assert_eq!((n.control, n.target), (Some(0), Some(1)));
    app.param_input = "pi/2".to_string();
    assert!(app.place_gate("CRZ", Some(2)));
    let n = &app.dag.nodes[1];
    assert_eq!(n.id, "CRZ_q2_s1");
    assert_eq!(format_param(&n.params[0]), "pi/2");
    assert_eq!(app.param_input, "");
}

#[test]
fn placing_on_a_multi_qubit_cell_is_refused() {
    let mut app = App::new();
    assert!(app.place_gate("CX", Some(1)));
    app.cursor_step = 0;
    app.cursor_qubit = 1;
    app.param_input = "1".to_string();
    app.pending_gate = "H".to_string();
    app.control_qubits = vec![3];
    let before = app.qasm_text.clone();
    assert!(!app.place_gate("H", None));
    assert_eq!(app.status_msg, PLACE_REFUSED);
    assert_eq!(app.status_msg, "Cannot place: qubit already used by another gate at this step");
    assert_eq!(ids(&app), vec!["CX_q1_s0".to_string()]);
    assert_eq!(app.param_input, "");
    assert_eq!(app.pending_gate, "");
    assert!(app.control_qubits.is_empty());
    assert_eq!(app.cursor_step, 0);
    assert_eq!(app.qasm_text, before);
}

#[test]
fn placing_replaces_a_single_qubit_gate() {
    let mut app = App::new();
    assert!(app.place_gate("H", None));
    app.cursor_step = 0;
    assert!(app.place_gate("X", None));
    assert_eq!(ids(&app), vec!["X_q0_s0".to_string()]);
}

#[test]
fn place_toffoli_with_controls() {
    let mut app = App::new();
    app.control_qubits = vec![1];
    assert!(app.place_gate("CCX", Some(2)));
    let n = &app.dag.nodes[0];
    assert_eq!(n.controls, vec![0, 1]);
    assert_eq!(n.target, Some(2));
    assert!(app.control_qubits.is_empty());
    assert!(app.qasm_text.ends_with("ccx q[0], q[1], q[2];\n"));
}

#[test]
fn place_special_gates() {
    let mut app = App::new();
    assert!(app.place_gate("MCX", Some(3)));
    assert_eq!(app.dag.nodes[0].measure_source, Some(0));
    assert!(app.place_gate("MEASURE", None));
    assert_eq!(app.dag.nodes[1].id, "MEASURE_q0_s1");
    assert!(app.place_gate("BARRIER", None));
    assert_eq!(app.dag.nodes[2].id, "BARRIER_q-1_s2");
    assert!(app.place_gate("RESET", None));
    assert!(app.dag.nodes[3].is_reset);
    assert!(app.place_gate("SDG", None));
    assert_eq!(app.dag.nodes[4].id, "S_q0_s4");
    assert!(app.dag.nodes[4].is_dagger);
    assert!(app.place_gate("TDG", None));
    assert_eq!(app.dag.nodes[5].gate_type, "T");
    assert_eq!(app.cursor_step, 6);
}

#[test]
fn place_rotation_fills_in_parameters() {
    let mut app = App::new();
    assert!(app.place_gate("RX", None));
    assert_eq!(format_param(&app.dag.nodes[0].params[0]), "0");
    app.param_input = "pi".to_string();
    assert!(app.place_gate("U2", None));
    let p: Vec<String> = app.dag.nodes[1].params.iter().map(format_param).collect();
    assert_eq!(p, vec!["pi", "0"]);
    app.param_input = "1,2,3,4".to_string();
    assert!(app.place_gate("U3", None));
    let p: Vec<String> = app.dag.nodes[2].params.iter().map(format_param).collect();
    assert_eq!(p, vec!["1", "2", "3"]);
    app.param_input = "bad".to_string();
    assert!(app.place_gate("RY", None));
    assert_eq!(format_param(&app.dag.nodes[3].params[0]), "0");
}

#[test]
fn place_noise() {
    let mut app = App::new();
    assert!(app.place_gate("NOISE_DEPOL", None));
    assert!(app.place_gate("NOISE_AMP", None));
    app.param_input = "0.2".to_string();
    assert!(app.place_gate("NOISE_PHASE", None));
    let kinds: Vec<&str> = app.dag.nodes.iter().map(|n| n.noise_type.as_str()).collect();
    assert_eq!(kinds, vec!["depolarizing", "amplitude_damping", "phase_damping"]);
    assert_eq!(format_param(&app.dag.nodes[0].params[0]), "0.01");
    assert_eq!(format_param(&app.dag.nodes[2].params[0]), "0.2");
}

#[test]
fn parse_input_replaces_circuit_when_text_changed() {
    let mut app = App::new();
    app.parse_qasm_input();
    assert_eq!(app.dag.num_qubits, 4);
    app.qasm_text = "qreg q[2];\nh q[1];\n".to_string();
    app.parse_qasm_input();
    assert_eq!(app.dag.num_qubits, 2);
    assert_eq!(ids(&app), vec!["H_q1_s0".to_string()]);
    assert_eq!(app.last_qasm, "qreg q[2];\nh q[1];\n");
    assert_eq!(app.circuit().gates.len(), 1);
}

#[test]
fn parameter_input_takes_only_its_characters() {
    let mut app = App::new();
    for ch in "3*pi/4, x-1.5e+2E q".chars() {
        app.handle_char_input(ch);
    }
    assert_eq!(app.param_input, "3*pi/4,-1.5e+2E");
}

#[test]
fn next_available_target_skips_excluded() {
    let app = App::new();
    assert_eq!(app.next_available_target(0, 1, &vec![1]), Some(2));
    assert_eq!(app.next_available_target(0, 1, &vec![1, 2, 3]), None);
    assert_eq!(app.next_available_target(3, 1, &vec![]), None);
    assert_eq!(app.next_available_target(3, -1, &vec![2]), Some(1));
    assert_eq!(app.next_available_target(3, 0, &vec![]), Some(2));
    assert_eq!(app.next_available_target(0, -1, &vec![]), None);
    assert_eq!(app.next_available_target(9, 1, &vec![]), None);
}

fn edit_gate(t: &str) -> Gate {
    Gate {
        step: 0,
        gate_type: t.to_string(),
        target: 1,
        control: None,
        controls: vec![],
        measure_source: None,
        params: vec![],
        is_dagger: false,
        is_reset: false,
        is_noise: false,
        noise_type: String::new(),
        classical_control: None,
    }
}

#[test]
fn edit_options_of_gates() {
    let mut app = App::new();
    assert!(app.get_edit_options().is_empty());
    app.edit_gate = Some(edit_gate("H"));
    let o = app.get_edit_options();
    let labels: Vec<&str> = o.iter().map(|x| x.label.as_str()).collect();
    assert_eq!(labels, vec!["Target: q[1]", "Delete gate"]);
    assert_eq!(o[0].action, EditAction::EditTarget);
    assert_eq!(o[1].action, EditAction::Delete);
    app.edit_gate = Some(edit_gate("RX"));
    let o = app.get_edit_options();
    assert_eq!(o[0].label, "Parameters: none");
    assert_eq!(o[0].action, EditAction::EditParam);
    let mut g = edit_gate("CCX");
    g.params = vec![parse_param_expr("pi/2").unwrap(), parse_param_expr("0.5").unwrap()];
    g.control = Some(0);
    g.controls = vec![2, 3];
    app.edit_gate = Some(g);
    let o = app.get_edit_options();
    let labels: Vec<&str> = o.iter().map(|x| x.label.as_str()).collect();
    assert_eq!(labels, vec!["Parameters: pi/2, 0.5", "Target: q[1]", "Control: q[0]", "Control 1: q[2]", "Control 2: q[3]", "Delete gate"]);
    assert_eq!(o[2].ctrl_idx, None);
    assert_eq!(o[3].ctrl_idx, Some(0));
    assert_eq!(o[4].ctrl_idx, Some(1));
    assert_eq!(o[4].action, EditAction::EditControl);
}

#[test]
fn commit_edit_puts_the_gate_back() {
    let mut app = App::new();
    assert!(app.place_gate("H", None));
    let mut g = edit_gate("H");
    g.target = 0;
    app.edit_gate = Some(g);
    app.edit_orig_step = 0;
    app.edit_gate.as_mut().unwrap().target = 2;
    app.dag.remove_node_at(0, 0);
    app.commit_edit_to_dag();
    assert_eq!(ids(&app), vec!["H_q2_s0".to_string()]);
    assert!(app.qasm_text.ends_with("h q[2];\n"));
    let mut g = edit_gate("CX");
    g.target = 2;
    g.control = Some(3);
    app.edit_gate = Some(g);
    app.commit_edit_to_dag();
    assert_eq!(ids(&app), vec!["CX_q2_s0".to_string()]);
    assert_eq!(app.dag.nodes[0].control, Some(3));
    app.edit_gate = None;
    app.commit_edit_to_dag();
    assert_eq!(ids(&app), vec!["CX_q2_s0".to_string()]);
}

#[test]
fn text_cursor_editing() {
    let mut app = App::new();
    app.qasm_text = "ab\ncde\n\nf".to_string();
    app.qasm_cursor = 4;
    assert_eq!(app.qasm_cursor_row_col(), (1, 1));
    app.qasm_insert_char('X');
    assert_eq!(app.qasm_text, "ab\ncXde\n\nf");
    assert_eq!(app.qasm_cursor, 5);
    app.qasm_backspace();
    assert_eq!(app.qasm_text, "ab\ncde\n\nf");
    assert_eq!(app.qasm_cursor, 4);
    app.qasm_delete_forward();
    assert_eq!(app.qasm_text, "ab\nce\n\nf");
    app.qasm_move_home();
    assert_eq!(app.qasm_cursor, 3);
    app.qasm_move_end();
    assert_eq!(app.qasm_cursor, 5);
    app.qasm_move_up();
    assert_eq!(app.qasm_cursor, 2);
    app.qasm_move_up();
    assert_eq!(app.qasm_cursor, 2);
    app.qasm_move_down();
    assert_eq!(app.qasm_cursor, 5);
    app.qasm_move_down();
    assert_eq!(app.qasm_cursor, 6);
    app.qasm_move_down();
    assert_eq!(app.qasm_cursor, 7);
    app.qasm_move_down();
    assert_eq!(app.qasm_cursor, 7);
    app.qasm_move_right();
    assert_eq!(app.qasm_cursor, 8);
    app.qasm_move_right();
    assert_eq!(app.qasm_cursor, 8);
    app.qasm_delete_forward();
    assert_eq!(app.qasm_text, "ab\nce\n\nf");
    app.qasm_cursor = 0;
    app.qasm_move_left();
    app.qasm_backspace();
    assert_eq!((app.qasm_cursor, app.qasm_text.as_str()), (0, "ab\nce\n\nf"));
    app.qasm_cursor = 1;
    app.qasm_move_left();
    assert_eq!(app.qasm_cursor, 0);
    assert_eq!(app.qasm_cursor_row_col(), (0, 0));
    app.qasm_cursor = 100;
    assert_eq!(app.qasm_cursor_row_col(), (3, 1));
}

#[test]
fn menu_has_six_categories() {
    let menu = gate_menu();
    let names: Vec<&str> = menu.iter().map(|c| c.name).collect();
    assert_eq!(names, vec!["Single Qubit", "Rotation", "Multi Qubit", "Measurement", "Special", "Noise"]);
    let sizes: Vec<usize> = menu.iter().map(|c| c.items.len()).collect();
    assert_eq!(sizes, vec![11, 7, 9, 2, 2, 3]);
    for cat in &menu {
        for item in &cat.items {
            assert_eq!(item.needs_params, is_parameterized_gate(item.gate_type));
            assert_eq!(item.needs_params, item.param_hint.is_some());
        }
    }
    assert_eq!(menu[2].items[4].gate_type, "CCX");
    assert!(menu[2].items[4].needs_target);
    assert_eq!(menu[1].items[6].param_hint.as_ref().unwrap().example, "theta,phi,lambda");
    assert!(!menu[5].items[0].param_hint.as_ref().unwrap().required);
    assert_eq!(menu[0].clone().items.len(), 11);
}

#[test]
fn parameterized_gate_types() {
    for t in ["RX", "RY", "RZ", "P", "U1", "U2", "U3", "CRX", "CRY", "CRZ", "CU1", "NOISE_DEPOL", "NOISE_AMP", "NOISE_PHASE"] {
        assert!(is_parameterized_gate(t));
    }
    for t in ["H", "X", "CX", "rx", "", "NOISE", "CP"] {
        assert!(!is_parameterized_gate(t));
    }
}

#[test]
fn text_primitives() {
    assert_eq!(chars_of("héllo"), chars("héllo"));
    assert_eq!(string_of(&chars("héllo")), "héllo");
    assert_eq!(trim(&chars(" \t a b\u{3000}\r\n")), chars("a b"));
    assert_eq!(trim(&chars("   ")), chars(""));
    assert_eq!(trim(&chars("\u{200B}x")), chars("\u{200B}x"));
    assert!(has_prefix(&chars("qreg q"), "qreg"));
    assert!(!has_prefix(&chars("qre"), "qreg"));
    assert!(has_prefix(&chars("x"), ""));
    assert!(has_suffix(&chars("SDG"), "DG"));
    assert!(!has_suffix(&chars("G"), "DG"));
    assert_eq!(split_at(&chars("a,b,,c"), ','), vec![chars("a"), chars("b"), chars(""), chars("c")]);
    assert_eq!(split_at(&chars(""), ','), vec![chars("")]);
    assert_eq!(split_at(&chars("x\n"), '\n'), vec![chars("x"), chars("")]);
    assert_eq!(parse_index(&chars("0042")), 42);
    assert_eq!(parse_index(&chars("")), 0);
    assert_eq!(parse_index(&chars("12a")), 0);
    assert_eq!(parse_index(&chars("+5")), 0);
    assert_eq!(parse_index(&chars("18446744073709551614")), 18446744073709551614);
    assert_eq!(parse_index(&chars("18446744073709551615")), 0);
    assert_eq!(parse_index(&chars("18446744073709551616")), 0);
    assert!(text_before(&chars("A"), &chars("B")));
    assert!(text_before(&chars("CX"), &chars("CXX")));
    assert!(text_before(&chars(""), &chars("a")));
    assert!(!text_before(&chars("a"), &chars("a")));
    assert!(!text_before(&chars("b"), &chars("a")));
    assert!(text_before(&chars("Z"), &chars("a")));
    assert!(text_before(&chars("z"), &chars("é")));
}

#[test]
fn text_scrolls_to_the_cursor() {
    let mut app = App::new();
    app.qasm_text = "a\nb\nc\nd\ne\nf".to_string();
    app.qasm_cursor = 10;
    app.scroll_to_cursor(3);
    assert_eq!(app.qasm_scroll, 3);
    app.qasm_cursor = 2;
    app.scroll_to_cursor(3);
    assert_eq!(app.qasm_scroll, 1);
    app.qasm_cursor = 4;
    app.scroll_to_cursor(3);
    assert_eq!(app.qasm_scroll, 1);
    app.scroll_to_cursor(0);
    assert_eq!(app.qasm_scroll, 1);
    app.qasm_cursor = 0;
    app.scroll_to_cursor(1);
    assert_eq!(app.qasm_scroll, 0);
}

#[test]
fn a_step_with_a_barrier_takes_no_gate() {
    let mut app = App::new();
    assert!(app.place_gate("BARRIER", None));
    assert_eq!(ids(&app), vec!["BARRIER_q-1_s0".to_string()]);
    app.cursor_step = 0;
    app.cursor_qubit = 2;
    app.pending_gate = "H".to_string();
    assert!(!app.place_gate("H", None));
    assert_eq!(ids(&app), vec!["BARRIER_q-1_s0".to_string()]);
    assert_eq!(app.status_msg, PLACE_REFUSED);
    assert_eq!(app.pending_gate, "");
    app.cursor_step = 1;
    assert!(app.place_gate("H", None));
    assert_eq!(ids(&app), vec!["BARRIER_q-1_s0".to_string(), "H_q2_s1".to_string()]);
}
