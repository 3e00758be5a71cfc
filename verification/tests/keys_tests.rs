use qcircuit::circuit::Gate;
use qcircuit::editor::{App, Focus};
use qcircuit::keys::{Key, Outcome, BAD_EDIT_PARAM, BAD_PARAM};
use qcircuit::params::format_param;

fn press(app: &mut App, keys: &[Key]) {
    for k in keys {
        assert_eq!(app.handle_key(*k, false), Outcome::Continue);
        assert!(app.is_well_formed());
    }
}

fn typed(text: &str) -> Vec<Key> {
    text.chars().map(Key::Char).collect()
}

fn ids(app: &App) -> Vec<String> {
    app.dag.nodes.iter().map(|n| n.id.clone()).collect()
}

#[test]
fn quitting_and_saving() {
    let mut app = App::new();
    app.status_msg = "old".to_string();
    assert_eq!(app.handle_key(Key::Char('s'), true), Outcome::Save);
    assert_eq!(app.status_msg, "");
    assert_eq!(app.handle_key(Key::Char('s'), false), Outcome::Continue);
    assert_eq!(app.handle_key(Key::Char('q'), false), Outcome::Quit);
    assert_eq!(app.handle_key(Key::Char('c'), true), Outcome::Quit);
    app.focus = Focus::Menu;
    assert_eq!(app.handle_key(Key::Char('q'), false), Outcome::Continue);
    assert_eq!(app.handle_key(Key::Char('c'), true), Outcome::Quit);
}

#[test]
fn cursor_moves_within_the_circuit() {
    let mut app = App::new();
    press(&mut app, &[Key::Up, Key::Left]);
    assert_eq!((app.cursor_qubit, app.cursor_step), (0, 0));
    press(&mut app, &[Key::Down, Key::Char('j'), Key::Down, Key::Down, Key::Right, Key::Char('l')]);
    assert_eq!((app.cursor_qubit, app.cursor_step), (3, 2));
    press(&mut app, &[Key::Char('k'), Key::Char('h')]);
    assert_eq!((app.cursor_qubit, app.cursor_step), (2, 1));
    press(&mut app, &[Key::Char('v')]);
    assert!(app.show_statevector);
    press(&mut app, &[Key::Tab]);
    assert_eq!(app.focus, Focus::Qasm);
}

#[test]
fn qubits_are_added_and_taken() {
    let mut app = App::new();
    press(&mut app, &[Key::Char('+'), Key::Char('=')]);
    assert_eq!(app.dag.num_qubits, 6);
    assert!(app.qasm_text.contains("qreg q[6];"));
    app.cursor_qubit = 5;
    app.dag.add_gate("H", 5, 0, None);
    press(&mut app, &[Key::Char('-')]);
    assert_eq!(app.dag.num_qubits, 5);
    assert_eq!(app.cursor_qubit, 4);
    assert!(ids(&app).is_empty());
    for _ in 0..6 {
        press(&mut app, &[Key::Char('-')]);
    }
    assert_eq!(app.dag.num_qubits, 1);
    assert_eq!(app.cursor_qubit, 0);
}

#[test]
fn a_gate_is_added_from_the_menu() {
    let mut app = App::new();
    press(&mut app, &[Key::Char('a')]);
    assert_eq!(app.focus, Focus::Menu);
    press(&mut app, &[Key::Down, Key::Enter]);
    assert_eq!(app.focus, Focus::Circuit);
    assert_eq!(ids(&app), vec!["X_q0_s0".to_string()]);
    assert_eq!(app.cursor_step, 1);
    assert!(app.qasm_text.ends_with("x q[0];\n"));
}

#[test]
fn menu_moves_stay_within_the_menu() {
    let mut app = App::new();
    press(&mut app, &[Key::Char('a'), Key::Up, Key::Left]);
    assert_eq!((app.menu_cat, app.menu_item), (0, 0));
    for _ in 0..20 {
        press(&mut app, &[Key::Down]);
    }
    assert_eq!(app.menu_item, 10);
    for _ in 0..10 {
        press(&mut app, &[Key::Right]);
    }
    assert_eq!((app.menu_cat, app.menu_item), (5, 0));
    press(&mut app, &[Key::Char('h')]);
    assert_eq!(app.menu_cat, 4);
    press(&mut app, &[Key::Esc]);
    assert_eq!(app.focus, Focus::Circuit);
}

#[test]
fn a_controlled_gate_asks_for_its_target() {
    let mut app = App::new();
    press(&mut app, &[Key::Char('a'), Key::Right, Key::Right, Key::Enter]);
    assert_eq!(app.focus, Focus::SelectTarget);
    assert_eq!(app.pending_gate, "CX");
    assert_eq!(app.target_qubit, 1);
    press(&mut app, &[Key::Up]);
    assert_eq!(app.target_qubit, 1);
    press(&mut app, &[Key::Down, Key::Down, Key::Down]);
    assert_eq!(app.target_qubit, 3);
    press(&mut app, &[Key::Enter]);
    assert_eq!(app.focus, Focus::Circuit);
    assert_eq!(ids(&app), vec!["CX_q3_s0".to_string()]);
    assert_eq!(app.dag.nodes[0].control, Some(0));
    assert_eq!(app.pending_gate, "");
}

#[test]
fn escape_drops_what_is_pending() {
    let mut app = App::new();
    press(&mut app, &[Key::Char('a'), Key::Right, Key::Right, Key::Enter, Key::Esc]);
    assert_eq!(app.focus, Focus::Circuit);
    assert_eq!(app.pending_gate, "");
    assert!(ids(&app).is_empty());
}

#[test]
fn a_toffoli_asks_for_control_and_target() {
    let mut app = App::new();
    press(&mut app, &[Key::Char('a'), Key::Right, Key::Right]);
    press(&mut app, &[Key::Down, Key::Down, Key::Down, Key::Down, Key::Enter]);
    assert_eq!(app.focus, Focus::SelectControls);
    assert_eq!(app.target_qubit, 1);
    press(&mut app, &[Key::Down, Key::Enter]);
    assert_eq!(app.focus, Focus::SelectTarget);
    assert_eq!(app.control_qubits, vec![2]);
    assert_eq!(app.target_qubit, 1);
    press(&mut app, &[Key::Down]);
    assert_eq!(app.target_qubit, 3);
    press(&mut app, &[Key::Enter]);
    let n = &app.dag.nodes[0];
    assert_eq!(n.gate_type, "CCX");
    assert_eq!(n.controls, vec![0, 2]);
    assert_eq!(n.target, Some(3));
    assert_eq!(app.focus, Focus::Circuit);
}

#[test]
fn too_few_qubits_send_back_to_the_circuit() {
    let mut app = App::new();
    for _ in 0..3 {
        press(&mut app, &[Key::Char('-')]);
    }
    press(&mut app, &[Key::Char('a'), Key::Right, Key::Right, Key::Enter]);
    assert_eq!(app.focus, Focus::Circuit);
    assert!(ids(&app).is_empty());
}

#[test]
fn a_rotation_asks_for_its_parameter() {
    let mut app = App::new();
    press(&mut app, &[Key::Char('a'), Key::Right, Key::Enter]);
    assert_eq!(app.focus, Focus::InputParam);
    press(&mut app, &typed("pi/3x"));
    assert_eq!(app.param_input, "pi/3");
    press(&mut app, &[Key::Backspace]);
    press(&mut app, &typed("2"));
    press(&mut app, &[Key::Enter]);
    assert_eq!(app.focus, Focus::Circuit);
    assert_eq!(format_param(&app.dag.nodes[0].params[0]), "pi/2");
    assert_eq!(app.dag.nodes[0].id, "RX_q0_s0");
}

#[test]
fn a_bad_parameter_is_refused_with_a_message() {
    let mut app = App::new();
    press(&mut app, &[Key::Char('a'), Key::Right, Key::Enter]);
    press(&mut app, &typed("pi/0"));
    press(&mut app, &[Key::Enter]);
    assert_eq!(app.focus, Focus::InputParam);
    assert_eq!(app.status_msg, BAD_PARAM);
    assert!(ids(&app).is_empty());
    press(&mut app, &[Key::Esc]);
    assert_eq!(app.focus, Focus::Circuit);
    assert_eq!(app.param_input, "");
    assert_eq!(app.status_msg, "");
}

#[test]
fn a_gate_is_removed_at_the_cursor() {
    let mut app = App::new();
    press(&mut app, &[Key::Char('a'), Key::Enter, Key::Left, Key::Backspace]);
    assert!(ids(&app).is_empty());
    assert!(!app.qasm_text.contains("h q[0]"));
}

#[test]
fn the_text_is_edited_and_read() {
    let mut app = App::new();
    press(&mut app, &[Key::Tab]);
    press(&mut app, &typed("h q[1];"));
    assert_eq!(ids(&app), vec!["H_q1_s0".to_string()]);
    press(&mut app, &[Key::Enter]);
    press(&mut app, &typed("x q[1]"));
    assert_eq!(ids(&app), vec!["H_q1_s0".to_string(), "X_q1_s1".to_string()]);
    press(&mut app, &[Key::Backspace, Key::Backspace, Key::Backspace, Key::Backspace]);
    assert_eq!(ids(&app), vec!["H_q1_s0".to_string()]);
    press(&mut app, &[Key::Home, Key::Delete, Key::Delete]);
    press(&mut app, &[Key::Up, Key::End, Key::Left, Key::Right, Key::Down, Key::Tab]);
    assert_eq!(app.focus, Focus::Circuit);
    assert_eq!(app.dag.num_qubits, 4);
}

fn edited(app: &mut App) {
    press(app, &[Key::Char('a'), Key::Right, Key::Right, Key::Enter, Key::Enter]);
    press(app, &[Key::Left, Key::Char('e')]);
}

#[test]
fn editing_starts_on_a_gate_only() {
    let mut app = App::new();
    press(&mut app, &[Key::Char('e')]);
    assert_eq!(app.focus, Focus::Circuit);
    edited(&mut app);
    assert_eq!(app.focus, Focus::EditGate);
    let g: &Gate = app.edit_gate.as_ref().unwrap();
    assert_eq!((g.gate_type.as_str(), g.control, g.target), ("CX", Some(0), 1));
    assert_eq!(app.edit_orig_step, 0);
    press(&mut app, &[Key::Esc]);
    assert_eq!(app.focus, Focus::Circuit);
    assert!(app.edit_gate.is_none());
    app.focus = Focus::EditGate;
    press(&mut app, &[Key::Down]);
    assert_eq!(app.focus, Focus::Circuit);
}

#[test]
fn the_target_of_a_gate_is_edited() {
    let mut app = App::new();
    edited(&mut app);
    press(&mut app, &[Key::Up, Key::Enter]);
    assert_eq!(app.focus, Focus::EditTarget);
    assert_eq!(app.target_qubit, 1);
    press(&mut app, &[Key::Down, Key::Enter]);
    assert_eq!(app.focus, Focus::EditGate);
    assert_eq!(ids(&app), vec!["CX_q2_s0".to_string()]);
    assert_eq!(app.edit_gate.as_ref().unwrap().target, 2);
    assert!(app.qasm_text.ends_with("cx q[0], q[2];\n"));
}

#[test]
fn the_control_of_a_gate_is_edited() {
    let mut app = App::new();
    edited(&mut app);
    press(&mut app, &[Key::Down, Key::Enter]);
    assert_eq!(app.focus, Focus::EditControl);
    assert_eq!(app.edit_control_idx, None);
    assert_eq!(app.target_qubit, 0);
    press(&mut app, &[Key::Down]);
    assert_eq!(app.target_qubit, 2);
    press(&mut app, &[Key::Enter]);
    assert_eq!(app.dag.nodes[0].control, Some(2));
    assert_eq!(ids(&app), vec!["CX_q1_s0".to_string()]);
    press(&mut app, &[Key::Down, Key::Down, Key::Down, Key::Enter]);
    assert_eq!(app.focus, Focus::Circuit);
    assert!(ids(&app).is_empty());
}

#[test]
fn the_parameter_of_a_gate_is_edited() {
    let mut app = App::new();
    press(&mut app, &[Key::Char('a'), Key::Right, Key::Enter]);
    press(&mut app, &typed("pi"));
    press(&mut app, &[Key::Enter, Key::Left, Key::Char('e'), Key::Enter]);
    assert_eq!(app.focus, Focus::EditParam);
    press(&mut app, &typed("p"));
    press(&mut app, &[Key::Enter]);
    assert_eq!(app.status_msg, BAD_EDIT_PARAM);
    assert_eq!(app.focus, Focus::EditParam);
    press(&mut app, &[Key::Backspace]);
    press(&mut app, &typed("0.5"));
    press(&mut app, &[Key::Enter]);
    assert_eq!(app.focus, Focus::EditGate);
    assert_eq!(format_param(&app.dag.nodes[0].params[0]), "0.5");
    assert!(app.qasm_text.ends_with("rx(0.5) q[0];\n"));
    press(&mut app, &[Key::Enter, Key::Esc]);
    assert_eq!(app.focus, Focus::EditGate);
    assert_eq!(app.param_input, "");
}
