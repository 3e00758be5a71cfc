use qcircuit::circuit::{CellInfo, Gate};
use qcircuit::display::render_cell;
use qcircuit::drawing::{build_circuit_lines, overlay_size, panel_sizes};
use qcircuit::editor::{App, Focus};

fn gate(t: &str, target: usize) -> Gate {
    Gate {
        step: 0,
        gate_type: t.to_string(),
        target,
        control: None,
        controls: vec![],
        measure_source: None,
        params: vec![],
        is_dagger: false,
        is_reset: false,
        is_noise: false,
        noise_type: String::new(),
        classical_control: None,
    }
}

fn cell(gate: Option<Gate>) -> CellInfo {
    CellInfo {
        gate,
        is_control: false,
        is_target: false,
        vert_above: false,
        vert_below: false,
        pass_through: false,
        measure_below: false,
        is_barrier: false,
    }
}

fn rows(r: (String, String, String)) -> [String; 3] {
    [r.0, r.1, r.2]
}

#[test]
fn empty_cell_is_bare_wire() {
    let r = rows(render_cell(&cell(None), false, false, 0));
    assert_eq!(r, ["           ", "───────────", "           "]);
}

#[test]
fn gate_is_drawn_in_a_box() {
    let r = rows(render_cell(&cell(Some(gate("H", 0))), false, false, 0));
    assert_eq!(r, ["  ┌─────┐  ", "──┤  H  ├──", "  └─────┘  "]);
    let r = rows(render_cell(&cell(Some(gate("MEASURE", 0))), false, false, 0));
    assert_eq!(r, ["  ┌─────┐  ", "──┤  M  ├──", "  └─────┘  "]);
    let mut c = cell(Some(gate("RX", 0)));
    c.measure_below = true;
    let r = rows(render_cell(&c, false, false, 0));
    assert_eq!(r, ["  ┌─────┐  ", "──┤ RX  ├──", "     ║     "]);
}

#[test]
fn control_and_target_are_joined_by_a_line() {
    let mut g = gate("CX", 2);
    g.control = Some(0);
    let mut c = cell(Some(g.clone()));
    c.is_control = true;
    c.vert_below = true;
    let r = rows(render_cell(&c, false, false, 0));
    assert_eq!(r, ["           ", "─────●─────", "     │     "]);
    let mut t = cell(Some(g.clone()));
    t.is_target = true;
    t.vert_above = true;
    let r = rows(render_cell(&t, false, false, 2));
    assert_eq!(r, ["     │     ", "─────⊕─────", "           "]);
    let mut m = cell(None);
    m.pass_through = true;
    m.vert_above = true;
    m.vert_below = true;
    let r = rows(render_cell(&m, false, false, 1));
    assert_eq!(r, ["     │     ", "─────┼─────", "     │     "]);
    g.gate_type = "SWAP".to_string();
    let mut sw = cell(Some(g));
    sw.is_control = true;
    assert_eq!(rows(render_cell(&sw, false, false, 0))[1], "─────×─────");
}

#[test]
fn barrier_and_measurement_lines() {
    let mut b = cell(Some(gate("BARRIER", 0)));
    b.is_barrier = true;
    let r = rows(render_cell(&b, false, false, 1));
    assert_eq!(r, ["     │     ", "─────│─────", "     │     "]);
    let r = rows(render_cell(&b, true, false, 1));
    assert_eq!(r, ["     │     ", "║────│────║", "     │     "]);
    let mut m = cell(None);
    m.measure_below = true;
    let r = rows(render_cell(&m, false, false, 1));
    assert_eq!(r, ["     ║     ", "─────╫─────", "     ║     "]);
    let mut x = gate("MCX", 2);
    x.measure_source = Some(0);
    let r = rows(render_cell(&cell(Some(x.clone())), false, false, 0));
    assert_eq!(r, ["  ┌─────┐  ", "──┤  M  ├──", "  └─────┘  "]);
    let r = rows(render_cell(&cell(Some(x)), false, false, 2));
    assert_eq!(r, ["           ", "─────⊕─────", "           "]);
}

#[test]
fn cell_under_the_cursor_is_framed() {
    let r = rows(render_cell(&cell(None), true, false, 0));
    assert_eq!(r, ["╔═════════╗", "║─────────║", "╚═════════╝"]);
    let r = rows(render_cell(&cell(Some(gate("H", 0))), false, true, 0));
    assert_eq!(r, ["╔═════════╗", "║─┤  H  ├─║", "╚═════════╝"]);
    let mut g = gate("CZ", 1);
    g.control = Some(0);
    let mut c = cell(Some(g));
    c.is_target = true;
    assert_eq!(rows(render_cell(&c, true, false, 1))[1], "║────●────║");
}

#[test]
fn drawing_of_a_small_circuit() {
    let mut app = App::new();
    app.dag.shrink_qubit();
    app.dag.shrink_qubit();
    app.dag.add_gate("H", 0, 0, None);
    app.dag.add_gate("MEASURE", 0, 1, None);
    app.focus = Focus::Qasm;
    app.cursor_step = 1;
    app.status_msg = "note".to_string();
    let lines = build_circuit_lines(&app, &app.circuit(), 31);
    let expected = vec![
        "            0          1     ",
        "         ┌─────┐    ┌─────┐  ",
        "q[0] ────┤  H  ├────┤  M  ├──",
        "         └─────┘    └─────┘  ",
        "                       ║     ",
        "q[1] ──────────────────╫─────",
        "                       ║     ",
        "                       ║     ",
        "c1   ══════════════════╩0════",
        "  Position: Step 1, Qubit 0  │  note",
    ];
    assert_eq!(lines, expected);
}

#[test]
fn drawing_follows_the_cursor() {
    let mut app = App::new();
    app.cursor_step = 7;
    let lines = build_circuit_lines(&app, &app.circuit(), 10);
    assert_eq!(lines.len(), 1 + 3 * 4 + 1);
    assert_eq!(lines[0], "            7     ");
    assert_eq!(lines[2], "q[0] ──║─────────║");
    assert_eq!(lines[13], "  Position: Step 7, Qubit 0");
    app.focus = Focus::SelectTarget;
    app.pending_gate = "CX".to_string();
    app.target_qubit = 2;
    let lines = build_circuit_lines(&app, &app.circuit(), 10);
    assert_eq!(lines[13], "  CX Select target: q[2]  ↑↓ Move  Enter Confirm  Esc Cancel");
    assert_eq!(lines[8], "q[2] ──║─────────║");
}

#[test]
fn panel_sizes_of_screens() {
    let s = panel_sizes(120, 40);
    assert_eq!((s.qasm_width, s.left_width), (40, 80));
    assert_eq!((s.upper_height, s.state_height, s.circuit_height), (37, 13, 24));
    let s = panel_sizes(80, 24);
    assert_eq!((s.qasm_width, s.left_width), (30, 50));
    assert_eq!((s.upper_height, s.state_height, s.circuit_height), (21, 13, 8));
    let s = panel_sizes(40, 12);
    assert_eq!((s.qasm_width, s.left_width), (20, 20));
    assert_eq!((s.upper_height, s.state_height, s.circuit_height), (9, 4, 5));
    let s = panel_sizes(20, 2);
    assert_eq!((s.qasm_width, s.left_width), (0, 20));
    assert_eq!((s.upper_height, s.state_height, s.circuit_height), (0, 0, 1));
    assert_eq!(overlay_size(80, 24, 75, 20), (75, 20));
    assert_eq!(overlay_size(40, 10, 75, 20), (36, 6));
    assert_eq!(overlay_size(3, 3, 75, 20), (0, 0));
}
