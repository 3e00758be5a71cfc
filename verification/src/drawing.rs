//! The drawing of a circuit as lines of text: a row of step numbers, three
//! rows for each qubit, the classical wire, and a line on where the cursor
//! is.

use vstd::prelude::*;
use vstd::string::*;
use crate::circuit::{cbits_of, measures_in, first_gate, Circuit, CircuitView};
use crate::display::{cell_rows, centered, pad_center, push_run, render_cell, run};
use crate::editor::{App, AppView, Focus};
use crate::text::{dec_int, dec_nat, push_int, push_nat, texts_of};

verus! {

/// The number of steps that a drawing of the given width shows: one for
/// every 11 characters behind the first 9, and one at least.
pub open spec fn columns(width: usize) -> nat {
    if width >= 20 {
        ((width - 9) / 11) as nat
    } else {
        1
    }
}

/// The first step that the drawing shows: 0, or so much later that the
/// cursor's step is the last one shown.
pub open spec fn first_shown(cursor_step: int, columns: nat) -> nat {
    if cursor_step >= columns {
        (cursor_step - columns + 1) as nat
    } else {
        0
    }
}

/// `s` with spaces behind it up to `width` characters.
pub open spec fn left_aligned(s: Seq<char>, width: nat) -> Seq<char> {
    if s.len() >= width {
        s
    } else {
        s + run(' ', (width - s.len()) as nat)
    }
}

/// The row of step numbers, for `n` steps from `start` on.
pub open spec fn header_row(start: nat, n: nat) -> Seq<char>
    decreases n,
{
    if n == 0 {
        run(' ', 7)
    } else {
        header_row(start, (n - 1) as nat) + centered(dec_nat((start + n - 1) as nat), 11)
    }
}

/// Whether the keys act on the circuit or on a choice made on it, so that
/// the cursor is drawn.
pub open spec fn shows_cursor(focus: Focus) -> bool {
    focus == Focus::Circuit || focus == Focus::SelectTarget || focus == Focus::Menu || focus
        == Focus::SelectControls
}

/// The three rows of a qubit, for `n` steps from `start` on.
pub open spec fn qubit_rows(a: AppView, c: CircuitView, qubit: usize, start: nat, n: nat) -> (
    Seq<char>,
    Seq<char>,
    Seq<char>,
)
    decreases n,
{
    if n == 0 {
        (
            run(' ', 7),
            left_aligned("q["@ + dec_nat(qubit as nat) + "]"@, 5) + "──"@,
            run(' ', 7),
        )
    } else {
        let before = qubit_rows(a, c, qubit, start, (n - 1) as nat);
        let step = start + n - 1;
        let cell = cell_rows(
            c.cell(step, qubit),
            step == a.cursor_step && qubit == a.cursor_qubit && shows_cursor(a.focus),
            step == a.cursor_step && qubit == a.target_qubit && a.focus == Focus::SelectTarget,
            qubit,
        );
        (before.0 + cell.0, before.1 + cell.1, before.2 + cell.2)
    }
}

/// The rows of the qubits below `n`, three for each.
pub open spec fn all_qubit_rows(a: AppView, c: CircuitView, n: nat, start: nat, cols: nat) -> Seq<
    Seq<char>,
>
    decreases n,
{
    if n == 0 {
        Seq::empty()
    } else {
        let rows = qubit_rows(a, c, (n - 1) as usize, start, cols);
        all_qubit_rows(a, c, (n - 1) as nat, start, cols).push(rows.0).push(rows.1).push(rows.2)
    }
}

/// The qubit measured at `step`, where one is.
pub open spec fn measured_at(c: CircuitView, step: int) -> Option<usize> {
    match first_gate(c.gates, measures_in(step)) {
        Some(i) => c.gates[i].measured(),
        None => None,
    }
}

/// The row between the qubits and the classical wire, for `n` steps from
/// `start` on: a double line under every step with a measurement.
pub open spec fn measure_row(c: CircuitView, start: nat, n: nat) -> Seq<char>
    decreases n,
{
    if n == 0 {
        run(' ', 7)
    } else {
        measure_row(c, start, (n - 1) as nat) + if measured_at(c, start + n - 1) is Some {
            run(' ', 5) + "║"@ + run(' ', 5)
        } else {
            run(' ', 11)
        }
    }
}

/// What is left of a cell behind 6 characters and a number.
pub open spec fn rest_of_cell(number: Seq<char>) -> nat {
    if 6 + number.len() <= 11 {
        (11 - 6 - number.len()) as nat
    } else {
        0
    }
}

/// The classical wire, for `n` steps from `start` on: under every step
/// with a measurement the wire takes the line from above and names the bit.
pub open spec fn cbit_row(c: CircuitView, start: nat, n: nat) -> Seq<char>
    decreases n,
{
    if n == 0 {
        left_aligned("c"@ + dec_nat(cbits_of(c.gates)), 5) + "══"@
    } else {
        cbit_row(c, start, (n - 1) as nat) + match measured_at(c, start + n - 1) {
            Some(q) => run('═', 5) + "╩"@ + dec_nat(q as nat) + run(
                '═',
                rest_of_cell(dec_nat(q as nat)),
            ),
            None => run('═', 11),
        }
    }
}

/// The line on where the cursor is, or on the target that is chosen.
pub open spec fn status_row(a: AppView) -> Seq<char> {
    if a.focus == Focus::SelectTarget {
        "  "@ + a.pending_gate + " Select target: q["@ + dec_nat(a.target_qubit as nat)
            + "]  ↑↓ Move  Enter Confirm  Esc Cancel"@
    } else {
        "  Position: Step "@ + dec_int(a.cursor_step) + ", Qubit "@ + dec_nat(a.cursor_qubit as nat)
            + if a.status_msg.len() > 0 {
            "  │  "@ + a.status_msg
        } else {
            Seq::empty()
        }
    }
}

/// The drawing of the circuit of a session in `width` characters.
pub open spec fn circuit_lines(a: AppView, c: CircuitView, width: usize) -> Seq<Seq<char>> {
    let cols = columns(width);
    let start = first_shown(a.cursor_step, cols);
    seq![header_row(start, cols)] + all_qubit_rows(a, c, c.num_qubits, start, cols) + (if cbits_of(
        c.gates,
    ) > 0 {
        seq![measure_row(c, start, cols), cbit_row(c, start, cols)]
    } else {
        Seq::empty()
    }) + seq![status_row(a)]
}

/// `s` with spaces behind it up to `width` characters.
fn left_align(s: String, width: usize) -> (r: String)
    ensures
        r@ == left_aligned(s@, width as nat),
{
    let n = s.as_str().unicode_len();
    let mut r = s;
    if n < width {
        push_run(&mut r, ' ', width - n);
    }
    r
}

/// The three rows of a qubit in the drawing.
fn build_qubit_rows(app: &App, circuit: &Circuit, qubit: usize, start: usize, cols: usize) -> (r: (
    String,
    String,
    String,
))
    requires
        start + cols <= isize::MAX + 1,
    ensures
        (r.0@, r.1@, r.2@) == qubit_rows(app@, circuit@, qubit, start as nat, cols as nat),
{
    let mut top = String::new();
    push_run(&mut top, ' ', 7);
    let mut label = String::from_str("q[");
    push_nat(&mut label, qubit);
    label.append("]");
    let mut mid = left_align(label, 5);
    mid.append("──");
    let mut bot = String::new();
    push_run(&mut bot, ' ', 7);
    assert(top@ =~= run(' ', 7));
    assert(bot@ =~= run(' ', 7));
    let shown = match app.focus {
        Focus::Circuit => true,
        Focus::SelectTarget => true,
        Focus::Menu => true,
        Focus::SelectControls => true,
        _ => false,
    };
    let choosing = match app.focus {
        Focus::SelectTarget => true,
        _ => false,
    };
    let mut k: usize = 0;
    while k < cols
        invariant
            k <= cols,
            start + cols <= isize::MAX + 1,
            shown == shows_cursor(app@.focus),
            choosing == (app@.focus == Focus::SelectTarget),
            (top@, mid@, bot@) == qubit_rows(app@, circuit@, qubit, start as nat, k as nat),
        decreases cols - k,
    {
        let step: isize = (start + k) as isize;
        let info = circuit.get_cell_info(step, qubit);
        let here = step == app.cursor_step;
        let cell = render_cell(
            &info,
            here && qubit == app.cursor_qubit && shown,
            here && qubit == app.target_qubit && choosing,
            qubit,
        );
        top.append(cell.0.as_str());
        mid.append(cell.1.as_str());
        bot.append(cell.2.as_str());
        k += 1;
    }
    (top, mid, bot)
}

/// The drawing of the circuit in `width` characters: the row of step
/// numbers, three rows for each qubit, the classical wire where a qubit is
/// measured, and the line on where the cursor is.
pub fn build_circuit_lines(app: &App, circuit: &Circuit, width: usize) -> (r: Vec<String>)
    requires
        circuit@.fits(),
    ensures
        texts_of(r@) == circuit_lines(app@, circuit@, width),
{
    let cols: usize = if width >= 20 {
        (width - 9) / 11
    } else {
        1
    };
    let start: usize = if app.cursor_step >= 0 && app.cursor_step as usize >= cols {
        app.cursor_step as usize - cols + 1
    } else {
        0
    };
    assert(start == first_shown(app@.cursor_step, cols as nat));
    assert(start + cols <= isize::MAX + 1);
    let mut lines: Vec<String> = Vec::new();
    let mut header = String::new();
    push_run(&mut header, ' ', 7);
    assert(header@ =~= run(' ', 7));
    let mut k: usize = 0;
    while k < cols
        invariant
            k <= cols,
            start + cols <= isize::MAX + 1,
            header@ == header_row(start as nat, k as nat),
        decreases cols - k,
    {
        let mut number = String::new();
        push_nat(&mut number, start + k);
        assert(number@ =~= dec_nat((start + k) as nat));
        let cell = pad_center(number.as_str(), 11);
        header.append(cell.as_str());
        k += 1;
    }
    let ghost head = header@;
    lines.push(header);
    assert(texts_of(lines@) =~= seq![head]);
    let mut q: usize = 0;
    while q < circuit.num_qubits
        invariant
            q <= circuit.num_qubits,
            start + cols <= isize::MAX + 1,
            texts_of(lines@) == seq![head] + all_qubit_rows(
                app@,
                circuit@,
                q as nat,
                start as nat,
                cols as nat,
            ),
        decreases circuit.num_qubits - q,
    {
        let rows = build_qubit_rows(app, circuit, q, start, cols);
        let ghost l0 = texts_of(lines@);
        let ghost first = rows.0@;
        let ghost second = rows.1@;
        let ghost third = rows.2@;
        lines.push(rows.0);
        lines.push(rows.1);
        lines.push(rows.2);
        assert(texts_of(lines@) =~= l0.push(first).push(second).push(third));
        assert(texts_of(lines@) =~= seq![head] + all_qubit_rows(
            app@,
            circuit@,
            (q + 1) as nat,
            start as nat,
            cols as nat,
        ));
        q += 1;
    }
    let ghost body = texts_of(lines@);
    let num_cbits = circuit.num_cbits();
    if num_cbits > 0 {
        let mut sep = String::new();
        push_run(&mut sep, ' ', 7);
        assert(sep@ =~= run(' ', 7));
        let mut label = String::from_str("c");
        push_nat(&mut label, num_cbits);
        let mut wire = left_align(label, 5);
        wire.append("══");
        let mut k: usize = 0;
        while k < cols
            invariant
                k <= cols,
                start + cols <= isize::MAX + 1,
                sep@ == measure_row(circuit@, start as nat, k as nat),
                wire@ == cbit_row(circuit@, start as nat, k as nat),
            decreases cols - k,
        {
            let step: isize = (start + k) as isize;
            match circuit.get_measure_at_step(step) {
                Some(measured) => {
                    let ghost s0 = sep@;
                    push_run(&mut sep, ' ', 5);
                    sep.append("║");
                    push_run(&mut sep, ' ', 5);
                    assert(sep@ =~= s0 + (run(' ', 5) + "║"@ + run(' ', 5)));
                    let mut number = String::new();
                    push_nat(&mut number, measured);
                    assert(number@ =~= dec_nat(measured as nat));
                    let n = number.as_str().unicode_len();
                    let rest: usize = if n <= 5 {
                        5 - n
                    } else {
                        0
                    };
                    let ghost w0 = wire@;
                    push_run(&mut wire, '═', 5);
                    wire.append("╩");
                    wire.append(number.as_str());
                    push_run(&mut wire, '═', rest);
                    assert(wire@ =~= w0 + (run('═', 5) + "╩"@ + dec_nat(measured as nat) + run(
                        '═',
                        rest_of_cell(dec_nat(measured as nat)),
                    )));
                },
                None => {
                    push_run(&mut sep, ' ', 11);
                    push_run(&mut wire, '═', 11);
                },
            }
            k += 1;
        }
        let ghost a = sep@;
        let ghost b = wire@;
        lines.push(sep);
        lines.push(wire);
        assert(texts_of(lines@) =~= body + seq![a, b]);
    } else {
        assert(texts_of(lines@) =~= body + Seq::<Seq<char>>::empty());
    }
    let ghost upper = texts_of(lines@);
    let mut status = String::new();
    match app.focus {
        Focus::SelectTarget => {
            status.append("  ");
            status.append(app.pending_gate.as_str());
            status.append(" Select target: q[");
            push_nat(&mut status, app.target_qubit);
            status.append("]  ↑↓ Move  Enter Confirm  Esc Cancel");
            assert(status@ =~= status_row(app@));
        },
        _ => {
            status.append("  Position: Step ");
            push_int(&mut status, app.cursor_step);
            status.append(", Qubit ");
            push_nat(&mut status, app.cursor_qubit);
            if !app.status_msg.as_str().is_empty() {
                status.append("  │  ");
                status.append(app.status_msg.as_str());
            }
            assert(status@ =~= status_row(app@));
        },
    }
    let ghost last = status@;
    lines.push(status);
    assert(texts_of(lines@) =~= upper + seq![last]);
    lines
}

/// The sizes of the panels on a screen: the width of the text panel and of
/// the panels left of it, and the heights of the circuit panel, of the
/// state panel below it, and of what is left above the line of help.
#[derive(Clone, Copy, PartialEq, Eq, Debug, Structural)]
pub struct PanelSizes {
    pub qasm_width: u16,
    pub left_width: u16,
    pub circuit_height: u16,
    pub state_height: u16,
    pub upper_height: u16,
}

/// The smaller of two numbers.
pub open spec fn least(a: int, b: int) -> int {
    if a <= b {
        a
    } else {
        b
    }
}

/// The larger of two numbers.
pub open spec fn most(a: int, b: int) -> int {
    if a >= b {
        a
    } else {
        b
    }
}

/// `a - b`, or 0 where `b` is larger.
pub open spec fn minus(a: int, b: int) -> int {
    if a >= b {
        a - b
    } else {
        0
    }
}

/// The sizes of the panels on a screen at least 20 characters wide. The
/// text panel takes a third of the width, 30 characters at least, and
/// leaves 20 for the rest; the line of help takes 3 rows; the state panel
/// takes 13 rows, or a third of a low screen, 4 at least, and leaves 3 for
/// the circuit.
pub open spec fn sizes_for(width: u16, height: u16) -> PanelSizes {
    let upper = minus(height as int, 3);
    let qasm = least(most(width as int / 3, 30), width as int - 20);
    let state = least(
        most(
            if upper < 20 {
                upper / 3
            } else {
                13
            },
            4,
        ),
        minus(upper, 3),
    );
    PanelSizes {
        qasm_width: qasm as u16,
        left_width: minus(width as int, qasm) as u16,
        circuit_height: most(minus(upper, state), 1) as u16,
        state_height: state as u16,
        upper_height: upper as u16,
    }
}

/// The sizes of the panels on a screen.
pub fn panel_sizes(width: u16, height: u16) -> (r: PanelSizes)
    requires
        width >= 20,
    ensures
        r == sizes_for(width, height),
{
    let upper: u16 = if height >= 3 {
        height - 3
    } else {
        0
    };
    let third: u16 = width / 3;
    let wide: u16 = if third >= 30 {
        third
    } else {
        30
    };
    let qasm: u16 = if wide <= width - 20 {
        wide
    } else {
        width - 20
    };
    let left: u16 = if width >= qasm {
        width - qasm
    } else {
        0
    };
    let wanted: u16 = if upper < 20 {
        upper / 3
    } else {
        13
    };
    let tall: u16 = if wanted >= 4 {
        wanted
    } else {
        4
    };
    let room: u16 = if upper >= 3 {
        upper - 3
    } else {
        0
    };
    let state: u16 = if tall <= room {
        tall
    } else {
        room
    };
    let rest: u16 = if upper >= state {
        upper - state
    } else {
        0
    };
    PanelSizes {
        qasm_width: qasm,
        left_width: left,
        circuit_height: if rest >= 1 {
            rest
        } else {
            1
        },
        state_height: state,
        upper_height: upper,
    }
}

/// The size of a window over the screen: what is wanted, but not more than
/// the screen without 4 characters and 4 rows.
pub fn overlay_size(width: u16, height: u16, wanted_width: u16, wanted_height: u16) -> (r: (
    u16,
    u16,
))
    ensures
        r.0 == least(wanted_width as int, minus(width as int, 4)),
        r.1 == least(wanted_height as int, minus(height as int, 4)),
{
    let w: u16 = if width >= 4 {
        width - 4
    } else {
        0
    };
    let h: u16 = if height >= 4 {
        height - 4
    } else {
        0
    };
    (
        if wanted_width <= w {
            wanted_width
        } else {
            w
        },
        if wanted_height <= h {
            wanted_height
        } else {
            h
        },
    )
}

} // verus!
