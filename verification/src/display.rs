//! Small pieces of how a circuit and a state are shown.

use vstd::prelude::*;
use vstd::string::*;
use crate::circuit::{CellInfo, CellView, GateView};
use crate::text::{chars_of, same_text};

verus! {

/// The sign of a control: a cross for a swap, else a dot.
pub open spec fn control_sign(gate_type: Seq<char>) -> Seq<char> {
    if gate_type == "SWAP"@ {
        "×"@
    } else {
        "●"@
    }
}

/// The sign of a target: a dot for a controlled Z, a cross for a swap, else
/// a circled plus.
pub open spec fn target_sign(gate_type: Seq<char>) -> Seq<char> {
    if gate_type == "CZ"@ {
        "●"@
    } else if gate_type == "SWAP"@ {
        "×"@
    } else {
        "⊕"@
    }
}

/// The name under which a gate is shown: `M` for a measurement, else its
/// type.
pub open spec fn shown_name(gate_type: Seq<char>) -> Seq<char> {
    if gate_type == "MEASURE"@ {
        "M"@
    } else {
        gate_type
    }
}

/// `n` spaces.
pub open spec fn spaces(n: nat) -> Seq<char> {
    Seq::new(n, |i: int| ' ')
}

/// `s` in a field of `width` characters: cut to `width` where it is
/// longer, else with spaces on both sides, the odd one on the right.
pub open spec fn centered(s: Seq<char>, width: nat) -> Seq<char> {
    if s.len() >= width {
        s.take(width as int)
    } else {
        spaces((width - s.len()) as nat / 2) + s + spaces(
            ((width - s.len()) - (width - s.len()) / 2) as nat,
        )
    }
}

/// Whether bit `i` of `state` is set.
pub open spec fn bit_of(state: usize, i: nat) -> bool {
    i < usize::BITS && (state >> (i as usize)) & 1 == 1
}

/// The digits of a basis state of `num_qubits` qubits, the highest qubit
/// first.
pub open spec fn basis_digits(state: usize, num_qubits: nat) -> Seq<char> {
    Seq::new(
        num_qubits,
        |k: int|
            if bit_of(state, (num_qubits - 1 - k) as nat) {
                '1'
            } else {
                '0'
            },
    )
}

/// The sign of a control of a gate of the given type.
pub fn control_symbol(gate_type: &str) -> (r: String)
    ensures
        r@ == control_sign(gate_type@),
{
    if same_text(gate_type, "SWAP") {
        String::from_str("×")
    } else {
        String::from_str("●")
    }
}

/// The sign of the target of a gate of the given type.
pub fn target_symbol(gate_type: &str) -> (r: String)
    ensures
        r@ == target_sign(gate_type@),
{
    if same_text(gate_type, "CZ") {
        String::from_str("●")
    } else if same_text(gate_type, "SWAP") {
        String::from_str("×")
    } else {
        String::from_str("⊕")
    }
}

/// The name under which a gate of the given type is shown.
pub fn gate_display_name(gate_type: &str) -> (r: String)
    ensures
        r@ == shown_name(gate_type@),
{
    if same_text(gate_type, "MEASURE") {
        String::from_str("M")
    } else {
        String::from_str(gate_type)
    }
}

fn push_spaces(s: &mut String, n: usize)
    ensures
        final(s)@ == old(s)@ + spaces(n as nat),
{
    let mut i: usize = 0;
    assert(s@ =~= old(s)@ + spaces(0));
    while i < n
        invariant
            i <= n,
            s@ == old(s)@ + spaces(i as nat),
        decreases n - i,
    {
        s.push(' ');
        assert(s@ =~= old(s)@ + spaces((i + 1) as nat));
        i += 1;
    }
}

/// `s` in a field of `width` characters.
pub fn pad_center(s: &str, width: usize) -> (r: String)
    ensures
        r@ == centered(s@, width as nat),
{
    let v = chars_of(s);
    let mut r = String::new();
    if v.len() >= width {
        let mut i: usize = 0;
        while i < width
            invariant
                i <= width <= v.len(),
                r@ == v@.take(i as int),
            decreases width - i,
        {
            r.push(v[i]);
            assert(v@.take(i as int).push(v@[i as int]) =~= v@.take(i + 1));
            i += 1;
        }
        return r;
    }
    let total = width - v.len();
    let left = total / 2;
    push_spaces(&mut r, left);
    r.append(s);
    push_spaces(&mut r, total - left);
    assert(r@ =~= spaces(left as nat) + s@ + spaces((total - left) as nat));
    r
}

/// A basis state of `num_qubits` qubits as `|` and its digits, the highest
/// qubit first, and `⟩`.
pub fn format_basis_state(state: usize, num_qubits: usize) -> (r: String)
    ensures
        r@ == "|"@ + basis_digits(state, num_qubits as nat) + "⟩"@,
{
    let mut r = String::from_str("|");
    let mut k: usize = 0;
    let ghost head = r@;
    let mut digits: Vec<char> = Vec::new();
    while k < num_qubits
        invariant
            k <= num_qubits,
            digits@.len() == k,
            forall|j: int|
                0 <= j < k ==> digits@[j] == basis_digits(state, num_qubits as nat)[j],
        decreases num_qubits - k,
    {
        let i = num_qubits - 1 - k;
        let set = i < usize::BITS as usize && (state >> i) & 1 == 1;
        digits.push(
            if set {
                '1'
            } else {
                '0'
            },
        );
        k += 1;
    }
    assert(digits@ =~= basis_digits(state, num_qubits as nat));
    let d = crate::text::string_of(&digits);
    r.append(d.as_str());
    r.append("⟩");
    r
}

/// `n` times the character `c`.
pub open spec fn run(c: char, n: nat) -> Seq<char> {
    Seq::new(n, |i: int| c)
}

/// A row of a cell with `mark` in its middle and spaces beside it.
pub open spec fn blank_with(mark: Seq<char>) -> Seq<char> {
    run(' ', 5) + mark + run(' ', 5)
}

/// A row of a cell with `mark` in its middle and wire beside it.
pub open spec fn wire_with(mark: Seq<char>) -> Seq<char> {
    run('─', 5) + mark + run('─', 5)
}

/// The middle row of a cell under the cursor, with `mark` in its middle.
pub open spec fn framed_with(mark: Seq<char>) -> Seq<char> {
    "║"@ + run('─', 4) + mark + run('─', 4) + "║"@
}

/// The top of the box of a gate.
pub open spec fn box_top() -> Seq<char> {
    run(' ', 2) + "┌"@ + run('─', 5) + "┐"@ + run(' ', 2)
}

/// The bottom of the box of a gate.
pub open spec fn box_bottom() -> Seq<char> {
    run(' ', 2) + "└"@ + run('─', 5) + "┘"@ + run(' ', 2)
}

/// The middle of the box of a gate with the given name.
pub open spec fn box_middle(name: Seq<char>) -> Seq<char> {
    run('─', 2) + "┤"@ + centered(name, 5) + "├"@ + run('─', 2)
}

/// The row under a cell: a double line where a measurement above reaches
/// down, else a line where a gate reaches below, else nothing.
pub open spec fn row_below(info: CellView) -> Seq<char> {
    if info.measure_below {
        blank_with("║"@)
    } else if info.vert_below {
        blank_with("│"@)
    } else {
        run(' ', 11)
    }
}

/// The row over a cell: a line where a gate reaches above, else nothing.
pub open spec fn row_above(info: CellView) -> Seq<char> {
    if info.vert_above {
        blank_with("│"@)
    } else {
        run(' ', 11)
    }
}

/// The three rows of a cell under the cursor or under the target that is
/// chosen.
pub open spec fn marked_cell(info: CellView, qubit: usize) -> (Seq<char>, Seq<char>, Seq<char>) {
    if info.is_barrier {
        (blank_with("│"@), framed_with("│"@), blank_with("│"@))
    } else {
        (
            "╔"@ + run('═', 9) + "╗"@,
            match info.gate {
                Some(g) => if info.is_control {
                    framed_with(control_sign(g.gate_type))
                } else if info.is_target {
                    framed_with(target_sign(g.gate_type))
                } else if g.measure_source is Some {
                    framed_with(
                        if g.measure_source == Some(qubit) {
                            "M"@
                        } else {
                            "⊕"@
                        },
                    )
                } else {
                    "║─┤"@ + centered(shown_name(g.gate_type), 5) + "├─║"@
                },
                None => if info.pass_through {
                    framed_with("┼"@)
                } else {
                    "║"@ + run('─', 9) + "║"@
                },
            },
            "╚"@ + run('═', 9) + "╝"@,
        )
    }
}

/// The three rows of a cell that holds a gate and is not marked.
pub open spec fn gate_cell(info: CellView, g: GateView, qubit: usize) -> (
    Seq<char>,
    Seq<char>,
    Seq<char>,
) {
    if info.is_control {
        (row_above(info), wire_with(control_sign(g.gate_type)), row_below(info))
    } else if info.is_target {
        (row_above(info), wire_with(target_sign(g.gate_type)), row_below(info))
    } else if g.measure_source == Some(qubit) {
        (
            box_top(),
            box_middle("M"@),
            if info.measure_below {
                blank_with("║"@)
            } else {
                box_bottom()
            },
        )
    } else if g.measure_source is Some && g.target == qubit {
        (row_above(info), wire_with("⊕"@), row_below(info))
    } else if g.gate_type == "MEASURE"@ {
        (box_top(), box_middle("M"@), box_bottom())
    } else {
        (
            box_top(),
            box_middle(shown_name(g.gate_type)),
            if info.measure_below {
                blank_with("║"@)
            } else {
                box_bottom()
            },
        )
    }
}

/// The three rows of a cell: marked where it is under the cursor or the
/// target that is chosen; else a barrier, a gate, a line that passes
/// through, a measurement that reaches down, or the bare wire.
pub open spec fn cell_rows(info: CellView, is_cursor: bool, is_target_sel: bool, qubit: usize)
    -> (Seq<char>, Seq<char>, Seq<char>) {
    if is_cursor || is_target_sel {
        marked_cell(info, qubit)
    } else if info.is_barrier {
        (blank_with("│"@), wire_with("│"@), blank_with("│"@))
    } else if info.gate is Some {
        gate_cell(info, info.gate->0, qubit)
    } else if info.pass_through {
        (
            blank_with("│"@),
            wire_with("┼"@),
            if info.measure_below {
                blank_with("║"@)
            } else {
                blank_with("│"@)
            },
        )
    } else if info.measure_below {
        (
            if info.vert_above {
                blank_with("│"@)
            } else {
                blank_with("║"@)
            },
            wire_with("╫"@),
            blank_with("║"@),
        )
    } else {
        (
            row_above(info),
            run('─', 11),
            if info.vert_below {
                blank_with("│"@)
            } else {
                run(' ', 11)
            },
        )
    }
}

/// Appends `n` times the character `c` to `s`.
pub fn push_run(s: &mut String, c: char, n: usize)
    ensures
        final(s)@ == old(s)@ + run(c, n as nat),
{
    let mut i: usize = 0;
    assert(s@ =~= old(s)@ + run(c, 0));
    while i < n
        invariant
            i <= n,
            s@ == old(s)@ + run(c, i as nat),
        decreases n - i,
    {
        s.push(c);
        assert(s@ =~= old(s)@ + run(c, (i + 1) as nat));
        i += 1;
    }
}

fn line_of(c: char, n: usize) -> (r: String)
    ensures
        r@ == run(c, n as nat),
{
    let mut s = String::new();
    push_run(&mut s, c, n);
    assert(s@ =~= run(c, n as nat));
    s
}

fn around(left: char, n: usize, mark: &str) -> (r: String)
    ensures
        r@ == run(left, n as nat) + mark@ + run(left, n as nat),
{
    let mut s = String::new();
    push_run(&mut s, left, n);
    s.append(mark);
    push_run(&mut s, left, n);
    assert(s@ =~= run(left, n as nat) + mark@ + run(left, n as nat));
    s
}

fn framed(mark: &str) -> (r: String)
    ensures
        r@ == framed_with(mark@),
{
    let mut s = String::from_str("║");
    push_run(&mut s, '─', 4);
    s.append(mark);
    push_run(&mut s, '─', 4);
    s.append("║");
    s
}

fn edge(left: &str, c: char, n: usize, right: &str) -> (r: String)
    ensures
        r@ == left@ + run(c, n as nat) + right@,
{
    let mut s = String::from_str(left);
    push_run(&mut s, c, n);
    s.append(right);
    s
}

fn box_edge(left: &str, right: &str) -> (r: String)
    ensures
        r@ == run(' ', 2) + left@ + run('─', 5) + right@ + run(' ', 2),
{
    let mut s = String::new();
    push_run(&mut s, ' ', 2);
    s.append(left);
    push_run(&mut s, '─', 5);
    s.append(right);
    push_run(&mut s, ' ', 2);
    assert(s@ =~= run(' ', 2) + left@ + run('─', 5) + right@ + run(' ', 2));
    s
}

fn boxed(name: &str) -> (r: String)
    ensures
        r@ == box_middle(name@),
{
    let mut s = String::new();
    push_run(&mut s, '─', 2);
    s.append("┤");
    let inner = pad_center(name, 5);
    s.append(inner.as_str());
    s.append("├");
    push_run(&mut s, '─', 2);
    assert(s@ =~= box_middle(name@));
    s
}

fn above(info: &CellInfo) -> (r: String)
    ensures
        r@ == row_above(info@),
{
    if info.vert_above {
        around(' ', 5, "│")
    } else {
        line_of(' ', 11)
    }
}

fn below(info: &CellInfo) -> (r: String)
    ensures
        r@ == row_below(info@),
{
    if info.measure_below {
        around(' ', 5, "║")
    } else if info.vert_below {
        around(' ', 5, "│")
    } else {
        line_of(' ', 11)
    }
}

fn box_or_measure(info: &CellInfo) -> (r: String)
    ensures
        r@ == if info.measure_below {
            blank_with("║"@)
        } else {
            box_bottom()
        },
{
    if info.measure_below {
        around(' ', 5, "║")
    } else {
        box_edge("└", "┘")
    }
}

fn render_marked(info: &CellInfo, qubit: usize) -> (r: (String, String, String))
    ensures
        (r.0@, r.1@, r.2@) == marked_cell(info@, qubit),
{
    if info.is_barrier {
        return (around(' ', 5, "│"), framed("│"), around(' ', 5, "│"));
    }
    let top = edge("╔", '═', 9, "╗");
    let bot = edge("╚", '═', 9, "╝");
    let mid = match &info.gate {
        Some(g) => {
            if info.is_control {
                framed(control_symbol(g.gate_type.as_str()).as_str())
            } else if info.is_target {
                framed(target_symbol(g.gate_type.as_str()).as_str())
            } else if g.measure_source.is_some() {
                if g.measure_source == Some(qubit) {
                    framed("M")
                } else {
                    framed("⊕")
                }
            } else {
                let mut s = String::from_str("║─┤");
                let name = pad_center(gate_display_name(g.gate_type.as_str()).as_str(), 5);
                s.append(name.as_str());
                s.append("├─║");
                s
            }
        },
        None => {
            if info.pass_through {
                framed("┼")
            } else {
                edge("║", '─', 9, "║")
            }
        },
    };
    (top, mid, bot)
}

/// The three rows of a cell of the drawing: the row over the wire, the
/// wire, and the row under it.
pub fn render_cell(info: &CellInfo, is_cursor: bool, is_target_sel: bool, qubit: usize) -> (r: (
    String,
    String,
    String,
))
    ensures
        (r.0@, r.1@, r.2@) == cell_rows(info@, is_cursor, is_target_sel, qubit),
{
    if is_cursor || is_target_sel {
        return render_marked(info, qubit);
    }
    if info.is_barrier {
        return (around(' ', 5, "│"), around('─', 5, "│"), around(' ', 5, "│"));
    }
    if let Some(g) = &info.gate {
        let t = g.gate_type.as_str();
        if info.is_control {
            return (above(info), around('─', 5, control_symbol(t).as_str()), below(info));
        }
        if info.is_target {
            return (above(info), around('─', 5, target_symbol(t).as_str()), below(info));
        }
        if g.measure_source == Some(qubit) {
            return (box_edge("┌", "┐"), boxed("M"), box_or_measure(info));
        }
        if g.measure_source.is_some() && g.target == qubit {
            return (above(info), around('─', 5, "⊕"), below(info));
        }
        if same_text(t, "MEASURE") {
            return (box_edge("┌", "┐"), boxed("M"), box_edge("└", "┘"));
        }
        return (
            box_edge("┌", "┐"),
            boxed(gate_display_name(t).as_str()),
            box_or_measure(info),
        );
    }
    if info.pass_through {
        let bot = if info.measure_below {
            around(' ', 5, "║")
        } else {
            around(' ', 5, "│")
        };
        return (around(' ', 5, "│"), around('─', 5, "┼"), bot);
    }
    if info.measure_below {
        let top = if info.vert_above {
            around(' ', 5, "│")
        } else {
            around(' ', 5, "║")
        };
        return (top, around('─', 5, "╫"), around(' ', 5, "║"));
    }
    let bot = if info.vert_below {
        around(' ', 5, "│")
    } else {
        line_of(' ', 11)
    };
    (above(info), line_of('─', 11), bot)
}

} // verus!
