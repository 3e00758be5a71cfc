//! The state of an editing session around a circuit: a cursor on the
//! circuit, the text of the circuit, and what is pending while a gate is
//! chosen and placed.

use vstd::prelude::*;
use vstd::string::*;
use crate::circuit::{Circuit, Gate, GateView};
use crate::dag::{first_at, CircuitDAG, DagView};
use crate::gates::all_below_max;
use crate::menu::{is_parameterized_gate, takes_params};
use crate::node::has_index;
use crate::params::{
    clone_params, param_text, params_of, params_of_pieces, parse_params, push_param, ParamExpr,
    ParamView,
};
use crate::text::{chars_of, dec_nat, push_nat, same_text, split, string_of};

verus! {

/// What the keys act on.
#[derive(Clone, Copy, PartialEq, Eq, Debug, Structural)]
pub enum Focus {
    Circuit,
    Qasm,
    Menu,
    SelectTarget,
    InputParam,
    SelectControls,
    EditGate,
    EditParam,
    EditTarget,
    EditControl,
}

/// What can be done to a gate under edit.
#[derive(Clone, Copy, PartialEq, Eq, Debug, Structural)]
pub enum EditAction {
    EditParam,
    EditTarget,
    EditControl,
    Delete,
}

/// One entry of the list of what can be done to a gate under edit.
/// `ctrl_idx` is the place among its controls, where the entry is
/// about one of them.
#[derive(Debug)]
pub struct EditOption {
    pub label: String,
    pub action: EditAction,
    pub ctrl_idx: Option<usize>,
}

/// An editing session.
#[derive(Debug)]
pub struct App {
    pub dag: CircuitDAG,
    pub cursor_qubit: usize,
    pub cursor_step: isize,
    pub width: u16,
    pub height: u16,
    pub focus: Focus,
    pub status_msg: String,
    /// The text of the circuit as it is edited.
    pub qasm_text: String,
    /// The text that the circuit was last written as or read from.
    pub last_qasm: String,
    /// The cursor in the text, counted in characters.
    pub qasm_cursor: usize,
    pub qasm_scroll: u16,
    pub menu_cat: usize,
    pub menu_item: usize,
    pub pending_gate: String,
    pub target_qubit: usize,
    pub param_input: String,
    pub control_qubits: Vec<usize>,
    pub edit_gate: Option<Gate>,
    pub edit_menu_idx: usize,
    pub edit_orig_step: isize,
    pub edit_control_idx: Option<usize>,
    pub show_statevector: bool,
}

/// The mathematical content of an [`App`].
pub ghost struct AppView {
    pub dag: DagView,
    pub cursor_qubit: usize,
    pub cursor_step: int,
    pub width: u16,
    pub height: u16,
    pub focus: Focus,
    pub status_msg: Seq<char>,
    pub qasm_text: Seq<char>,
    pub last_qasm: Seq<char>,
    pub qasm_cursor: usize,
    pub qasm_scroll: u16,
    pub menu_cat: usize,
    pub menu_item: usize,
    pub pending_gate: Seq<char>,
    pub target_qubit: usize,
    pub param_input: Seq<char>,
    pub control_qubits: Seq<usize>,
    pub edit_gate: Option<GateView>,
    pub edit_menu_idx: usize,
    pub edit_orig_step: int,
    pub edit_control_idx: Option<usize>,
    pub show_statevector: bool,
}

impl View for App {
    type V = AppView;

    open spec fn view(&self) -> AppView {
        AppView {
            dag: self.dag@,
            cursor_qubit: self.cursor_qubit,
            cursor_step: self.cursor_step as int,
            width: self.width,
            height: self.height,
            focus: self.focus,
            status_msg: self.status_msg@,
            qasm_text: self.qasm_text@,
            last_qasm: self.last_qasm@,
            qasm_cursor: self.qasm_cursor,
            qasm_scroll: self.qasm_scroll,
            menu_cat: self.menu_cat,
            menu_item: self.menu_item,
            pending_gate: self.pending_gate@,
            target_qubit: self.target_qubit,
            param_input: self.param_input@,
            control_qubits: self.control_qubits@,
            edit_gate: match self.edit_gate {
                Some(g) => Some(g@),
                None => None,
            },
            edit_menu_idx: self.edit_menu_idx,
            edit_orig_step: self.edit_orig_step as int,
            edit_control_idx: self.edit_control_idx,
            show_statevector: self.show_statevector,
        }
    }
}

/// What is said where a gate cannot be placed.
pub const PLACE_REFUSED: &'static str =
    "Cannot place: qubit already used by another gate at this step";

/// Whether a gate of the type joins a control and a target.
pub open spec fn is_two_qubit_type(t: Seq<char>) -> bool {
    ||| t == "CX"@
    ||| t == "CZ"@
    ||| t == "SWAP"@
    ||| t == "CH"@
    ||| t == "CRX"@
    ||| t == "CRY"@
    ||| t == "CRZ"@
    ||| t == "CU1"@
}

/// Whether a gate of the type needs a second qubit beside the cursor's.
pub open spec fn needs_second(t: Seq<char>) -> bool {
    is_two_qubit_type(t) || t == "CCX"@ || t == "MCX"@
}

/// The qubits that placing a gate of the type takes: the cursor's, the
/// second qubit where the type needs one, and for a Toffoli the controls
/// chosen so far.
pub open spec fn cells_taken(t: Seq<char>, cursor: usize, second: usize, controls: Seq<usize>)
    -> Seq<usize> {
    if t == "CCX"@ {
        seq![cursor, second] + controls
    } else if needs_second(t) {
        seq![cursor, second]
    } else {
        seq![cursor]
    }
}

/// The circuit after, for each qubit of `qs` in turn, the first node at
/// `step` that refers to it was removed.
pub open spec fn cleared(d: DagView, step: int, qs: Seq<usize>) -> DagView
    decreases qs.len(),
{
    if qs.len() == 0 {
        d
    } else {
        let before = cleared(d, step, qs.drop_last());
        match first_at(before.nodes, step, qs.last()) {
            Some(i) => before.remove_node(before.nodes[i].id),
            None => before,
        }
    }
}

/// The parameter 0.
pub open spec fn zero_param() -> ParamView {
    ParamView::Number { text: "0"@ }
}

/// `params` cut or filled with zeros to `n` entries.
pub open spec fn padded(params: Seq<ParamView>, n: nat) -> Seq<ParamView> {
    Seq::new(
        n,
        |i: int|
            if i < params.len() {
                params[i]
            } else {
                zero_param()
            },
    )
}

/// The parameters that the input writes: none where it is empty or does
/// not read as a list of parameters.
pub open spec fn input_params(input: Seq<char>) -> Seq<ParamView> {
    if input.len() == 0 {
        Seq::empty()
    } else {
        match params_of_pieces(split(input, ',')) {
            Some(p) => p,
            None => Seq::empty(),
        }
    }
}

/// The kind of noise that a gate type of the menu stands for.
pub open spec fn noise_name(t: Seq<char>) -> Seq<char> {
    if t == "NOISE_DEPOL"@ {
        "depolarizing"@
    } else if t == "NOISE_AMP"@ {
        "amplitude_damping"@
    } else {
        "phase_damping"@
    }
}

/// The circuit after a gate of type `t` was added at the cursor, with
/// `second` as the second qubit, `controls` as the further controls of a
/// Toffoli, and `params` as the parameters.
pub open spec fn with_gate(
    d: DagView,
    t: Seq<char>,
    cursor: usize,
    step: int,
    second: usize,
    controls: Seq<usize>,
    params: Seq<ParamView>,
) -> DagView {
    if is_two_qubit_type(t) {
        d.add_node(d.gate_node(t, second, step, params, Some(cursor)))
    } else if t == "CCX"@ {
        let e = cleared(d, step, controls);
        e.add_node(e.multi_control_node("CCX"@, second, step, seq![cursor] + controls))
    } else if t == "MCX"@ {
        d.add_node(d.measure_control_node(cursor, second, step))
    } else if t == "MEASURE"@ {
        d.add_node(d.gate_node("MEASURE"@, cursor, step, Seq::empty(), None))
    } else if t == "BARRIER"@ {
        d.with_barrier(step)
    } else if t == "RESET"@ {
        d.add_node(d.reset_node(cursor, step))
    } else if t == "RX"@ || t == "RY"@ || t == "RZ"@ || t == "P"@ || t == "U1"@ {
        d.add_node(
            d.gate_node(
                t,
                cursor,
                step,
                if params.len() > 0 {
                    params
                } else {
                    seq![zero_param()]
                },
                None,
            ),
        )
    } else if t == "U2"@ {
        d.add_node(d.gate_node("U2"@, cursor, step, padded(params, 2), None))
    } else if t == "U3"@ {
        d.add_node(d.gate_node("U3"@, cursor, step, padded(params, 3), None))
    } else if t == "SDG"@ {
        d.add_node(d.dagger_node("S"@, cursor, step))
    } else if t == "TDG"@ {
        d.add_node(d.dagger_node("T"@, cursor, step))
    } else if t == "NOISE_DEPOL"@ || t == "NOISE_AMP"@ || t == "NOISE_PHASE"@ {
        d.add_node(
            d.noise_node(
                cursor,
                step,
                noise_name(t),
                if params.len() > 0 {
                    params
                } else {
                    seq![ParamView::Number { text: "0.01"@ }]
                },
            ),
        )
    } else {
        d.add_node(d.gate_node(t, cursor, step, Seq::empty(), None))
    }
}

/// The step after `s`, held at the largest step there is.
pub open spec fn step_after(s: int) -> int {
    if s < isize::MAX {
        s + 1
    } else {
        s
    }
}

impl Default for App {
    /// A session on an empty circuit of four qubits.
    fn default() -> (r: Self)
        ensures
            r.wf(),
            r@ == AppView::start(),
            r.dag@.built(),
    {
        App::new()
    }
}

/// Whether every index in `v` is below `usize::MAX`.
fn below_max(v: &Vec<usize>) -> (r: bool)
    ensures
        r == all_below_max(v@),
{
    let mut i: usize = 0;
    while i < v.len()
        invariant
            i <= v.len(),
            forall|k: int| 0 <= k < i ==> #[trigger] v@[k] < usize::MAX,
        decreases v.len() - i,
    {
        if v[i] == usize::MAX {
            return false;
        }
        i += 1;
    }
    true
}

/// What placing a gate comes to.
pub enum Placing {
    /// It needs a second qubit and none was given: nothing changes.
    NoTarget,
    /// Its step holds a barrier, or a cell that it takes holds a gate that
    /// spans more than its target: the circuit stays, a message is left and
    /// what was pending is dropped.
    Refused,
    /// It is placed: the cells it takes are cleared, then it is added.
    Placed,
}

/// The second qubit given, or 0.
pub open spec fn second_of(target: Option<usize>) -> usize {
    match target {
        Some(q) => q,
        None => 0,
    }
}

/// The smaller of two integers.
pub open spec fn min_int(a: int, b: int) -> int {
    if a <= b {
        a
    } else {
        b
    }
}

impl AppView {
    /// Whether the cursor, the qubit chosen, the controls chosen so far and
    /// the qubits of a gate under edit are below `usize::MAX`.
    pub open spec fn in_range(self) -> bool {
        &&& self.cursor_qubit < usize::MAX
        &&& self.target_qubit < usize::MAX
        &&& all_below_max(self.control_qubits)
        &&& self.edit_gate is Some ==> gate_fits(self.edit_gate->0)
    }

    /// The session with the circuit written anew as its text, and the
    /// cursor behind the text.
    pub open spec fn synced(self) -> AppView {
        AppView {
            qasm_text: self.dag.qasm(),
            last_qasm: self.dag.qasm(),
            qasm_cursor: self.dag.qasm().len() as usize,
            qasm_scroll: 0,
            ..self
        }
    }

    /// The session with nothing pending: no gate chosen, no parameter
    /// typed, no control chosen.
    pub open spec fn without_pending(self) -> AppView {
        AppView {
            param_input: Seq::empty(),
            control_qubits: Seq::empty(),
            pending_gate: Seq::empty(),
            ..self
        }
    }

    /// What placing a gate of type `t` with second qubit `target` comes to.
    pub open spec fn placing(self, t: Seq<char>, target: Option<usize>) -> Placing {
        if needs_second(t) && target is None {
            Placing::NoTarget
        } else if t != "BARRIER"@ && !self.dag.can_place(
            self.cursor_step,
            cells_taken(t, self.cursor_qubit, second_of(target), self.control_qubits),
        ) {
            Placing::Refused
        } else {
            Placing::Placed
        }
    }

    /// The circuit after a gate of type `t` with second qubit `target` was
    /// placed at the cursor.
    pub open spec fn placed_circuit(self, t: Seq<char>, target: Option<usize>) -> DagView {
        let base = if t == "BARRIER"@ {
            self.dag
        } else {
            cleared(
                self.dag,
                self.cursor_step,
                cells_taken(t, self.cursor_qubit, second_of(target), self.control_qubits),
            )
        };
        with_gate(
            base,
            t,
            self.cursor_qubit,
            self.cursor_step,
            second_of(target),
            self.control_qubits,
            input_params(self.param_input),
        )
    }

    /// The session after a gate of type `t` with second qubit `target` was
    /// to be placed at the cursor.
    pub open spec fn after_place(self, t: Seq<char>, target: Option<usize>) -> AppView {
        match self.placing(t, target) {
            Placing::NoTarget => self,
            Placing::Refused => (AppView { status_msg: PLACE_REFUSED@, ..self }).without_pending(),
            Placing::Placed => (AppView {
                dag: self.placed_circuit(t, target),
                cursor_step: step_after(self.cursor_step),
                ..self
            }).without_pending().synced(),
        }
    }

    /// Whether the text was changed and is short enough to be read.
    pub open spec fn can_read(self) -> bool {
        self.qasm_text != self.last_qasm && 2 * self.qasm_text.len() + 4 <= isize::MAX
    }

    /// The session after its text was read as a new circuit, where it can
    /// be read.
    pub open spec fn after_reading(self) -> AppView {
        if self.can_read() {
            AppView { dag: DagView::parsed(self.qasm_text), last_qasm: self.qasm_text, ..self }
        } else {
            self
        }
    }

    /// The session after a character of a parameter was typed.
    pub open spec fn with_param_char(self, ch: char) -> AppView {
        if is_param_char(ch) {
            AppView { param_input: self.param_input.push(ch), ..self }
        } else {
            self
        }
    }

    /// The cursor in the text, held within the text.
    pub open spec fn cursor_place(self) -> int {
        min_int(self.qasm_cursor as int, self.qasm_text.len() as int)
    }

    /// The session with the cursor in the text at place `c`.
    pub open spec fn cursor_at(self, c: int) -> AppView {
        AppView { qasm_cursor: c as usize, ..self }
    }

    /// The session after a character was put into the text at the cursor.
    /// A text that cannot grow stays as it is.
    pub open spec fn with_char(self, ch: char) -> AppView {
        if self.qasm_text.len() < usize::MAX {
            AppView {
                qasm_text: self.qasm_text.insert(self.cursor_place(), ch),
                qasm_cursor: (self.cursor_place() + 1) as usize,
                ..self
            }
        } else {
            self
        }
    }

    /// The session after the character before the cursor was taken from
    /// the text.
    pub open spec fn backspaced(self) -> AppView {
        if self.cursor_place() == 0 {
            self
        } else {
            AppView {
                qasm_text: self.qasm_text.remove(self.cursor_place() - 1),
                qasm_cursor: (self.cursor_place() - 1) as usize,
                ..self
            }
        }
    }

    /// The session after the character at the cursor was taken from the
    /// text.
    pub open spec fn deleted(self) -> AppView {
        if self.qasm_cursor >= self.qasm_text.len() {
            self
        } else {
            AppView { qasm_text: self.qasm_text.remove(self.qasm_cursor as int), ..self }
        }
    }

    /// The session after a gate under edit was put back into the circuit.
    pub open spec fn committed(self) -> AppView {
        match self.edit_gate {
            Some(g) => (AppView {
                dag: recommitted(self.dag, g, self.edit_orig_step),
                ..self
            }).synced(),
            None => self,
        }
    }

    /// A session on an empty circuit of four qubits.
    pub open spec fn start() -> AppView {
        (AppView {
            dag: DagView { nodes: Seq::empty(), num_qubits: 4, num_cbits: 0 },
            cursor_qubit: 0,
            cursor_step: 0,
            width: 80,
            height: 24,
            focus: Focus::Circuit,
            status_msg: Seq::empty(),
            qasm_text: Seq::empty(),
            last_qasm: Seq::empty(),
            qasm_cursor: 0,
            qasm_scroll: 0,
            menu_cat: 0,
            menu_item: 0,
            pending_gate: Seq::empty(),
            target_qubit: 0,
            param_input: Seq::empty(),
            control_qubits: Seq::empty(),
            edit_gate: None,
            edit_menu_idx: 0,
            edit_orig_step: 0,
            edit_control_idx: None,
            show_statevector: false,
        }).synced()
    }
}

impl App {
    /// The invariant of a session: the circuit is well-formed, and the
    /// cursor, the qubit chosen, the controls chosen so far and the qubits
    /// of a gate under edit are below `usize::MAX`.
    pub open spec fn wf(&self) -> bool {
        &&& self.dag.wf()
        &&& self@.in_range()
    }

    /// Whether the session meets its invariant. A session whose fields were
    /// set by hand can be tested with this before it is handed to an
    /// operation.
    pub fn is_well_formed(&self) -> (r: bool)
        ensures
            r == self.wf(),
    {
        if !self.dag.is_well_formed() || self.cursor_qubit == usize::MAX || self.target_qubit
            == usize::MAX {
            return false;
        }
        if !below_max(&self.control_qubits) {
            return false;
        }
        match &self.edit_gate {
            Some(g) => g.target != usize::MAX && g.control != Some(usize::MAX) && g.measure_source
                != Some(usize::MAX) && below_max(&g.controls),
            None => true,
        }
    }

    /// A session on an empty circuit of four qubits.
    pub fn new() -> (r: Self)
        ensures
            r.wf(),
            r@ == AppView::start(),
            r.dag@.built(),
    {
        let mut dag = CircuitDAG::new();
        dag.ensure_qubits(4);
        let mut app = App {
            dag,
            cursor_qubit: 0,
            cursor_step: 0,
            width: 80,
            height: 24,
            focus: Focus::Circuit,
            status_msg: String::new(),
            qasm_text: String::new(),
            last_qasm: String::new(),
            qasm_cursor: 0,
            qasm_scroll: 0,
            menu_cat: 0,
            menu_item: 0,
            pending_gate: String::new(),
            target_qubit: 0,
            param_input: String::new(),
            control_qubits: Vec::new(),
            edit_gate: None,
            edit_menu_idx: 0,
            edit_orig_step: 0,
            edit_control_idx: None,
            show_statevector: false,
        };
        app.sync_from_dag();
        app
    }

    /// Writes the circuit as the text of the session, and puts the cursor
    /// behind it.
    pub fn sync_from_dag(&mut self)
        requires
            old(self).dag.wf(),
        ensures
            final(self)@ == old(self)@.synced(),
            final(self).dag == old(self).dag,
    {
        let qasm = self.dag.to_qasm();
        self.qasm_cursor = qasm.as_str().unicode_len();
        self.qasm_text = qasm.clone();
        self.last_qasm = qasm;
        self.qasm_scroll = 0;
    }

    /// Reads the text of the session, where it was changed, as a new
    /// circuit in place of the old one. A text too long to number its steps
    /// is left unread.
    pub fn parse_qasm_input(&mut self)
        ensures
            final(self)@ == old(self)@.after_reading(),
            old(self).dag.wf() ==> final(self).dag.wf(),
            old(self).dag@.built() ==> final(self).dag@.built(),
    {
        if !same_text(self.qasm_text.as_str(), self.last_qasm.as_str()) {
            let n = self.qasm_text.as_str().unicode_len();
            if n <= (isize::MAX as usize - 4) / 2 {
                let mut new_dag = CircuitDAG::new();
                let r = new_dag.parse_qasm(self.qasm_text.as_str());
                self.dag = new_dag;
                self.last_qasm = self.qasm_text.clone();
            }
        }
    }

    /// The circuit as a flat list of gates.
    pub fn circuit(&self) -> (r: Circuit)
        ensures
            r@.num_qubits == self.dag@.num_qubits,
            r@.gates == self.dag@.nodes.map_values(|n: crate::node::NodeView| crate::circuit::gate_of(n)),
    {
        self.dag.to_circuit()
    }

    /// Takes a character of a parameter that is typed: a digit, or one of
    /// `. , - e E + p i * /`. Other characters are passed over.
    pub fn handle_char_input(&mut self, ch: char)
        ensures
            final(self)@ == old(self)@.with_param_char(ch),
            final(self).dag == old(self).dag,
    {
        if ('0' <= ch && ch <= '9') || ch == '.' || ch == ',' || ch == '-' || ch == 'e' || ch == 'E'
            || ch == '+' || ch == 'p' || ch == 'i' || ch == '*' || ch == '/' {
            self.param_input.push(ch);
        }
    }

    /// The next qubit from `from` that is not in `excluded`: upwards where
    /// `direction` is positive, else downwards.
    pub fn next_available_target(&self, from: usize, direction: isize, excluded: &Vec<usize>) -> (r:
        Option<usize>)
        ensures
            r == next_free(self.dag.num_qubits, from, direction > 0, excluded@),
            r is Some ==> !excluded@.contains(r->0),
            r is Some && direction > 0 ==> from < r->0 < self.dag.num_qubits,
            r is Some && direction <= 0 ==> r->0 < from,
    {
        let nq = self.dag.num_qubits;
        if direction > 0 {
            if from >= nq {
                return None;
            }
            let mut q: usize = from + 1;
            while q < nq
                invariant
                    from < q <= nq,
                    direction > 0,
                    nq == self.dag.num_qubits,
                    next_up(nq, from + 1, excluded@) == next_up(nq, q as int, excluded@),
                decreases nq - q,
            {
                if !has_index(excluded, q) {
                    return Some(q);
                }
                q += 1;
            }
            None
        } else {
            let mut q: usize = from;
            while q > 0
                invariant
                    q <= from,
                    direction <= 0,
                    next_down(from as int, excluded@) == next_down(q as int, excluded@),
                decreases q,
            {
                q -= 1;
                if !has_index(excluded, q) {
                    return Some(q);
                }
            }
            None
        }
    }
}

/// The first qubit from `q` upwards, below `num_qubits`, that is not in
/// `excluded`.
pub open spec fn next_up(num_qubits: usize, q: int, excluded: Seq<usize>) -> Option<usize>
    decreases num_qubits - q,
{
    if q < 0 || q >= num_qubits {
        None
    } else if !excluded.contains(q as usize) {
        Some(q as usize)
    } else {
        next_up(num_qubits, q + 1, excluded)
    }
}

/// The first qubit below `q`, downwards, that is not in `excluded`.
pub open spec fn next_down(q: int, excluded: Seq<usize>) -> Option<usize>
    decreases q,
{
    if q <= 0 || q > usize::MAX {
        None
    } else if !excluded.contains((q - 1) as usize) {
        Some((q - 1) as usize)
    } else {
        next_down(q - 1, excluded)
    }
}

/// The next qubit from `from` that is not in `excluded`: upwards among the
/// `num_qubits` qubits where `up` holds, else downwards.
pub open spec fn next_free(num_qubits: usize, from: usize, up: bool, excluded: Seq<usize>)
    -> Option<usize> {
    if up {
        if from >= num_qubits {
            None
        } else {
            next_up(num_qubits, from + 1, excluded)
        }
    } else {
        next_down(from as int, excluded)
    }
}

/// Whether a character can stand in a parameter that is typed.
pub open spec fn is_param_char(ch: char) -> bool {
    ||| '0' <= ch <= '9'
    ||| ch == '.'
    ||| ch == ','
    ||| ch == '-'
    ||| ch == 'e'
    ||| ch == 'E'
    ||| ch == '+'
    ||| ch == 'p'
    ||| ch == 'i'
    ||| ch == '*'
    ||| ch == '/'
}

impl CircuitDAG {
    /// Removes, for each qubit of `qs` in turn, the first node at `step`
    /// that refers to it.
    pub fn clear_cells(&mut self, step: isize, qs: &Vec<usize>)
        requires
            old(self).wf(),
        ensures
            final(self).wf(),
            old(self)@.built() ==> final(self)@.built(),
            final(self)@ == cleared(old(self)@, step as int, qs@),
    {
        let mut i: usize = 0;
        while i < qs.len()
            invariant
                i <= qs.len(),
                self.wf(),
                old(self)@.built() ==> self@.built(),
                self@ == cleared(old(self)@, step as int, qs@.take(i as int)),
            decreases qs.len() - i,
        {
            assert(qs@.take(i + 1).drop_last() =~= qs@.take(i as int));
            self.remove_node_at(step, qs[i]);
            i += 1;
        }
        assert(qs@.take(i as int) =~= qs@);
    }
}

/// `params` cut or filled with zeros to `n` entries.
fn pad_params(params: &Vec<ParamExpr>, n: usize) -> (r: Vec<ParamExpr>)
    ensures
        params_of(r@) == padded(params_of(params@), n as nat),
{
    let mut r: Vec<ParamExpr> = Vec::new();
    let mut i: usize = 0;
    while i < n
        invariant
            i <= n,
            r@.len() == i,
            forall|k: int| 0 <= k < i ==> (#[trigger] r@[k])@ == padded(params_of(params@), n as nat)[k],
        decreases n - i,
    {
        if i < params.len() {
            let p = params[i].clone();
            assert(params_of(params@)[i as int] == params@[i as int]@);
            r.push(p);
        } else {
            r.push(ParamExpr::Number { text: String::from_str("0") });
        }
        i += 1;
    }
    assert(params_of(r@) =~= padded(params_of(params@), n as nat));
    r
}

/// The one parameter `text`.
fn one_number(text: &str) -> (r: Vec<ParamExpr>)
    ensures
        params_of(r@) == seq![ParamView::Number { text: text@ }],
{
    let mut r: Vec<ParamExpr> = Vec::new();
    r.push(ParamExpr::Number { text: String::from_str(text) });
    assert(params_of(r@) =~= seq![ParamView::Number { text: text@ }]);
    r
}

fn two_qubit_type(t: &str) -> (r: bool)
    ensures
        r == is_two_qubit_type(t@),
{
    same_text(t, "CX") || same_text(t, "CZ") || same_text(t, "SWAP") || same_text(t, "CH")
        || same_text(t, "CRX") || same_text(t, "CRY") || same_text(t, "CRZ") || same_text(t, "CU1")
}

impl CircuitDAG {
    /// Adds a gate of type `t` at `step`: on `cursor` and `second` where
    /// the type joins two qubits, with `controls` as further controls of a
    /// Toffoli, and with `params`, or what stands in for them, where the
    /// type takes parameters.
    pub fn add_by_type(
        &mut self,
        t: &str,
        cursor: usize,
        step: isize,
        second: usize,
        controls: &Vec<usize>,
        params: Vec<ParamExpr>,
    )
        requires
            old(self).wf(),
            cursor < usize::MAX,
            second < usize::MAX,
            all_below_max(controls@),
        ensures
            final(self).wf(),
            old(self)@.built() ==> final(self)@.built(),
            final(self)@ == with_gate(
                old(self)@,
                t@,
                cursor,
                step as int,
                second,
                controls@,
                params_of(params@),
            ),
    {
        let two = two_qubit_type(t);
        let toffoli = same_text(t, "CCX");
        let measured = same_text(t, "MCX");
        let barrier = same_text(t, "BARRIER");
        let has_params = params.len() > 0;
        if two {
            self.add_parameterized_gate(t, second, step, params, Some(cursor));
        } else if toffoli {
            let mut all: Vec<usize> = Vec::new();
            all.push(cursor);
            let mut i: usize = 0;
            while i < controls.len()
                invariant
                    i <= controls.len(),
                    all@ == seq![cursor] + controls@.take(i as int),
                decreases controls.len() - i,
            {
                all.push(controls[i]);
                assert(all@ =~= seq![cursor] + controls@.take(i + 1));
                i += 1;
            }
            assert(controls@.take(i as int) =~= controls@);
            self.clear_cells(step, controls);
            assert(all_below_max(all@)) by {
                assert forall|k: int| 0 <= k < all@.len() implies #[trigger] all@[k]
                    < usize::MAX by {
                    if k > 0 {
                        assert(all@[k] == controls@[k - 1]);
                    }
                }
            }
            self.add_multi_control_gate("CCX", second, step, all);
        } else if measured {
            self.add_measure_control_gate(cursor, second, step);
        } else if same_text(t, "MEASURE") {
            self.add_gate("MEASURE", cursor, step, None);
        } else if barrier {
            self.add_barrier(step);
        } else if same_text(t, "RESET") {
            self.add_reset(cursor, step);
        } else if same_text(t, "RX") || same_text(t, "RY") || same_text(t, "RZ") || same_text(t, "P")
            || same_text(t, "U1") {
            let p = if has_params {
                params
            } else {
                one_number("0")
            };
            self.add_parameterized_gate(t, cursor, step, p, None);
        } else if same_text(t, "U2") {
            let p = pad_params(&params, 2);
            self.add_parameterized_gate("U2", cursor, step, p, None);
        } else if same_text(t, "U3") {
            let p = pad_params(&params, 3);
            self.add_parameterized_gate("U3", cursor, step, p, None);
        } else if same_text(t, "SDG") {
            self.add_dagger_gate("S", cursor, step);
        } else if same_text(t, "TDG") {
            self.add_dagger_gate("T", cursor, step);
        } else if same_text(t, "NOISE_DEPOL") || same_text(t, "NOISE_AMP") || same_text(
            t,
            "NOISE_PHASE",
        ) {
            let name = if same_text(t, "NOISE_DEPOL") {
                "depolarizing"
            } else if same_text(t, "NOISE_AMP") {
                "amplitude_damping"
            } else {
                "phase_damping"
            };
            let p = if has_params {
                params
            } else {
                one_number("0.01")
            };
            self.add_noise(cursor, step, name, p);
        } else {
            self.add_gate(t, cursor, step, None);
        }
    }
}

impl App {
    /// Drops what is pending: the chosen gate, the parameter typed and the
    /// controls chosen.
    fn clear_pending(&mut self)
        ensures
            final(self)@ == old(self)@.without_pending(),
            final(self).dag == old(self).dag,
    {
        self.param_input = String::new();
        self.control_qubits = Vec::new();
        self.pending_gate = String::new();
    }

    /// Places a gate of the given type at the cursor, with `target_q` as its
    /// second qubit where it needs one. Gives `false`, and leaves the
    /// circuit as it is, where it needs a second qubit and has none, or
    /// where its step holds a barrier or a cell it takes is held by a gate
    /// that spans more than its target. Else the cells are cleared, it is
    /// added, the cursor moves one step on and the text is written anew.
    pub fn place_gate(&mut self, gate_type: &str, target_q: Option<usize>) -> (r: bool)
        requires
            old(self).wf(),
            target_q is Some ==> target_q->0 < usize::MAX,
        ensures
            final(self).wf(),
            old(self).dag@.built() ==> final(self).dag@.built(),
            r == (old(self)@.placing(gate_type@, target_q) is Placed),
            final(self)@ == old(self)@.after_place(gate_type@, target_q),
    {
        let t = gate_type;
        let two = two_qubit_type(t);
        let toffoli = same_text(t, "CCX");
        let measured = same_text(t, "MCX");
        let barrier = same_text(t, "BARRIER");
        if (two || toffoli || measured) && target_q.is_none() {
            return false;
        }
        let second: usize = match target_q {
            Some(q) => q,
            None => 0,
        };
        let step = self.cursor_step;
        let cursor = self.cursor_qubit;
        let ghost d0 = self.dag@;
        let ghost controls0 = self.control_qubits@;
        let ghost input0 = self.param_input@;
        if !barrier {
            let mut qs: Vec<usize> = Vec::new();
            qs.push(cursor);
            if two || toffoli || measured {
                qs.push(second);
            }
            if toffoli {
                let ghost head = qs@;
                let mut i: usize = 0;
                while i < self.control_qubits.len()
                    invariant
                        i <= self.control_qubits.len(),
                        *self == *old(self),
                        qs@ == head + self.control_qubits@.take(i as int),
                    decreases self.control_qubits.len() - i,
                {
                    qs.push(self.control_qubits[i]);
                    assert(qs@ =~= head + self.control_qubits@.take(i + 1));
                    i += 1;
                }
                assert(self.control_qubits@.take(i as int) =~= self.control_qubits@);
            }
            assert(qs@ =~= cells_taken(t@, cursor, second, controls0));
            if !self.dag.can_place_gate_at(step, &qs) {
                self.status_msg = String::from_str(PLACE_REFUSED);
                self.clear_pending();
                return false;
            }
            self.dag.clear_cells(step, &qs);
        }
        let params: Vec<ParamExpr> = if !self.param_input.as_str().is_empty() {
            match parse_params(self.param_input.as_str()) {
                Some(p) => p,
                None => {
                    let e: Vec<ParamExpr> = Vec::new();
                    assert(params_of(e@) =~= Seq::empty());
                    e
                },
            }
        } else {
            let e: Vec<ParamExpr> = Vec::new();
            assert(params_of(e@) =~= Seq::empty());
            e
        };
        assert(params_of(params@) == input_params(input0));
        let controls = crate::node::clone_indices(&self.control_qubits);
        self.dag.add_by_type(t, cursor, step, second, &controls, params);
        self.clear_pending();
        if self.cursor_step < isize::MAX {
            self.cursor_step = self.cursor_step + 1;
        }
        self.sync_from_dag();
        true
    }
}

/// The mathematical content of an [`EditOption`].
pub ghost struct OptionView {
    pub label: Seq<char>,
    pub action: EditAction,
    pub ctrl_idx: Option<usize>,
}

impl View for EditOption {
    type V = OptionView;

    open spec fn view(&self) -> OptionView {
        OptionView { label: self.label@, action: self.action, ctrl_idx: self.ctrl_idx }
    }
}

/// The contents of a vector of options.
pub open spec fn options_of(v: Seq<EditOption>) -> Seq<OptionView> {
    v.map_values(|o: EditOption| o@)
}

/// The parameters as they are written, with `, ` between them.
pub open spec fn params_joined(params: Seq<ParamView>) -> Seq<char>
    decreases params.len(),
{
    if params.len() == 0 {
        Seq::empty()
    } else if params.len() == 1 {
        param_text(params[0])
    } else {
        params_joined(params.drop_last()) + ", "@ + param_text(params.last())
    }
}

/// The entry for the parameters of a gate.
pub open spec fn params_option(params: Seq<ParamView>) -> OptionView {
    OptionView {
        label: "Parameters: "@ + if params.len() == 0 {
            "none"@
        } else {
            params_joined(params)
        },
        action: EditAction::EditParam,
        ctrl_idx: None,
    }
}

/// The entry for control `i` of a gate with several controls.
pub open spec fn control_option(controls: Seq<usize>, i: int) -> OptionView {
    OptionView {
        label: "Control "@ + dec_nat((i + 1) as nat) + ": q["@ + dec_nat(controls[i] as nat)
            + "]"@,
        action: EditAction::EditControl,
        ctrl_idx: Some(i as usize),
    }
}

/// What can be done to a gate: edit its parameters, where it has or takes
/// any; edit its target; edit its control, or each of its controls; delete
/// it.
pub open spec fn edit_options(g: GateView) -> Seq<OptionView> {
    (if g.params.len() > 0 || takes_params(g.gate_type) {
        seq![params_option(g.params)]
    } else {
        Seq::empty()
    }) + seq![
        OptionView {
            label: "Target: q["@ + dec_nat(g.target as nat) + "]"@,
            action: EditAction::EditTarget,
            ctrl_idx: None,
        },
    ] + (match g.control {
        Some(c) => seq![
            OptionView {
                label: "Control: q["@ + dec_nat(c as nat) + "]"@,
                action: EditAction::EditControl,
                ctrl_idx: None,
            },
        ],
        None => Seq::empty(),
    }) + Seq::new(g.controls.len(), |i: int| control_option(g.controls, i)) + seq![
        OptionView { label: "Delete gate"@, action: EditAction::Delete, ctrl_idx: None },
    ]
}

/// The circuit after a gate under edit was put back at `step`: the first
/// node at `step` on its target is removed, then it is added
/// in the form that its fields call for.
pub open spec fn recommitted(d: DagView, g: GateView, step: int) -> DagView {
    let e = match first_at(d.nodes, step, g.target) {
        Some(i) => d.remove_node(d.nodes[i].id),
        None => d,
    };
    if g.controls.len() > 0 {
        e.add_node(e.multi_control_node(g.gate_type, g.target, step, g.controls))
    } else if g.control is Some {
        e.add_node(e.gate_node(g.gate_type, g.target, step, g.params, g.control))
    } else if g.params.len() > 0 {
        e.add_node(e.gate_node(g.gate_type, g.target, step, g.params, None))
    } else if g.is_reset {
        e.add_node(e.reset_node(g.target, step))
    } else if g.is_dagger {
        e.add_node(e.dagger_node(g.gate_type, g.target, step))
    } else if g.measure_source is Some {
        e.add_node(e.measure_control_node(g.measure_source->0, g.target, step))
    } else {
        e.add_node(e.gate_node(g.gate_type, g.target, step, Seq::empty(), None))
    }
}

/// Whether every qubit of this gate is below `usize::MAX`.
pub open spec fn gate_fits(g: GateView) -> bool {
    &&& g.target < usize::MAX
    &&& g.control is Some ==> g.control->0 < usize::MAX
    &&& g.measure_source is Some ==> g.measure_source->0 < usize::MAX
    &&& all_below_max(g.controls)
}

/// The first line shown of a text scrolled to `scroll`, so that line `row`
/// is among the `height` lines shown: `row` where it stood above, else so
/// far down that `row` is the last line shown, and at most 65535.
pub open spec fn scroll_for(scroll: u16, row: nat, height: usize) -> u16 {
    let up = if row < scroll {
        row as u16
    } else {
        scroll
    };
    if height > 0 && row - up >= height {
        if row + 1 - height <= 0xffff {
            (row + 1 - height) as u16
        } else {
            0xffffu16
        }
    } else {
        up
    }
}

/// The start of the line that holds place `c` of the text.
pub open spec fn line_start(s: Seq<char>, c: int) -> int
    decreases c,
{
    if c <= 0 {
        0
    } else if c <= s.len() && s[c - 1] == '\n' {
        c
    } else {
        line_start(s, c - 1)
    }
}

/// The end of the line that holds place `c` of the text: the place of the
/// next line end, or the end of the text.
pub open spec fn line_end(s: Seq<char>, c: int) -> int
    decreases s.len() - c,
{
    if c < 0 || c >= s.len() {
        s.len() as int
    } else if s[c] == '\n' {
        c
    } else {
        line_end(s, c + 1)
    }
}

/// The number of line ends before place `c` of the text.
pub open spec fn lines_before(s: Seq<char>, c: int) -> nat
    decreases c,
{
    if c <= 0 {
        0
    } else {
        lines_before(s, c - 1) + if c <= s.len() && s[c - 1] == '\n' {
            1nat
        } else {
            0nat
        }
    }
}

/// The place one line up from `c`, in the same column or at the end of a
/// shorter line; `c` on the first line.
pub open spec fn place_above(s: Seq<char>, c: int) -> int {
    let start = line_start(s, c);
    if start == 0 {
        c
    } else {
        let up = line_start(s, start - 1);
        up + min_int(c - start, start - 1 - up)
    }
}

/// The place one line down from `c`, in the same column or at the end of a
/// shorter line; `c` on the last line.
pub open spec fn place_below(s: Seq<char>, c: int) -> int {
    let end = line_end(s, c);
    if end >= s.len() {
        c
    } else {
        let down = end + 1;
        down + min_int(c - line_start(s, c), line_end(s, down) - down)
    }
}

fn find_line_start(v: &Vec<char>, c: usize) -> (r: usize)
    requires
        c <= v.len(),
    ensures
        r == line_start(v@, c as int),
        r <= c,
{
    let mut i = c;
    while i > 0 && v[i - 1] != '\n'
        invariant
            i <= c <= v.len(),
            line_start(v@, c as int) == line_start(v@, i as int),
        decreases i,
    {
        i -= 1;
    }
    i
}

fn find_line_end(v: &Vec<char>, c: usize) -> (r: usize)
    requires
        c <= v.len(),
    ensures
        r == line_end(v@, c as int),
        c <= r <= v.len(),
{
    let mut i = c;
    while i < v.len() && v[i] != '\n'
        invariant
            c <= i <= v.len(),
            line_end(v@, c as int) == line_end(v@, i as int),
        decreases v.len() - i,
    {
        i += 1;
    }
    i
}

fn lesser(a: usize, b: usize) -> (r: usize)
    ensures
        r == min_int(a as int, b as int),
{
    if a <= b {
        a
    } else {
        b
    }
}

impl App {
    /// What can be done to a gate under edit; nothing where none is under
    /// edit.
    pub fn get_edit_options(&self) -> (r: Vec<EditOption>)
        ensures
            options_of(r@) == match self.edit_gate {
                Some(g) => edit_options(g@),
                None => Seq::empty(),
            },
    {
        let mut opts: Vec<EditOption> = Vec::new();
        assert(options_of(opts@) =~= Seq::empty());
        let gate = match &self.edit_gate {
            Some(g) => g,
            None => {
                return opts;
            },
        };
        let ghost g = gate@;
        let ghost first = if g.params.len() > 0 || takes_params(g.gate_type) {
            seq![params_option(g.params)]
        } else {
            Seq::<OptionView>::empty()
        };
        if gate.params.len() > 0 || is_parameterized_gate(gate.gate_type.as_str()) {
            let mut label = String::from_str("Parameters: ");
            if gate.params.len() == 0 {
                label.append("none");
            } else {
                let mut i: usize = 0;
                let ghost head = label@;
                assert(label@ =~= head + params_joined(g.params.take(0)));
                while i < gate.params.len()
                    invariant
                        i <= gate.params.len(),
                        g == gate@,
                        label@ == head + params_joined(g.params.take(i as int)),
                    decreases gate.params.len() - i,
                {
                    assert(g.params.take(i + 1).drop_last() =~= g.params.take(i as int));
                    assert(g.params[i as int] == gate.params@[i as int]@);
                    if i > 0 {
                        label.append(", ");
                    }
                    push_param(&mut label, &gate.params[i]);
                    assert(label@ =~= head + params_joined(g.params.take(i + 1)));
                    i += 1;
                }
                assert(g.params.take(i as int) =~= g.params);
            }
            opts.push(EditOption { label, action: EditAction::EditParam, ctrl_idx: None });
        }
        assert(options_of(opts@) =~= first);
        let ghost target_opt = OptionView {
            label: "Target: q["@ + dec_nat(g.target as nat) + "]"@,
            action: EditAction::EditTarget,
            ctrl_idx: None,
        };
        let ghost control_part = match g.control {
            Some(c) => seq![
                OptionView {
                    label: "Control: q["@ + dec_nat(c as nat) + "]"@,
                    action: EditAction::EditControl,
                    ctrl_idx: None,
                },
            ],
            None => Seq::<OptionView>::empty(),
        };
        let mut label = String::from_str("Target: q[");
        push_nat(&mut label, gate.target);
        label.append("]");
        let ghost o1 = opts@;
        let opt = EditOption { label, action: EditAction::EditTarget, ctrl_idx: None };
        assert(opt@ == target_opt);
        opts.push(opt);
        assert(options_of(opts@) =~= options_of(o1).push(target_opt));
        assert(options_of(opts@) =~= first + seq![target_opt]);
        if let Some(c) = gate.control {
            let mut label = String::from_str("Control: q[");
            push_nat(&mut label, c);
            label.append("]");
            let ghost o2 = opts@;
            let opt = EditOption { label, action: EditAction::EditControl, ctrl_idx: None };
            let ghost ov = opt@;
            opts.push(opt);
            assert(options_of(opts@) =~= options_of(o2).push(ov));
        }
        assert(options_of(opts@) =~= first + seq![target_opt] + control_part);
        let ghost before = options_of(opts@);
        let mut i: usize = 0;
        assert(options_of(opts@) =~= before + Seq::new(0, |k: int| control_option(g.controls, k)));
        while i < gate.controls.len()
            invariant
                i <= gate.controls.len(),
                g == gate@,
                options_of(opts@) == before + Seq::new(
                    i as nat,
                    |k: int| control_option(g.controls, k),
                ),
            decreases gate.controls.len() - i,
        {
            let mut label = String::from_str("Control ");
            push_nat(&mut label, i + 1);
            label.append(": q[");
            push_nat(&mut label, gate.controls[i]);
            label.append("]");
            let ghost o0 = opts@;
            let opt = EditOption { label, action: EditAction::EditControl, ctrl_idx: Some(i) };
            assert(opt@ == control_option(g.controls, i as int));
            opts.push(opt);
            assert(options_of(opts@) =~= options_of(o0).push(control_option(g.controls, i as int)));
            assert(before + Seq::new((i + 1) as nat, |k: int| control_option(g.controls, k)) =~= (
            before + Seq::new(i as nat, |k: int| control_option(g.controls, k))).push(
                control_option(g.controls, i as int),
            ));
            i += 1;
        }
        let ghost o3 = opts@;
        let opt = EditOption {
            label: String::from_str("Delete gate"),
            action: EditAction::Delete,
            ctrl_idx: None,
        };
        let ghost ov = opt@;
        opts.push(opt);
        assert(options_of(opts@) =~= options_of(o3).push(ov));
        assert(options_of(opts@) =~= edit_options(g));
        opts
    }

    /// Puts a gate under edit back into the circuit at the step where its
    /// edit began, and writes the text anew. Does nothing where no gate is
    /// under edit.
    pub fn commit_edit_to_dag(&mut self)
        requires
            old(self).wf(),
        ensures
            final(self).wf(),
            old(self).dag@.built() ==> final(self).dag@.built(),
            final(self)@ == old(self)@.committed(),
    {
        let step = self.edit_orig_step;
        if let Some(gate) = &self.edit_gate {
            let t = gate.gate_type.as_str();
            let target = gate.target;
            self.dag.remove_node_at(step, target);
            if gate.controls.len() > 0 {
                let controls = crate::node::clone_indices(&gate.controls);
                self.dag.add_multi_control_gate(t, target, step, controls);
            } else if gate.control.is_some() {
                let params = clone_params(&gate.params);
                self.dag.add_parameterized_gate(t, target, step, params, gate.control);
            } else if gate.params.len() > 0 {
                let params = clone_params(&gate.params);
                self.dag.add_parameterized_gate(t, target, step, params, None);
            } else if gate.is_reset {
                self.dag.add_reset(target, step);
            } else if gate.is_dagger {
                self.dag.add_dagger_gate(t, target, step);
            } else if let Some(source) = gate.measure_source {
                self.dag.add_measure_control_gate(source, target, step);
            } else {
                self.dag.add_gate(t, target, step, None);
            }
            self.sync_from_dag();
        }
    }

    /// Puts a character into the text at the cursor, and the cursor behind
    /// it.
    pub fn qasm_insert_char(&mut self, ch: char)
        ensures
            final(self)@ == old(self)@.with_char(ch),
            final(self).dag == old(self).dag,
    {
        let mut v = chars_of(self.qasm_text.as_str());
        if v.len() == usize::MAX {
            return ;
        }
        let c = lesser(self.qasm_cursor, v.len());
        v.insert(c, ch);
        self.qasm_text = string_of(&v);
        self.qasm_cursor = c + 1;
    }

    /// Takes the character before the cursor from the text.
    pub fn qasm_backspace(&mut self)
        ensures
            final(self)@ == old(self)@.backspaced(),
            final(self).dag == old(self).dag,
    {
        let mut v = chars_of(self.qasm_text.as_str());
        let c = lesser(self.qasm_cursor, v.len());
        if c == 0 {
            return ;
        }
        v.remove(c - 1);
        self.qasm_text = string_of(&v);
        self.qasm_cursor = c - 1;
    }

    /// Takes the character at the cursor from the text.
    pub fn qasm_delete_forward(&mut self)
        ensures
            final(self)@ == old(self)@.deleted(),
            final(self).dag == old(self).dag,
    {
        let mut v = chars_of(self.qasm_text.as_str());
        if self.qasm_cursor >= v.len() {
            return ;
        }
        v.remove(self.qasm_cursor);
        self.qasm_text = string_of(&v);
    }

    /// The line and the column of the cursor, both counted from 0.
    pub fn qasm_cursor_row_col(&self) -> (r: (usize, usize))
        ensures
            r.0 == lines_before(self.qasm_text@, self@.cursor_place()),
            r.1 == self@.cursor_place() - line_start(self.qasm_text@, self@.cursor_place()),
    {
        let v = chars_of(self.qasm_text.as_str());
        let c = lesser(self.qasm_cursor, v.len());
        let mut row: usize = 0;
        let mut i: usize = 0;
        while i < c
            invariant
                i <= c <= v.len(),
                row == lines_before(v@, i as int),
                row <= i,
            decreases c - i,
        {
            if v[i] == '\n' {
                row += 1;
            }
            i += 1;
        }
        let start = find_line_start(&v, c);
        (row, c - start)
    }

    /// Scrolls the text so that the line of the cursor is among the
    /// `height` lines shown.
    pub fn scroll_to_cursor(&mut self, height: usize)
        ensures
            final(self)@ == (AppView {
                qasm_scroll: scroll_for(
                    old(self).qasm_scroll,
                    lines_before(old(self).qasm_text@, old(self)@.cursor_place()),
                    height,
                ),
                ..old(self)@
            }),
            final(self).dag == old(self).dag,
    {
        let row = self.qasm_cursor_row_col().0;
        if row < self.qasm_scroll as usize {
            self.qasm_scroll = row as u16;
        }
        if height > 0 && row - self.qasm_scroll as usize >= height {
            let top = row - height + 1;
            self.qasm_scroll = if top <= 0xffff {
                top as u16
            } else {
                0xffff
            };
        }
    }

    /// Moves the cursor one character back.
    pub fn qasm_move_left(&mut self)
        ensures
            final(self)@ == old(self)@.cursor_at(if old(self).qasm_cursor == 0 {
                0
            } else {
                old(self).qasm_cursor - 1
            }),
            final(self).dag == old(self).dag,
    {
        if self.qasm_cursor > 0 {
            self.qasm_cursor = self.qasm_cursor - 1;
        }
    }

    /// Moves the cursor one character on, not past the end of the text.
    pub fn qasm_move_right(&mut self)
        ensures
            final(self)@ == old(self)@.cursor_at(if old(self).qasm_cursor >= old(self).qasm_text@.len() {
                old(self).qasm_cursor as int
            } else {
                old(self).qasm_cursor + 1
            }),
            final(self).dag == old(self).dag,
    {
        let n = self.qasm_text.as_str().unicode_len();
        if self.qasm_cursor < n {
            self.qasm_cursor = self.qasm_cursor + 1;
        }
    }

    /// Moves the cursor one line up.
    pub fn qasm_move_up(&mut self)
        ensures
            final(self)@ == old(self)@.cursor_at(place_above(old(self).qasm_text@, old(self)@.cursor_place())),
            final(self).dag == old(self).dag,
    {
        let v = chars_of(self.qasm_text.as_str());
        let c = lesser(self.qasm_cursor, v.len());
        let start = find_line_start(&v, c);
        if start == 0 {
            self.qasm_cursor = c;
            return ;
        }
        let up = find_line_start(&v, start - 1);
        self.qasm_cursor = up + lesser(c - start, start - 1 - up);
    }

    /// Moves the cursor one line down.
    pub fn qasm_move_down(&mut self)
        ensures
            final(self)@ == old(self)@.cursor_at(place_below(old(self).qasm_text@, old(self)@.cursor_place())),
            final(self).dag == old(self).dag,
    {
        let v = chars_of(self.qasm_text.as_str());
        let c = lesser(self.qasm_cursor, v.len());
        let end = find_line_end(&v, c);
        if end >= v.len() {
            self.qasm_cursor = c;
            return ;
        }
        let down = end + 1;
        let start = find_line_start(&v, c);
        let next_end = find_line_end(&v, down);
        self.qasm_cursor = down + lesser(c - start, next_end - down);
    }

    /// Moves the cursor to the start of its line.
    pub fn qasm_move_home(&mut self)
        ensures
            final(self)@ == old(self)@.cursor_at(line_start(old(self).qasm_text@, old(self)@.cursor_place())),
            final(self).dag == old(self).dag,
    {
        let v = chars_of(self.qasm_text.as_str());
        let c = lesser(self.qasm_cursor, v.len());
        self.qasm_cursor = find_line_start(&v, c);
    }

    /// Moves the cursor to the end of its line.
    pub fn qasm_move_end(&mut self)
        ensures
            final(self)@ == old(self)@.cursor_at(line_end(old(self).qasm_text@, old(self)@.cursor_place())),
            final(self).dag == old(self).dag,
    {
        let v = chars_of(self.qasm_text.as_str());
        let c = lesser(self.qasm_cursor, v.len());
        self.qasm_cursor = find_line_end(&v, c);
    }
}

} // verus!
