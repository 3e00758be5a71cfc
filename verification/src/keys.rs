//! What each key does to a session, by what the keys act on.

use vstd::prelude::*;
use vstd::string::*;
use crate::circuit::{gate_from_node, gate_of, Gate, GateView};
use crate::dag::{first_at, DagView};
use crate::editor::{
    edit_options, gate_fits, next_free, next_up, options_of, step_after, App, AppView, EditAction,
    Focus,
};
use crate::gates::all_below_max;
use crate::menu::{
    categories_of, gate_menu, is_parameterized_gate, menu_entries, takes_params, ItemView,
};
use crate::node::{clone_indices, lemma_past_all_max, NodeView};
use crate::params::{params_of, params_of_pieces, parse_params, ParamView};
use crate::text::{chars_of, same_text, split, string_of};

verus! {

/// A key, as far as a session tells keys apart.
#[derive(Clone, Copy, PartialEq, Eq, Debug, Structural)]
pub enum Key {
    Char(char),
    Tab,
    Up,
    Down,
    Left,
    Right,
    Home,
    End,
    Backspace,
    Delete,
    Enter,
    Esc,
    Other,
}

/// What is to be done after a key: go on, leave, or write the circuit to
/// its file and go on.
#[derive(Clone, Copy, PartialEq, Eq, Debug, Structural)]
pub enum Outcome {
    Continue,
    Quit,
    Save,
}

/// Whether the key is the character `c`.
pub open spec fn is_char(key: Key, c: char) -> bool {
    key == Key::Char(c)
}

impl AppView {
    /// The qubit beside the cursor: the next one where there is one, else
    /// the one before.
    pub open spec fn neighbour(self) -> usize {
        if self.cursor_qubit + 1 < self.dag.num_qubits {
            (self.cursor_qubit + 1) as usize
        } else if self.cursor_qubit == 0 {
            0
        } else {
            (self.cursor_qubit - 1) as usize
        }
    }

    /// This gate at the cursor: what the first node at the cursor's step on
    /// its qubit becomes as a gate.
    pub open spec fn gate_at_cursor(self) -> Option<GateView> {
        match first_at(self.dag.nodes, self.cursor_step, self.cursor_qubit) {
            Some(i) => Some(gate_of(self.dag.nodes[i])),
            None => None,
        }
    }

    /// The circuit without the first node at `step` that refers to `qubit`.
    pub open spec fn dag_without(self, step: int, qubit: usize) -> DagView {
        match first_at(self.dag.nodes, step, qubit) {
            Some(i) => self.dag.remove_node(self.dag.nodes[i].id),
            None => self.dag,
        }
    }

    /// The session with one qubit more.
    pub open spec fn grown(self) -> AppView {
        if self.dag.num_qubits < usize::MAX {
            (AppView { dag: self.dag.with_qubits(self.dag.num_qubits + 1), ..self }).synced()
        } else {
            self.synced()
        }
    }

    /// The session with one qubit less, and the cursor on a qubit that is
    /// left. A circuit of one qubit stays as it is.
    pub open spec fn shrunk(self) -> AppView {
        if self.dag.num_qubits > 1 {
            let dag = self.dag.without_last_qubit();
            (AppView {
                dag,
                cursor_qubit: if self.cursor_qubit >= dag.num_qubits {
                    (dag.num_qubits - 1) as usize
                } else {
                    self.cursor_qubit
                },
                ..self
            }).synced()
        } else {
            self
        }
    }

    /// What a key does while the keys act on the circuit.
    pub open spec fn on_circuit_key(self, key: Key, ctrl: bool) -> (AppView, Outcome) {
        if is_char(key, 'q') {
            (self, Outcome::Quit)
        } else if key == Key::Tab {
            (AppView { focus: Focus::Qasm, ..self }, Outcome::Continue)
        } else if is_char(key, 's') && ctrl {
            (self, Outcome::Save)
        } else if key == Key::Up || is_char(key, 'k') {
            (
                AppView {
                    cursor_qubit: if self.cursor_qubit > 0 {
                        (self.cursor_qubit - 1) as usize
                    } else {
                        self.cursor_qubit
                    },
                    ..self
                },
                Outcome::Continue,
            )
        } else if key == Key::Down || is_char(key, 'j') {
            (
                AppView {
                    cursor_qubit: if self.cursor_qubit + 1 < self.dag.num_qubits {
                        (self.cursor_qubit + 1) as usize
                    } else {
                        self.cursor_qubit
                    },
                    ..self
                },
                Outcome::Continue,
            )
        } else if key == Key::Left || is_char(key, 'h') {
            (
                AppView {
                    cursor_step: if self.cursor_step > 0 {
                        self.cursor_step - 1
                    } else {
                        self.cursor_step
                    },
                    ..self
                },
                Outcome::Continue,
            )
        } else if key == Key::Right || is_char(key, 'l') {
            (AppView { cursor_step: step_after(self.cursor_step), ..self }, Outcome::Continue)
        } else if is_char(key, '+') || is_char(key, '=') {
            (self.grown(), Outcome::Continue)
        } else if is_char(key, '-') {
            (self.shrunk(), Outcome::Continue)
        } else if is_char(key, 'a') {
            (AppView { focus: Focus::Menu, menu_cat: 0, menu_item: 0, ..self }, Outcome::Continue)
        } else if key == Key::Backspace || key == Key::Delete {
            (
                (AppView {
                    dag: self.dag_without(self.cursor_step, self.cursor_qubit),
                    ..self
                }).synced(),
                Outcome::Continue,
            )
        } else if is_char(key, 'e') {
            (
                match self.gate_at_cursor() {
                    Some(g) => AppView {
                        edit_gate: Some(g),
                        edit_menu_idx: 0,
                        edit_orig_step: self.cursor_step,
                        focus: Focus::EditGate,
                        ..self
                    },
                    None => self,
                },
                Outcome::Continue,
            )
        } else if is_char(key, 'v') {
            (AppView { show_statevector: !self.show_statevector, ..self }, Outcome::Continue)
        } else {
            (self, Outcome::Continue)
        }
    }

    /// What a key does while the keys act on the text.
    pub open spec fn on_qasm_key(self, key: Key) -> AppView {
        match key {
            Key::Tab => (AppView { focus: Focus::Circuit, ..self }).after_reading(),
            Key::Left => self.cursor_at(
                if self.qasm_cursor == 0 {
                    0
                } else {
                    self.qasm_cursor - 1
                },
            ),
            Key::Right => self.cursor_at(
                if self.qasm_cursor >= self.qasm_text.len() {
                    self.qasm_cursor as int
                } else {
                    self.qasm_cursor + 1
                },
            ),
            Key::Up => self.cursor_at(
                crate::editor::place_above(self.qasm_text, self.cursor_place()),
            ),
            Key::Down => self.cursor_at(
                crate::editor::place_below(self.qasm_text, self.cursor_place()),
            ),
            Key::Home => self.cursor_at(
                crate::editor::line_start(self.qasm_text, self.cursor_place()),
            ),
            Key::End => self.cursor_at(crate::editor::line_end(self.qasm_text, self.cursor_place())),
            Key::Backspace => self.backspaced().after_reading(),
            Key::Delete => self.deleted().after_reading(),
            Key::Enter => self.with_char('\n').after_reading(),
            Key::Char(c) => self.with_char(c).after_reading(),
            _ => self,
        }
    }
}

/// A node that a circuit has room for has every qubit below `usize::MAX`,
/// and so has what it becomes as a gate.
pub proof fn lemma_covered_gate_fits(n: NodeView, num_qubits: usize)
    requires
        n.qubits_needed() <= num_qubits,
    ensures
        gate_fits(gate_of(n)),
{
    lemma_past_all_max(n.controls);
}

impl App {
    /// What a key does while the keys act on the circuit.
    pub fn handle_circuit_keys(&mut self, key: Key, ctrl: bool) -> (r: Outcome)
        requires
            old(self).wf(),
        ensures
            final(self).wf(),
            old(self).dag@.built() ==> final(self).dag@.built(),
            (final(self)@, r) == old(self)@.on_circuit_key(key, ctrl),
    {
        match key {
            Key::Char('q') => {
                return Outcome::Quit;
            },
            Key::Tab => {
                self.focus = Focus::Qasm;
            },
            Key::Char('s') if ctrl => {
                return Outcome::Save;
            },
            Key::Up | Key::Char('k') => {
                if self.cursor_qubit > 0 {
                    self.cursor_qubit = self.cursor_qubit - 1;
                }
            },
            Key::Down | Key::Char('j') => {
                if self.cursor_qubit < usize::MAX && self.cursor_qubit + 1 < self.dag.num_qubits {
                    self.cursor_qubit = self.cursor_qubit + 1;
                }
            },
            Key::Left | Key::Char('h') => {
                if self.cursor_step > 0 {
                    self.cursor_step = self.cursor_step - 1;
                }
            },
            Key::Right | Key::Char('l') => {
                if self.cursor_step < isize::MAX {
                    self.cursor_step = self.cursor_step + 1;
                }
            },
            Key::Char('+') | Key::Char('=') => {
                if self.dag.num_qubits < usize::MAX {
                    let wanted = self.dag.num_qubits + 1;
                    self.dag.ensure_qubits(wanted);
                }
                self.sync_from_dag();
            },
            Key::Char('-') => {
                if self.dag.num_qubits > 1 {
                    self.dag.shrink_qubit();
                    if self.cursor_qubit >= self.dag.num_qubits {
                        self.cursor_qubit = self.dag.num_qubits - 1;
                    }
                    self.sync_from_dag();
                }
            },
            Key::Char('a') => {
                self.focus = Focus::Menu;
                self.menu_cat = 0;
                self.menu_item = 0;
            },
            Key::Backspace | Key::Delete => {
                self.dag.remove_node_at(self.cursor_step, self.cursor_qubit);
                self.sync_from_dag();
            },
            Key::Char('e') => {
                let found = self.dag.index_at(self.cursor_step, self.cursor_qubit);
                if let Some(i) = found {
                    let gate = gate_from_node(&self.dag.nodes[i]);
                    proof {
                        assert(self.dag@.nodes[i as int] == self.dag.nodes@[i as int]@);
                        lemma_covered_gate_fits(self.dag@.nodes[i as int], self.dag.num_qubits);
                    }
                    self.edit_gate = Some(gate);
                    self.edit_menu_idx = 0;
                    self.edit_orig_step = self.cursor_step;
                    self.focus = Focus::EditGate;
                }
            },
            Key::Char('v') => {
                self.show_statevector = !self.show_statevector;
            },
            _ => {},
        }
        Outcome::Continue
    }

    /// What a key does while the keys act on the text.
    pub fn handle_qasm_keys(&mut self, key: Key)
        requires
            old(self).wf(),
        ensures
            final(self).wf(),
            old(self).dag@.built() ==> final(self).dag@.built(),
            final(self)@ == old(self)@.on_qasm_key(key),
    {
        match key {
            Key::Tab => {
                self.focus = Focus::Circuit;
                self.parse_qasm_input();
            },
            Key::Left => self.qasm_move_left(),
            Key::Right => self.qasm_move_right(),
            Key::Up => self.qasm_move_up(),
            Key::Down => self.qasm_move_down(),
            Key::Home => self.qasm_move_home(),
            Key::End => self.qasm_move_end(),
            Key::Backspace => {
                self.qasm_backspace();
                self.parse_qasm_input();
            },
            Key::Delete => {
                self.qasm_delete_forward();
                self.parse_qasm_input();
            },
            Key::Enter => {
                self.qasm_insert_char('\n');
                self.parse_qasm_input();
            },
            Key::Char(c) => {
                self.qasm_insert_char(c);
                self.parse_qasm_input();
            },
            _ => {},
        }
    }
}

/// What is said where a parameter of a new gate does not read.
pub const BAD_PARAM: &'static str =
    "Invalid parameter — use numbers or pi expressions (e.g. pi/2, 3*pi/4)";

/// What is said where a parameter of a gate under edit does not read.
pub const BAD_EDIT_PARAM: &'static str = "Invalid parameter — use numbers or pi expressions";

/// The entry of the menu at a place, where there is one.
pub open spec fn menu_item_at(cat: usize, item: usize) -> Option<ItemView> {
    if cat < menu_entries().len() && item < menu_entries()[cat as int].items.len() {
        Some(menu_entries()[cat as int].items[item as int])
    } else {
        None
    }
}

/// `s` without its last character.
pub open spec fn without_last(s: Seq<char>) -> Seq<char> {
    if s.len() > 0 {
        s.drop_last()
    } else {
        s
    }
}

/// The qubits that the target of a new gate cannot be: the cursor's and
/// the controls chosen so far.
pub open spec fn taken_by_gate(a: AppView) -> Seq<usize> {
    seq![a.cursor_qubit] + a.control_qubits
}

/// The qubits that the target of a gate under edit cannot be: its
/// control and its controls.
pub open spec fn taken_by_controls(g: Option<GateView>) -> Seq<usize> {
    match g {
        Some(g) => (match g.control {
            Some(c) => seq![c],
            None => Seq::empty(),
        }) + g.controls,
        None => Seq::empty(),
    }
}

/// The qubits that the control under edit cannot be: the target of the
/// gate and its other controls.
pub open spec fn taken_by_others(g: Option<GateView>, which: Option<usize>) -> Seq<usize> {
    match g {
        Some(g) => seq![g.target] + (match which {
            Some(i) => if i < g.controls.len() {
                g.controls.remove(i as int)
            } else {
                g.controls
            },
            None => g.controls,
        }),
        None => Seq::empty(),
    }
}

impl AppView {
    /// The session with the qubit chosen moved to the next free one, up or
    /// down, where there is one.
    pub open spec fn target_moved(self, up: bool, excluded: Seq<usize>) -> AppView {
        match next_free(self.dag.num_qubits as usize, self.target_qubit, up, excluded) {
            Some(q) => AppView { target_qubit: q, ..self },
            None => self,
        }
    }

    /// The session after a target is asked for: back on the circuit where
    /// it has fewer than `least` qubits, else with the neighbour of the
    /// cursor chosen.
    pub open spec fn asking_target(self, least: nat, focus: Focus) -> AppView {
        if self.dag.num_qubits < least {
            AppView { focus: Focus::Circuit, ..self }
        } else {
            AppView { focus, target_qubit: self.neighbour(), ..self }
        }
    }

    /// The session after a gate of type `t` was to be placed: back on the
    /// circuit where it was placed.
    pub open spec fn place_and_return(self, t: Seq<char>, target: Option<usize>) -> AppView {
        let b = self.after_place(t, target);
        if self.placing(t, target) is Placed {
            AppView { focus: Focus::Circuit, ..b }
        } else {
            b
        }
    }

    /// The session after an entry of the menu was chosen.
    pub open spec fn chosen(self, it: ItemView) -> AppView {
        let a = AppView { pending_gate: it.gate_type, ..self };
        if takes_params(it.gate_type) {
            AppView { param_input: Seq::empty(), focus: Focus::InputParam, ..a }
        } else if it.gate_type == "CCX"@ {
            (AppView { control_qubits: Seq::empty(), ..a }).asking_target(3, Focus::SelectControls)
        } else if it.needs_target {
            a.asking_target(2, Focus::SelectTarget)
        } else {
            a.place_and_return(it.gate_type, None)
        }
    }

    /// What a key does while the keys act on the menu.
    pub open spec fn on_menu_key(self, key: Key) -> AppView {
        if key == Key::Esc {
            AppView { focus: Focus::Circuit, ..self }
        } else if key == Key::Up || is_char(key, 'k') {
            if self.menu_item > 0 {
                AppView { menu_item: (self.menu_item - 1) as usize, ..self }
            } else {
                self
            }
        } else if key == Key::Down || is_char(key, 'j') {
            if self.menu_cat < menu_entries().len() && self.menu_item + 1
                < menu_entries()[self.menu_cat as int].items.len() {
                AppView { menu_item: (self.menu_item + 1) as usize, ..self }
            } else {
                self
            }
        } else if key == Key::Left || is_char(key, 'h') {
            if self.menu_cat > 0 {
                AppView { menu_cat: (self.menu_cat - 1) as usize, menu_item: 0, ..self }
            } else {
                self
            }
        } else if key == Key::Right || is_char(key, 'l') {
            if self.menu_cat + 1 < menu_entries().len() {
                AppView { menu_cat: (self.menu_cat + 1) as usize, menu_item: 0, ..self }
            } else {
                self
            }
        } else if key == Key::Enter {
            match menu_item_at(self.menu_cat, self.menu_item) {
                Some(it) => self.chosen(it),
                None => self,
            }
        } else {
            self
        }
    }

    /// What a key does while a target is chosen.
    pub open spec fn on_select_target_key(self, key: Key) -> AppView {
        if key == Key::Esc {
            (AppView { focus: Focus::Circuit, ..self }).without_pending()
        } else if key == Key::Up || is_char(key, 'k') {
            self.target_moved(false, taken_by_gate(self))
        } else if key == Key::Down || is_char(key, 'j') {
            self.target_moved(true, taken_by_gate(self))
        } else if key == Key::Enter {
            self.place_and_return(self.pending_gate, Some(self.target_qubit))
        } else {
            self
        }
    }

    /// What a key does while controls are chosen.
    pub open spec fn on_select_controls_key(self, key: Key) -> AppView {
        if key == Key::Esc {
            (AppView { focus: Focus::Circuit, ..self }).without_pending()
        } else if key == Key::Up || is_char(key, 'k') {
            self.target_moved(false, seq![self.cursor_qubit])
        } else if key == Key::Down || is_char(key, 'j') {
            self.target_moved(true, seq![self.cursor_qubit])
        } else if key == Key::Enter {
            let controls = self.control_qubits.push(self.target_qubit);
            AppView {
                control_qubits: controls,
                focus: Focus::SelectTarget,
                target_qubit: match next_up(
                    self.dag.num_qubits as usize,
                    0,
                    seq![self.cursor_qubit] + controls,
                ) {
                    Some(q) => q,
                    None => self.target_qubit,
                },
                ..self
            }
        } else {
            self
        }
    }

    /// Whether the parameter typed is there and does not read.
    pub open spec fn bad_input(self) -> bool {
        self.param_input.len() > 0 && params_of_pieces(split(self.param_input, ',')) is None
    }

    /// What a key does while the parameter of a new gate is typed.
    pub open spec fn on_input_param_key(self, key: Key) -> AppView {
        match key {
            Key::Esc => AppView {
                focus: Focus::Circuit,
                param_input: Seq::empty(),
                pending_gate: Seq::empty(),
                ..self
            },
            Key::Backspace => AppView { param_input: without_last(self.param_input), ..self },
            Key::Enter => if self.bad_input() {
                AppView { status_msg: BAD_PARAM@, ..self }
            } else {
                match menu_item_at(self.menu_cat, self.menu_item) {
                    Some(it) => if it.needs_target {
                        self.asking_target(2, Focus::SelectTarget)
                    } else {
                        self.place_and_return(self.pending_gate, None)
                    },
                    None => self,
                }
            },
            Key::Char(c) => self.with_param_char(c),
            _ => self,
        }
    }

    /// The qubit that an entry for a control stands on.
    pub open spec fn control_of_entry(g: GateView, which: Option<usize>) -> usize {
        match which {
            None => match g.control {
                Some(c) => c,
                None => 0,
            },
            Some(i) => if i < g.controls.len() {
                g.controls[i as int]
            } else {
                0
            },
        }
    }

    /// The session after an entry of what can be done to a gate under
    /// edit was chosen.
    pub open spec fn entry_chosen(self, g: GateView, action: EditAction, which: Option<usize>)
        -> AppView {
        match action {
            EditAction::EditParam => AppView {
                param_input: Seq::empty(),
                focus: Focus::EditParam,
                ..self
            },
            EditAction::EditTarget => AppView {
                target_qubit: g.target,
                focus: Focus::EditTarget,
                ..self
            },
            EditAction::EditControl => AppView {
                edit_control_idx: which,
                target_qubit: Self::control_of_entry(g, which),
                focus: Focus::EditControl,
                ..self
            },
            EditAction::Delete => (AppView {
                dag: self.dag_without(self.edit_orig_step, g.target),
                edit_gate: None,
                focus: Focus::Circuit,
                ..self
            }).synced(),
        }
    }

    /// What a key does while a gate is under edit.
    pub open spec fn on_edit_gate_key(self, key: Key) -> AppView {
        match self.edit_gate {
            None => AppView { focus: Focus::Circuit, ..self },
            Some(g) => {
                let opts = edit_options(g);
                if key == Key::Esc {
                    AppView { focus: Focus::Circuit, edit_gate: None, ..self }
                } else if key == Key::Up || is_char(key, 'k') {
                    if self.edit_menu_idx > 0 {
                        AppView { edit_menu_idx: (self.edit_menu_idx - 1) as usize, ..self }
                    } else {
                        self
                    }
                } else if key == Key::Down || is_char(key, 'j') {
                    if self.edit_menu_idx + 1 < opts.len() {
                        AppView { edit_menu_idx: (self.edit_menu_idx + 1) as usize, ..self }
                    } else {
                        self
                    }
                } else if key == Key::Enter {
                    if self.edit_menu_idx < opts.len() {
                        self.entry_chosen(
                            g,
                            opts[self.edit_menu_idx as int].action,
                            opts[self.edit_menu_idx as int].ctrl_idx,
                        )
                    } else {
                        self
                    }
                } else {
                    self
                }
            },
        }
    }

    /// The session with the parameters of a gate under edit set.
    pub open spec fn with_edit_params(self, params: Seq<ParamView>) -> AppView {
        match self.edit_gate {
            Some(g) => AppView { edit_gate: Some(GateView { params, ..g }), ..self },
            None => self,
        }
    }

    /// What a key does while the parameter of a gate under edit is typed.
    pub open spec fn on_edit_param_key(self, key: Key) -> AppView {
        match key {
            Key::Esc => AppView { param_input: Seq::empty(), focus: Focus::EditGate, ..self },
            Key::Backspace => AppView { param_input: without_last(self.param_input), ..self },
            Key::Enter => if self.bad_input() {
                AppView { status_msg: BAD_EDIT_PARAM@, ..self }
            } else {
                let a = if self.param_input.len() > 0 {
                    self.with_edit_params(params_of_pieces(split(self.param_input, ','))->0)
                } else {
                    self
                };
                AppView {
                    focus: Focus::EditGate,
                    ..(AppView { param_input: Seq::empty(), ..a }).committed()
                }
            },
            Key::Char(c) => self.with_param_char(c),
            _ => self,
        }
    }

    /// The session after a gate under edit was moved to the qubit chosen
    /// and put back: the node on its old target is removed first.
    pub open spec fn retargeted(self) -> AppView {
        match self.edit_gate {
            Some(g) => AppView {
                focus: Focus::EditGate,
                ..(AppView {
                    dag: self.dag_without(self.edit_orig_step, g.target),
                    edit_gate: Some(GateView { target: self.target_qubit, ..g }),
                    ..self
                }).committed()
            },
            None => AppView { focus: Focus::EditGate, ..self },
        }
    }

    /// What a key does while the target of a gate under edit is chosen.
    pub open spec fn on_edit_target_key(self, key: Key) -> AppView {
        if key == Key::Esc {
            AppView { focus: Focus::EditGate, ..self }
        } else if key == Key::Up || is_char(key, 'k') {
            self.target_moved(false, taken_by_controls(self.edit_gate))
        } else if key == Key::Down || is_char(key, 'j') {
            self.target_moved(true, taken_by_controls(self.edit_gate))
        } else if key == Key::Enter {
            self.retargeted()
        } else {
            self
        }
    }

    /// The session after the control under edit was set to the qubit chosen
    /// and it was put back.
    pub open spec fn recontrolled(self) -> AppView {
        let a = match self.edit_gate {
            Some(g) => AppView {
                edit_gate: Some(
                    match self.edit_control_idx {
                        None => GateView { control: Some(self.target_qubit), ..g },
                        Some(i) => if i < g.controls.len() {
                            GateView { controls: g.controls.update(i as int, self.target_qubit), ..g }
                        } else {
                            g
                        },
                    },
                ),
                ..self
            },
            None => self,
        };
        AppView { focus: Focus::EditGate, ..a.committed() }
    }

    /// What a key does while a control of a gate under edit is chosen.
    pub open spec fn on_edit_control_key(self, key: Key) -> AppView {
        if key == Key::Esc {
            AppView { focus: Focus::EditGate, ..self }
        } else if key == Key::Up || is_char(key, 'k') {
            self.target_moved(false, taken_by_others(self.edit_gate, self.edit_control_idx))
        } else if key == Key::Down || is_char(key, 'j') {
            self.target_moved(true, taken_by_others(self.edit_gate, self.edit_control_idx))
        } else if key == Key::Enter {
            self.recontrolled()
        } else {
            self
        }
    }

    /// What a key does: the message is cleared; `c` with the control key
    /// leaves; any other key goes to what the keys act on.
    pub open spec fn on_key(self, key: Key, ctrl: bool) -> (AppView, Outcome) {
        let a = AppView { status_msg: Seq::empty(), ..self };
        if is_char(key, 'c') && ctrl {
            (a, Outcome::Quit)
        } else {
            match a.focus {
                Focus::Circuit => a.on_circuit_key(key, ctrl),
                Focus::Qasm => (a.on_qasm_key(key), Outcome::Continue),
                Focus::Menu => (a.on_menu_key(key), Outcome::Continue),
                Focus::SelectTarget => (a.on_select_target_key(key), Outcome::Continue),
                Focus::SelectControls => (a.on_select_controls_key(key), Outcome::Continue),
                Focus::InputParam => (a.on_input_param_key(key), Outcome::Continue),
                Focus::EditGate => (a.on_edit_gate_key(key), Outcome::Continue),
                Focus::EditParam => (a.on_edit_param_key(key), Outcome::Continue),
                Focus::EditTarget => (a.on_edit_target_key(key), Outcome::Continue),
                Focus::EditControl => (a.on_edit_control_key(key), Outcome::Continue),
            }
        }
    }
}

/// Takes the last character from `s`.
fn pop_char(s: &mut String)
    ensures
        final(s)@ == without_last(old(s)@),
{
    let v = chars_of(s.as_str());
    if v.len() > 0 {
        let mut w: Vec<char> = Vec::new();
        let mut i: usize = 0;
        while i < v.len() - 1
            invariant
                v.len() > 0,
                i <= v.len() - 1,
                w@ == v@.take(i as int),
            decreases v.len() - i,
        {
            w.push(v[i]);
            assert(v@.take(i as int).push(v@[i as int]) =~= v@.take(i + 1));
            i += 1;
        }
        assert(v@.take(v@.len() - 1) =~= v@.drop_last());
        *s = string_of(&w);
    }
}

impl App {
    fn neighbour(&self) -> (r: usize)
        requires
            self.cursor_qubit < usize::MAX,
        ensures
            r == self@.neighbour(),
            r < usize::MAX,
    {
        if self.cursor_qubit + 1 < self.dag.num_qubits {
            self.cursor_qubit + 1
        } else if self.cursor_qubit == 0 {
            0
        } else {
            self.cursor_qubit - 1
        }
    }

    fn ask_target(&mut self, least: usize, focus: Focus)
        requires
            old(self).wf(),
        ensures
            final(self).wf(),
            final(self).dag == old(self).dag,
            final(self)@ == old(self)@.asking_target(least as nat, focus),
    {
        if self.dag.num_qubits < least {
            self.focus = Focus::Circuit;
        } else {
            self.focus = focus;
            self.target_qubit = self.neighbour();
        }
    }

    fn place_then_return(&mut self, gate_type: &str, target: Option<usize>)
        requires
            old(self).wf(),
            target is Some ==> target->0 < usize::MAX,
        ensures
            final(self).wf(),
            old(self).dag@.built() ==> final(self).dag@.built(),
            final(self)@ == old(self)@.place_and_return(gate_type@, target),
    {
        if self.place_gate(gate_type, target) {
            self.focus = Focus::Circuit;
        }
    }

    fn move_target(&mut self, up: bool, excluded: &Vec<usize>)
        requires
            old(self).wf(),
        ensures
            final(self).wf(),
            final(self).dag == old(self).dag,
            final(self)@ == old(self)@.target_moved(up, excluded@),
    {
        let direction: isize = if up {
            1
        } else {
            -1
        };
        if let Some(next) = self.next_available_target(self.target_qubit, direction, excluded) {
            self.target_qubit = next;
        }
    }

    fn taken_for_gate(&self) -> (r: Vec<usize>)
        ensures
            r@ == taken_by_gate(self@),
    {
        let mut v: Vec<usize> = Vec::new();
        v.push(self.cursor_qubit);
        let mut i: usize = 0;
        while i < self.control_qubits.len()
            invariant
                i <= self.control_qubits.len(),
                v@ == seq![self.cursor_qubit] + self.control_qubits@.take(i as int),
            decreases self.control_qubits.len() - i,
        {
            v.push(self.control_qubits[i]);
            assert(v@ =~= seq![self.cursor_qubit] + self.control_qubits@.take(i + 1));
            i += 1;
        }
        assert(self.control_qubits@.take(i as int) =~= self.control_qubits@);
        v
    }

    /// What a key does while the keys act on the menu.
    pub fn handle_menu_keys(&mut self, key: Key)
        requires
            old(self).wf(),
        ensures
            final(self).wf(),
            old(self).dag@.built() ==> final(self).dag@.built(),
            final(self)@ == old(self)@.on_menu_key(key),
    {
        let menu = gate_menu();
        proof {
            assert(categories_of(menu@).len() == menu@.len());
            assert forall|c: int| 0 <= c < menu@.len() implies (#[trigger] menu@[c])@
                == menu_entries()[c] by {
                assert(categories_of(menu@)[c] == menu@[c]@);
            }
        }
        match key {
            Key::Esc => {
                self.focus = Focus::Circuit;
            },
            Key::Up | Key::Char('k') => {
                if self.menu_item > 0 {
                    self.menu_item = self.menu_item - 1;
                }
            },
            Key::Down | Key::Char('j') => {
                if self.menu_cat < menu.len() {
                    assert(menu@[self.menu_cat as int]@ == menu_entries()[self.menu_cat as int]);
                    let n = menu[self.menu_cat].items.len();
                    if self.menu_item < usize::MAX && self.menu_item + 1 < n {
                        self.menu_item = self.menu_item + 1;
                    }
                }
            },
            Key::Left | Key::Char('h') => {
                if self.menu_cat > 0 {
                    self.menu_cat = self.menu_cat - 1;
                    self.menu_item = 0;
                }
            },
            Key::Right | Key::Char('l') => {
                if self.menu_cat < usize::MAX && self.menu_cat + 1 < menu.len() {
                    self.menu_cat = self.menu_cat + 1;
                    self.menu_item = 0;
                }
            },
            Key::Enter => {
                if self.menu_cat < menu.len() {
                    assert(menu@[self.menu_cat as int]@ == menu_entries()[self.menu_cat as int]);
                    if self.menu_item < menu[self.menu_cat].items.len() {
                        let item = menu[self.menu_cat].items[self.menu_item];
                        assert(item@ == menu_entries()[self.menu_cat as int].items[self.menu_item as int]);
                        let gate_type = item.gate_type;
                        self.pending_gate = String::from_str(gate_type);
                        if is_parameterized_gate(gate_type) {
                            self.param_input = String::new();
                            self.focus = Focus::InputParam;
                        } else if same_text(gate_type, "CCX") {
                            self.control_qubits = Vec::new();
                            self.ask_target(3, Focus::SelectControls);
                        } else if item.needs_target {
                            self.ask_target(2, Focus::SelectTarget);
                        } else {
                            self.place_then_return(gate_type, None);
                        }
                    }
                }
            },
            _ => {},
        }
    }

    /// What a key does while a target is chosen.
    pub fn handle_select_target_keys(&mut self, key: Key)
        requires
            old(self).wf(),
        ensures
            final(self).wf(),
            old(self).dag@.built() ==> final(self).dag@.built(),
            final(self)@ == old(self)@.on_select_target_key(key),
    {
        match key {
            Key::Esc => {
                self.focus = Focus::Circuit;
                self.param_input = String::new();
                self.control_qubits = Vec::new();
                self.pending_gate = String::new();
            },
            Key::Up | Key::Char('k') => {
                let excluded = self.taken_for_gate();
                self.move_target(false, &excluded);
            },
            Key::Down | Key::Char('j') => {
                let excluded = self.taken_for_gate();
                self.move_target(true, &excluded);
            },
            Key::Enter => {
                let gate = self.pending_gate.clone();
                let target = self.target_qubit;
                self.place_then_return(gate.as_str(), Some(target));
            },
            _ => {},
        }
    }

    /// What a key does while controls are chosen.
    pub fn handle_select_controls_keys(&mut self, key: Key)
        requires
            old(self).wf(),
        ensures
            final(self).wf(),
            final(self).dag == old(self).dag,
            final(self)@ == old(self)@.on_select_controls_key(key),
    {
        match key {
            Key::Esc => {
                self.focus = Focus::Circuit;
                self.param_input = String::new();
                self.control_qubits = Vec::new();
                self.pending_gate = String::new();
            },
            Key::Up | Key::Char('k') => {
                let mut excluded: Vec<usize> = Vec::new();
                excluded.push(self.cursor_qubit);
                assert(excluded@ =~= seq![self.cursor_qubit]);
                self.move_target(false, &excluded);
            },
            Key::Down | Key::Char('j') => {
                let mut excluded: Vec<usize> = Vec::new();
                excluded.push(self.cursor_qubit);
                assert(excluded@ =~= seq![self.cursor_qubit]);
                self.move_target(true, &excluded);
            },
            Key::Enter => {
                self.control_qubits.push(self.target_qubit);
                self.focus = Focus::SelectTarget;
                let excluded = self.taken_for_gate();
                let nq = self.dag.num_qubits;
                let mut q: usize = 0;
                let mut found = false;
                while q < nq && !found
                    invariant
                        q <= nq,
                        nq == self.dag.num_qubits,
                        !found ==> next_up(nq, 0, excluded@) == next_up(nq, q as int, excluded@),
                        found ==> q < nq && next_up(nq, 0, excluded@) == Some(q),
                    decreases nq - q, !found as int,
                {
                    if !crate::node::has_index(&excluded, q) {
                        found = true;
                    } else {
                        q += 1;
                    }
                }
                if found {
                    self.target_qubit = q;
                }
            },
            _ => {},
        }
    }

    /// What a key does while the parameter of a new gate is typed.
    pub fn handle_input_param_keys(&mut self, key: Key)
        requires
            old(self).wf(),
        ensures
            final(self).wf(),
            old(self).dag@.built() ==> final(self).dag@.built(),
            final(self)@ == old(self)@.on_input_param_key(key),
    {
        match key {
            Key::Esc => {
                self.focus = Focus::Circuit;
                self.param_input = String::new();
                self.pending_gate = String::new();
            },
            Key::Backspace => {
                pop_char(&mut self.param_input);
            },
            Key::Enter => {
                if !self.param_input.as_str().is_empty() && parse_params(
                    self.param_input.as_str(),
                ).is_none() {
                    self.status_msg = String::from_str(BAD_PARAM);
                    return ;
                }
                let menu = gate_menu();
                assert(categories_of(menu@).len() == menu@.len());
                if self.menu_cat < menu.len() {
                    assert(categories_of(menu@)[self.menu_cat as int] == menu@[self.menu_cat as int]@);
                    if self.menu_item < menu[self.menu_cat].items.len() {
                        let item = menu[self.menu_cat].items[self.menu_item];
                        assert(item@ == menu_entries()[self.menu_cat as int].items[self.menu_item as int]);
                        if item.needs_target {
                            self.ask_target(2, Focus::SelectTarget);
                        } else {
                            let gate = self.pending_gate.clone();
                            self.place_then_return(gate.as_str(), None);
                        }
                    }
                }
            },
            Key::Char(c) => self.handle_char_input(c),
            _ => {},
        }
    }
}

impl App {
    fn taken_for_target(&self) -> (r: Vec<usize>)
        ensures
            r@ == taken_by_controls(self@.edit_gate),
    {
        let mut v: Vec<usize> = Vec::new();
        match &self.edit_gate {
            Some(g) => {
                if let Some(c) = g.control {
                    v.push(c);
                }
                let ghost head = v@;
                let mut i: usize = 0;
                while i < g.controls.len()
                    invariant
                        i <= g.controls.len(),
                        v@ == head + g.controls@.take(i as int),
                    decreases g.controls.len() - i,
                {
                    v.push(g.controls[i]);
                    assert(v@ =~= head + g.controls@.take(i + 1));
                    i += 1;
                }
                assert(g.controls@.take(i as int) =~= g.controls@);
                assert(v@ =~= taken_by_controls(self@.edit_gate));
            },
            None => {},
        }
        v
    }

    fn taken_for_control(&self) -> (r: Vec<usize>)
        ensures
            r@ == taken_by_others(self@.edit_gate, self.edit_control_idx),
    {
        let mut v: Vec<usize> = Vec::new();
        match &self.edit_gate {
            Some(g) => {
                v.push(g.target);
                let mut rest = clone_indices(&g.controls);
                if let Some(i) = self.edit_control_idx {
                    if i < rest.len() {
                        rest.remove(i);
                    }
                }
                let ghost others = rest@;
                let mut k: usize = 0;
                while k < rest.len()
                    invariant
                        k <= rest.len(),
                        rest@ == others,
                        v@ == seq![g.target] + others.take(k as int),
                    decreases rest.len() - k,
                {
                    v.push(rest[k]);
                    assert(v@ =~= seq![g.target] + others.take(k + 1));
                    k += 1;
                }
                assert(others.take(k as int) =~= others);
            },
            None => {},
        }
        v
    }

    /// Does what an entry of the list for a gate under edit stands for.
    fn choose_entry(&mut self, action: EditAction, which: Option<usize>)
        requires
            old(self).wf(),
            old(self).edit_gate is Some,
        ensures
            final(self).wf(),
            old(self).dag@.built() ==> final(self).dag@.built(),
            final(self)@ == old(self)@.entry_chosen(old(self)@.edit_gate->0, action, which),
    {
        let ghost g = self@.edit_gate->0;
        let (target, chosen) = match &self.edit_gate {
            Some(gate) => (
                gate.target,
                match which {
                    None => match gate.control {
                        Some(c) => c,
                        None => 0,
                    },
                    Some(i) => if i < gate.controls.len() {
                        gate.controls[i]
                    } else {
                        0
                    },
                },
            ),
            None => (0, 0),
        };
        proof {
            if which is Some && which->0 < g.controls.len() {
                assert(g.controls[which->0 as int] < usize::MAX);
            }
        }
        match action {
            EditAction::EditParam => {
                self.param_input = String::new();
                self.focus = Focus::EditParam;
            },
            EditAction::EditTarget => {
                self.target_qubit = target;
                self.focus = Focus::EditTarget;
            },
            EditAction::EditControl => {
                self.edit_control_idx = which;
                self.target_qubit = chosen;
                self.focus = Focus::EditControl;
            },
            EditAction::Delete => {
                self.dag.remove_node_at(self.edit_orig_step, target);
                self.edit_gate = None;
                self.focus = Focus::Circuit;
                self.sync_from_dag();
            },
        }
    }

    /// What a key does while a gate is under edit.
    pub fn handle_edit_gate_keys(&mut self, key: Key)
        requires
            old(self).wf(),
        ensures
            final(self).wf(),
            old(self).dag@.built() ==> final(self).dag@.built(),
            final(self)@ == old(self)@.on_edit_gate_key(key),
    {
        if self.edit_gate.is_none() {
            self.focus = Focus::Circuit;
            return ;
        }
        let opts = self.get_edit_options();
        let ghost g = self@.edit_gate->0;
        assert(options_of(opts@) == edit_options(g));
        assert(options_of(opts@).len() == opts@.len());
        match key {
            Key::Esc => {
                self.focus = Focus::Circuit;
                self.edit_gate = None;
                assert(self@ == old(self)@.on_edit_gate_key(key));
            },
            Key::Up | Key::Char('k') => {
                if self.edit_menu_idx > 0 {
                    self.edit_menu_idx = self.edit_menu_idx - 1;
                }
                assert(self@ == old(self)@.on_edit_gate_key(key));
            },
            Key::Down | Key::Char('j') => {
                if self.edit_menu_idx < usize::MAX && self.edit_menu_idx + 1 < opts.len() {
                    self.edit_menu_idx = self.edit_menu_idx + 1;
                }
                proof {
                    let a = old(self)@;
                    let expected = if a.edit_menu_idx + 1 < edit_options(g).len() {
                        AppView { edit_menu_idx: (a.edit_menu_idx + 1) as usize, ..a }
                    } else {
                        a
                    };
                    assert(edit_options(g).len() == opts@.len());
                    assert(opts.len() == opts@.len());
                    assert(self.edit_menu_idx == expected.edit_menu_idx);
                    assert(self@ == expected);
                    assert(a.on_edit_gate_key(key) == expected);
                }
            },
            Key::Enter => {
                if self.edit_menu_idx < opts.len() {
                    let action = opts[self.edit_menu_idx].action;
                    let which = opts[self.edit_menu_idx].ctrl_idx;
                    assert(options_of(opts@)[self.edit_menu_idx as int] == opts@[self.edit_menu_idx as int]@);
                    self.choose_entry(action, which);
                }
                assert(self@ == old(self)@.on_edit_gate_key(key));
            },
            _ => {
                assert(self@ == old(self)@.on_edit_gate_key(key));
            },
        }
    }

    /// What a key does while the parameter of a gate under edit is typed.
    pub fn handle_edit_param_keys(&mut self, key: Key)
        requires
            old(self).wf(),
        ensures
            final(self).wf(),
            old(self).dag@.built() ==> final(self).dag@.built(),
            final(self)@ == old(self)@.on_edit_param_key(key),
    {
        match key {
            Key::Esc => {
                self.param_input = String::new();
                self.focus = Focus::EditGate;
            },
            Key::Backspace => {
                pop_char(&mut self.param_input);
            },
            Key::Enter => {
                if !self.param_input.as_str().is_empty() {
                    match parse_params(self.param_input.as_str()) {
                        Some(params) => {
                            let mut taken: Option<Gate> = None;
                            core::mem::swap(&mut taken, &mut self.edit_gate);
                            match taken {
                                Some(g) => {
                                    let mut g = g;
                                    g.params = params;
                                    self.edit_gate = Some(g);
                                },
                                None => {},
                            }
                        },
                        None => {
                            self.status_msg = String::from_str(BAD_EDIT_PARAM);
                            return ;
                        },
                    }
                }
                self.param_input = String::new();
                self.commit_edit_to_dag();
                self.focus = Focus::EditGate;
            },
            Key::Char(c) => self.handle_char_input(c),
            _ => {},
        }
    }

    /// What a key does while the target of a gate under edit is chosen.
    pub fn handle_edit_target_keys(&mut self, key: Key)
        requires
            old(self).wf(),
        ensures
            final(self).wf(),
            old(self).dag@.built() ==> final(self).dag@.built(),
            final(self)@ == old(self)@.on_edit_target_key(key),
    {
        match key {
            Key::Esc => {
                self.focus = Focus::EditGate;
            },
            Key::Up | Key::Char('k') => {
                let excluded = self.taken_for_target();
                self.move_target(false, &excluded);
            },
            Key::Down | Key::Char('j') => {
                let excluded = self.taken_for_target();
                self.move_target(true, &excluded);
            },
            Key::Enter => {
                let mut taken: Option<Gate> = None;
                core::mem::swap(&mut taken, &mut self.edit_gate);
                match taken {
                    Some(g) => {
                        let mut g = g;
                        self.dag.remove_node_at(self.edit_orig_step, g.target);
                        g.target = self.target_qubit;
                        self.edit_gate = Some(g);
                        self.commit_edit_to_dag();
                    },
                    None => {},
                }
                self.focus = Focus::EditGate;
            },
            _ => {},
        }
    }

    /// What a key does while a control of a gate under edit is chosen.
    pub fn handle_edit_control_keys(&mut self, key: Key)
        requires
            old(self).wf(),
        ensures
            final(self).wf(),
            old(self).dag@.built() ==> final(self).dag@.built(),
            final(self)@ == old(self)@.on_edit_control_key(key),
    {
        match key {
            Key::Esc => {
                self.focus = Focus::EditGate;
            },
            Key::Up | Key::Char('k') => {
                let excluded = self.taken_for_control();
                self.move_target(false, &excluded);
            },
            Key::Down | Key::Char('j') => {
                let excluded = self.taken_for_control();
                self.move_target(true, &excluded);
            },
            Key::Enter => {
                let mut taken: Option<Gate> = None;
                core::mem::swap(&mut taken, &mut self.edit_gate);
                match taken {
                    Some(g) => {
                        let mut g = g;
                        match self.edit_control_idx {
                            None => {
                                g.control = Some(self.target_qubit);
                            },
                            Some(i) => {
                                if i < g.controls.len() {
                                    g.controls.set(i, self.target_qubit);
                                }
                            },
                        }
                        self.edit_gate = Some(g);
                    },
                    None => {},
                }
                self.commit_edit_to_dag();
                self.focus = Focus::EditGate;
            },
            _ => {},
        }
    }

    /// What a key does to the session, and what is to be done after it.
    pub fn handle_key(&mut self, key: Key, ctrl: bool) -> (r: Outcome)
        requires
            old(self).wf(),
        ensures
            final(self).wf(),
            old(self).dag@.built() ==> final(self).dag@.built(),
            (final(self)@, r) == old(self)@.on_key(key, ctrl),
    {
        self.status_msg = String::new();
        if ctrl {
            if let Key::Char(c) = key {
                if c == 'c' {
                    return Outcome::Quit;
                }
            }
        }
        match self.focus {
            Focus::Circuit => {
                return self.handle_circuit_keys(key, ctrl);
            },
            Focus::Qasm => self.handle_qasm_keys(key),
            Focus::Menu => self.handle_menu_keys(key),
            Focus::SelectTarget => self.handle_select_target_keys(key),
            Focus::SelectControls => self.handle_select_controls_keys(key),
            Focus::InputParam => self.handle_input_param_keys(key),
            Focus::EditGate => self.handle_edit_gate_keys(key),
            Focus::EditParam => self.handle_edit_param_keys(key),
            Focus::EditTarget => self.handle_edit_target_keys(key),
            Focus::EditControl => self.handle_edit_control_keys(key),
        }
        Outcome::Continue
    }
}

} // verus!
