//! The circuit as a flat list of gates, for readers that need no
//! dependencies.

use vstd::prelude::*;
use crate::dag::{max_step_of, CircuitDAG};
use crate::node::{clone_indices, has_index, DAGNode, NodeView};
use crate::params::{clone_params, params_of, ParamExpr, ParamView};
use crate::text::same_text;

verus! {

/// One gate of a flat circuit: a node without its id and dependencies, and
/// with a target in any case.
#[derive(Debug)]
pub struct Gate {
    pub step: isize,
    pub gate_type: String,
    pub target: usize,
    pub control: Option<usize>,
    pub controls: Vec<usize>,
    pub measure_source: Option<usize>,
    pub params: Vec<ParamExpr>,
    pub is_dagger: bool,
    pub is_reset: bool,
    pub is_noise: bool,
    pub noise_type: String,
    pub classical_control: Option<usize>,
}

/// The mathematical content of a [`Gate`].
pub ghost struct GateView {
    pub step: int,
    pub gate_type: Seq<char>,
    pub target: usize,
    pub control: Option<usize>,
    pub controls: Seq<usize>,
    pub measure_source: Option<usize>,
    pub params: Seq<ParamView>,
    pub is_dagger: bool,
    pub is_reset: bool,
    pub is_noise: bool,
    pub noise_type: Seq<char>,
    pub classical_control: Option<usize>,
}

impl View for Gate {
    type V = GateView;

    open spec fn view(&self) -> GateView {
        GateView {
            step: self.step as int,
            gate_type: self.gate_type@,
            target: self.target,
            control: self.control,
            controls: self.controls@,
            measure_source: self.measure_source,
            params: params_of(self.params@),
            is_dagger: self.is_dagger,
            is_reset: self.is_reset,
            is_noise: self.is_noise,
            noise_type: self.noise_type@,
            classical_control: self.classical_control,
        }
    }
}

impl Clone for Gate {
    fn clone(&self) -> (r: Self)
        ensures
            r@ == self@,
    {
        Gate {
            step: self.step,
            gate_type: self.gate_type.clone(),
            target: self.target,
            control: self.control,
            controls: clone_indices(&self.controls),
            measure_source: self.measure_source,
            params: clone_params(&self.params),
            is_dagger: self.is_dagger,
            is_reset: self.is_reset,
            is_noise: self.is_noise,
            noise_type: self.noise_type.clone(),
            classical_control: self.classical_control,
        }
    }
}

impl GateView {
    /// Whether this gate refers to qubit `q`.
    pub open spec fn touches(self, q: usize) -> bool {
        self.target == q || self.control == Some(q) || self.measure_source == Some(q)
            || self.controls.contains(q)
    }

    /// Whether this gate is at `step` and refers to qubit `q`.
    pub open spec fn is_at(self, step: int, q: usize) -> bool {
        self.step == step && self.touches(q)
    }

    /// Whether this gate is a barrier at `step`.
    pub open spec fn is_barrier_at(self, step: int) -> bool {
        self.step == step && self.gate_type == "BARRIER"@
    }

    /// The qubit that this gate measures: its target for a measurement, else
    /// its measurement source.
    pub open spec fn measured(self) -> Option<usize> {
        if self.gate_type == "MEASURE"@ {
            Some(self.target)
        } else {
            self.measure_source
        }
    }

    /// The smallest of the target and the qubits in `qs`.
    pub open spec fn low(self, qs: Seq<usize>) -> usize
        decreases qs.len(),
    {
        if qs.len() == 0 {
            self.target
        } else if qs.last() < self.low(qs.drop_last()) {
            qs.last()
        } else {
            self.low(qs.drop_last())
        }
    }

    /// The largest of the target and the qubits in `qs`.
    pub open spec fn high(self, qs: Seq<usize>) -> usize
        decreases qs.len(),
    {
        if qs.len() == 0 {
            self.target
        } else if qs.last() > self.high(qs.drop_last()) {
            qs.last()
        } else {
            self.high(qs.drop_last())
        }
    }

    /// The qubits that this gate joins beside its target: its controls where
    /// it has any, else its control, else its measurement source; `None`
    /// where it has none of these.
    pub open spec fn partners(self) -> Option<Seq<usize>> {
        if self.controls.len() > 0 {
            Some(self.controls)
        } else if self.control is Some {
            Some(seq![self.control->0])
        } else if self.measure_source is Some {
            Some(seq![self.measure_source->0])
        } else {
            None
        }
    }

    /// Whether this gate, at `step`, spans qubit `q` with a qubit of its own
    /// above `q`.
    pub open spec fn reaches_above(self, step: int, q: usize) -> bool {
        self.step == step && self.partners() is Some && self.low(self.partners()->0) < q <= self.high(
            self.partners()->0,
        )
    }

    /// Whether this gate, at `step`, spans qubit `q` with a qubit of its own
    /// below `q`.
    pub open spec fn reaches_below(self, step: int, q: usize) -> bool {
        self.step == step && self.partners() is Some && self.low(self.partners()->0) <= q < self.high(
            self.partners()->0,
        )
    }
}

/// What a node becomes as a gate: the node's fields, with target 0 where the
/// node has none.
pub open spec fn gate_of(n: NodeView) -> GateView {
    GateView {
        step: n.step,
        gate_type: n.gate_type,
        target: match n.target {
            Some(t) => t,
            None => 0,
        },
        control: n.control,
        controls: n.controls,
        measure_source: n.measure_source,
        params: n.params,
        is_dagger: n.is_dagger,
        is_reset: n.is_reset,
        is_noise: n.is_noise,
        noise_type: n.noise_type,
        classical_control: n.classical_control,
    }
}

/// The contents of a vector of gates.
pub open spec fn gates_of(v: Seq<Gate>) -> Seq<GateView> {
    v.map_values(|g: Gate| g@)
}

/// A flat circuit: its gates, the number of its qubits and its last step.
#[derive(Debug)]
pub struct Circuit {
    pub num_qubits: usize,
    pub gates: Vec<Gate>,
    pub max_steps: usize,
}

/// The mathematical content of a [`Circuit`].
pub ghost struct CircuitView {
    pub num_qubits: nat,
    pub gates: Seq<GateView>,
    pub max_steps: nat,
}

impl View for Circuit {
    type V = CircuitView;

    open spec fn view(&self) -> CircuitView {
        CircuitView {
            num_qubits: self.num_qubits as nat,
            gates: gates_of(self.gates@),
            max_steps: self.max_steps as nat,
        }
    }
}

impl Clone for Circuit {
    fn clone(&self) -> (r: Self)
        ensures
            r@ == self@,
    {
        let mut gates: Vec<Gate> = Vec::new();
        let mut i: usize = 0;
        while i < self.gates.len()
            invariant
                i <= self.gates.len(),
                gates_of(gates@) == gates_of(self.gates@.take(i as int)),
            decreases self.gates.len() - i,
        {
            let ghost g0 = gates@;
            let g = self.gates[i].clone();
            gates.push(g);
            assert(gates_of(gates@) =~= gates_of(g0).push(g@));
            assert(gates_of(self.gates@.take(i + 1)) =~= gates_of(self.gates@.take(i as int)).push(
                self.gates@[i as int]@,
            ));
            i += 1;
        }
        assert(self.gates@.take(i as int) =~= self.gates@);
        Circuit { num_qubits: self.num_qubits, gates, max_steps: self.max_steps }
    }
}

/// What is drawn in one cell of the circuit, at one step on one qubit.
#[derive(Debug)]
pub struct CellInfo {
    pub gate: Option<Gate>,
    pub is_control: bool,
    pub is_target: bool,
    pub vert_above: bool,
    pub vert_below: bool,
    pub pass_through: bool,
    pub measure_below: bool,
    pub is_barrier: bool,
}

/// The place of the first gate that passes the test.
pub open spec fn first_gate(gates: Seq<GateView>, test: spec_fn(GateView) -> bool) -> Option<int>
    decreases gates.len(),
{
    if gates.len() == 0 {
        None
    } else if test(gates[0]) {
        Some(0)
    } else {
        match first_gate(gates.drop_first(), test) {
            Some(i) => Some(i + 1),
            None => None,
        }
    }
}

/// The test that a gate is at `step` and refers to qubit `q`.
pub open spec fn at_cell(step: int, q: usize) -> spec_fn(GateView) -> bool {
    |g: GateView| g.is_at(step, q)
}

/// The test that a gate is a barrier at `step`.
pub open spec fn barrier_in(step: int) -> spec_fn(GateView) -> bool {
    |g: GateView| g.is_barrier_at(step)
}

/// The test that a gate at `step` measures a qubit.
pub open spec fn measures_in(step: int) -> spec_fn(GateView) -> bool {
    |g: GateView| g.step == step && g.measured() is Some
}

/// The test that a gate stays when the cell at `step` on qubit `q` is
/// cleared: it is at another step, or is no barrier and does not refer to
/// `q`.
pub open spec fn stays(step: int, q: usize) -> spec_fn(GateView) -> bool {
    |g: GateView| !(g.step == step && (g.gate_type == "BARRIER"@ || g.touches(q)))
}

/// One more than the largest qubit that a gate of `gates` measures, 0 where
/// none measures.
pub open spec fn cbits_of(gates: Seq<GateView>) -> nat
    decreases gates.len(),
{
    if gates.len() == 0 {
        0
    } else {
        let m = cbits_of(gates.drop_last());
        let g = gates.last();
        let a = if g.gate_type == "MEASURE"@ && g.target + 1 > m {
            (g.target + 1) as nat
        } else {
            m
        };
        if g.measure_source is Some && g.measure_source->0 + 1 > a {
            (g.measure_source->0 + 1) as nat
        } else {
            a
        }
    }
}

impl CircuitView {
    /// Every qubit that a gate measures is below `usize::MAX`.
    pub open spec fn fits(self) -> bool {
        cbits_of(self.gates) <= usize::MAX
    }

    /// What is drawn at `step` on qubit `q`.
    pub open spec fn cell(self, step: int, q: usize) -> CellView {
        let own = first_gate(self.gates, at_cell(step, q));
        let bar = first_gate(self.gates, barrier_in(step));
        let shown = if own is Some {
            own
        } else {
            bar
        };
        CellView {
            gate: match shown {
                Some(i) => Some(self.gates[i]),
                None => None,
            },
            is_control: own is Some && (self.gates[own->0].control == Some(q)
                || self.gates[own->0].controls.contains(q)),
            is_target: own is Some && self.gates[own->0].target == q && (self.gates[own->0].control
                is Some || self.gates[own->0].controls.len() > 0),
            vert_above: exists|i: int|
                0 <= i < self.gates.len() && (#[trigger] self.gates[i]).reaches_above(step, q),
            vert_below: exists|i: int|
                0 <= i < self.gates.len() && (#[trigger] self.gates[i]).reaches_below(step, q),
            pass_through: shown is None && exists|i: int|
                0 <= i < self.gates.len() && (#[trigger] self.gates[i]).reaches_above(step, q)
                    && self.gates[i].reaches_below(step, q),
            measure_below: exists|i: int|
                0 <= i < self.gates.len() && (#[trigger] self.gates[i]).step == step
                    && self.gates[i].measured() is Some && self.gates[i].measured()->0 < q,
            is_barrier: bar is Some,
        }
    }
}

/// The mathematical content of a [`CellInfo`].
pub ghost struct CellView {
    pub gate: Option<GateView>,
    pub is_control: bool,
    pub is_target: bool,
    pub vert_above: bool,
    pub vert_below: bool,
    pub pass_through: bool,
    pub measure_below: bool,
    pub is_barrier: bool,
}

impl View for CellInfo {
    type V = CellView;

    open spec fn view(&self) -> CellView {
        CellView {
            gate: match self.gate {
                Some(g) => Some(g@),
                None => None,
            },
            is_control: self.is_control,
            is_target: self.is_target,
            vert_above: self.vert_above,
            vert_below: self.vert_below,
            pass_through: self.pass_through,
            measure_below: self.measure_below,
            is_barrier: self.is_barrier,
        }
    }
}

impl Gate {
    /// Whether this gate refers to qubit `qubit` as target, control, one of
    /// its controls or measurement source.
    pub fn references(&self, qubit: usize) -> (r: bool)
        ensures
            r == self@.touches(qubit),
    {
        if self.target == qubit || self.control == Some(qubit) || self.measure_source == Some(
            qubit,
        ) {
            return true;
        }
        has_index(&self.controls, qubit)
    }

    /// The qubit that this gate measures.
    pub fn measured(&self) -> (r: Option<usize>)
        ensures
            r == self@.measured(),
    {
        if same_text(self.gate_type.as_str(), "MEASURE") {
            Some(self.target)
        } else {
            self.measure_source
        }
    }

    /// The smallest and the largest of the target and the qubits in `qs`.
    fn span(&self, qs: &Vec<usize>) -> (r: (usize, usize))
        ensures
            r.0 == self@.low(qs@),
            r.1 == self@.high(qs@),
    {
        let mut lo = self.target;
        let mut hi = self.target;
        let mut i: usize = 0;
        while i < qs.len()
            invariant
                i <= qs.len(),
                lo == self@.low(qs@.take(i as int)),
                hi == self@.high(qs@.take(i as int)),
            decreases qs.len() - i,
        {
            assert(qs@.take(i + 1).drop_last() =~= qs@.take(i as int));
            if qs[i] < lo {
                lo = qs[i];
            }
            if qs[i] > hi {
                hi = qs[i];
            }
            i += 1;
        }
        assert(qs@.take(i as int) =~= qs@);
        (lo, hi)
    }

    /// The smallest and the largest qubit that this gate joins, where it
    /// joins its target with others.
    pub fn extent(&self) -> (r: Option<(usize, usize)>)
        ensures
            match self@.partners() {
                Some(qs) => r == Some((self@.low(qs), self@.high(qs))),
                None => r is None,
            },
    {
        if self.controls.len() > 0 {
            Some(self.span(&self.controls))
        } else if let Some(c) = self.control {
            let mut qs: Vec<usize> = Vec::new();
            qs.push(c);
            assert(qs@ =~= seq![c]);
            Some(self.span(&qs))
        } else if let Some(m) = self.measure_source {
            let mut qs: Vec<usize> = Vec::new();
            qs.push(m);
            assert(qs@ =~= seq![m]);
            Some(self.span(&qs))
        } else {
            None
        }
    }
}

/// What a node becomes as a gate.
pub fn gate_from_node(n: &DAGNode) -> (r: Gate)
    ensures
        r@ == gate_of(n@),
{
    Gate {
        step: n.step,
        gate_type: n.gate_type.clone(),
        target: match n.target {
            Some(t) => t,
            None => 0,
        },
        control: n.control,
        controls: clone_indices(&n.controls),
        measure_source: n.measure_source,
        params: clone_params(&n.params),
        is_dagger: n.is_dagger,
        is_reset: n.is_reset,
        is_noise: n.is_noise,
        noise_type: n.noise_type.clone(),
        classical_control: n.classical_control,
    }
}

impl CircuitDAG {
    /// The circuit as a flat list: one gate per node, in the order of the
    /// nodes, and the largest step, 0 where it is negative.
    pub fn to_circuit(&self) -> (r: Circuit)
        ensures
            r@.num_qubits == self@.num_qubits,
            r@.gates == self@.nodes.map_values(|n: NodeView| gate_of(n)),
            r@.max_steps == if max_step_of(self@.nodes) >= 0 {
                max_step_of(self@.nodes)
            } else {
                0
            },
    {
        let top = self.max_step();
        let mut gates: Vec<Gate> = Vec::new();
        let mut i: usize = 0;
        let ghost all = self@.nodes;
        while i < self.nodes.len()
            invariant
                i <= self.nodes.len(),
                all == self@.nodes,
                gates_of(gates@) == all.take(i as int).map_values(|n: NodeView| gate_of(n)),
            decreases self.nodes.len() - i,
        {
            let n = &self.nodes[i];
            assert(all[i as int] == n@);
            let gate = gate_from_node(n);
            let ghost g0 = gates@;
            gates.push(gate);
            assert(gates_of(gates@) =~= gates_of(g0).push(gate_of(n@)));
            assert(all.take(i + 1).map_values(|n: NodeView| gate_of(n)) =~= all.take(
                i as int,
            ).map_values(|n: NodeView| gate_of(n)).push(gate_of(all[i as int])));
            i += 1;
        }
        assert(all.take(i as int) =~= all);
        Circuit {
            num_qubits: self.num_qubits,
            gates,
            max_steps: if top >= 0 {
                top as usize
            } else {
                0
            },
        }
    }
}

impl Circuit {
    /// The place of the first gate at `step` that refers to `qubit`.
    fn find_at(&self, step: isize, qubit: usize) -> (r: Option<usize>)
        ensures
            first_gate(self@.gates, at_cell(step as int, qubit)) == match r {
                Some(i) => Some(i as int),
                None => None,
            },
            r is Some ==> r->0 < self.gates.len(),
    {
        let mut i: usize = 0;
        let ghost all = self@.gates;
        let ghost test = at_cell(step as int, qubit);
        assert(all.skip(0) =~= all);
        while i < self.gates.len()
            invariant
                i <= self.gates.len(),
                all == self@.gates,
                test == at_cell(step as int, qubit),
                first_gate(all, test) == match first_gate(all.skip(i as int), test) {
                    Some(k) => Some(k + i),
                    None => None,
                },
            decreases self.gates.len() - i,
        {
            assert(all.skip(i as int)[0] == all[i as int]);
            assert(all[i as int] == self.gates@[i as int]@);
            if self.gates[i].step == step && self.gates[i].references(qubit) {
                return Some(i);
            }
            assert(all.skip(i as int).drop_first() =~= all.skip(i + 1));
            i += 1;
        }
        None
    }

    /// The place of the first barrier at `step`.
    fn find_barrier(&self, step: isize) -> (r: Option<usize>)
        ensures
            first_gate(self@.gates, barrier_in(step as int)) == match r {
                Some(i) => Some(i as int),
                None => None,
            },
            r is Some ==> r->0 < self.gates.len(),
    {
        let mut i: usize = 0;
        let ghost all = self@.gates;
        let ghost test = barrier_in(step as int);
        assert(all.skip(0) =~= all);
        while i < self.gates.len()
            invariant
                i <= self.gates.len(),
                all == self@.gates,
                test == barrier_in(step as int),
                first_gate(all, test) == match first_gate(all.skip(i as int), test) {
                    Some(k) => Some(k + i),
                    None => None,
                },
            decreases self.gates.len() - i,
        {
            assert(all.skip(i as int)[0] == all[i as int]);
            assert(all[i as int] == self.gates@[i as int]@);
            if self.gates[i].step == step && same_text(self.gates[i].gate_type.as_str(), "BARRIER") {
                return Some(i);
            }
            assert(all.skip(i as int).drop_first() =~= all.skip(i + 1));
            i += 1;
        }
        None
    }

    /// The number of classical bits that the measurements of the circuit
    /// write: one more than the largest qubit measured, 0 where none is.
    pub fn num_cbits(&self) -> (r: usize)
        requires
            self@.fits(),
        ensures
            r == cbits_of(self@.gates),
    {
        let mut m: usize = 0;
        let mut i: usize = 0;
        let ghost all = self@.gates;
        proof {
            lemma_cbits_prefix(all, 0);
        }
        while i < self.gates.len()
            invariant
                i <= self.gates.len(),
                all == self@.gates,
                cbits_of(all) <= usize::MAX,
                m == cbits_of(all.take(i as int)),
            decreases self.gates.len() - i,
        {
            proof {
                assert(all.take(i + 1).drop_last() =~= all.take(i as int));
                assert(all[i as int] == self.gates@[i as int]@);
                lemma_cbits_prefix(all, i + 1);
            }
            let g = &self.gates[i];
            if same_text(g.gate_type.as_str(), "MEASURE") && g.target >= m {
                m = g.target + 1;
            }
            if let Some(s) = g.measure_source {
                if s >= m {
                    m = s + 1;
                }
            }
            i += 1;
        }
        assert(all.take(i as int) =~= all);
        m
    }

    /// The qubit measured at `step`: that of the first gate there that
    /// measures one.
    pub fn get_measure_at_step(&self, step: isize) -> (r: Option<usize>)
        ensures
            r == match first_gate(self@.gates, measures_in(step as int)) {
                Some(i) => self@.gates[i].measured(),
                None => None,
            },
    {
        let mut i: usize = 0;
        let ghost all = self@.gates;
        let ghost test = measures_in(step as int);
        assert(all.skip(0) =~= all);
        while i < self.gates.len()
            invariant
                i <= self.gates.len(),
                all == self@.gates,
                test == measures_in(step as int),
                first_gate(all, test) == match first_gate(all.skip(i as int), test) {
                    Some(k) => Some(k + i),
                    None => None,
                },
            decreases self.gates.len() - i,
        {
            assert(all.skip(i as int)[0] == all[i as int]);
            assert(all[i as int] == self.gates@[i as int]@);
            if self.gates[i].step == step {
                let m = self.gates[i].measured();
                if m.is_some() {
                    return m;
                }
            }
            assert(all.skip(i as int).drop_first() =~= all.skip(i + 1));
            i += 1;
        }
        None
    }

    /// The first gate at `step` that refers to `qubit`.
    pub fn get_gate_at(&self, step: isize, qubit: usize) -> (r: Option<&Gate>)
        ensures
            match first_gate(self@.gates, at_cell(step as int, qubit)) {
                Some(i) => r is Some && r->0@ == self@.gates[i],
                None => r is None,
            },
    {
        match self.find_at(step, qubit) {
            Some(i) => {
                let g = &self.gates[i];
                assert(self@.gates[i as int] == g@);
                Some(g)
            },
            None => None,
        }
    }

    /// Clears the cell at `step` on `qubit`: removes every gate at `step`
    /// that refers to `qubit`, and every barrier at `step`.
    pub fn remove_gate_at(&mut self, step: isize, qubit: usize)
        ensures
            final(self)@.gates == old(self)@.gates.filter(stays(step as int, qubit)),
            final(self).num_qubits == old(self).num_qubits,
            final(self).max_steps == old(self).max_steps,
    {
        let mut taken: Vec<Gate> = Vec::new();
        core::mem::swap(&mut taken, &mut self.gates);
        let mut kept: Vec<Gate> = Vec::new();
        let ghost all = gates_of(taken@);
        let ghost test = stays(step as int, qubit);
        assert(all.take(0).filter(test) =~= Seq::empty()) by {
            reveal(Seq::filter);
        }
        for g in it: taken
            invariant
                it.seq() == taken@,
                all == gates_of(taken@),
                test == stays(step as int, qubit),
                gates_of(kept@) == all.take(it.index() as int).filter(test),
        {
            let ghost i = it.index() as int;
            let ghost k0 = kept@;
            let ghost prev = all.take(i);
            proof {
                assert(all.take(i + 1) =~= prev.push(g@));
                prev.lemma_filter_push(g@, test);
            }
            if !(g.step == step && (same_text(g.gate_type.as_str(), "BARRIER") || g.references(
                qubit,
            ))) {
                kept.push(g);
                assert(gates_of(kept@) =~= gates_of(k0).push(g@));
            }
        }
        assert(all.take(taken@.len() as int) =~= all);
        self.gates = kept;
    }

    /// What is drawn at `step` on `qubit`: a gate that is there, or the barrier of
    /// the step; whether the qubit is a control or the target of a gate
    /// with controls; whether a gate of the step reaches over the cell from
    /// above, from below, or passes through it; whether a measurement of the
    /// step on a qubit above reaches down through it; whether the step has a
    /// barrier.
    pub fn get_cell_info(&self, step: isize, qubit: usize) -> (r: CellInfo)
        ensures
            r@ == self@.cell(step as int, qubit),
    {
        let own = self.find_at(step, qubit);
        let bar = self.find_barrier(step);
        let mut is_control = false;
        let mut is_target = false;
        let mut gate: Option<Gate> = None;
        if let Some(i) = own {
            let g = &self.gates[i];
            assert(self@.gates[i as int] == g@);
            is_control = g.control == Some(qubit) || has_index(&g.controls, qubit);
            is_target = g.target == qubit && (g.control.is_some() || g.controls.len() > 0);
            gate = Some(g.clone());
        } else if let Some(i) = bar {
            assert(self@.gates[i as int] == self.gates@[i as int]@);
            gate = Some(self.gates[i].clone());
        }
        let shown = gate.is_some();
        let mut vert_above = false;
        let mut vert_below = false;
        let mut through = false;
        let mut measure_below = false;
        let mut i: usize = 0;
        let ghost all = self@.gates;
        let ghost s = step as int;
        while i < self.gates.len()
            invariant
                i <= self.gates.len(),
                all == self@.gates,
                s == step as int,
                vert_above == exists|k: int|
                    0 <= k < i && (#[trigger] all[k]).reaches_above(s, qubit),
                vert_below == exists|k: int|
                    0 <= k < i && (#[trigger] all[k]).reaches_below(s, qubit),
                through == exists|k: int|
                    0 <= k < i && (#[trigger] all[k]).reaches_above(s, qubit) && all[k].reaches_below(
                        s,
                        qubit,
                    ),
                measure_below == exists|k: int|
                    0 <= k < i && (#[trigger] all[k]).step == s && all[k].measured() is Some
                        && all[k].measured()->0 < qubit,
            decreases self.gates.len() - i,
        {
            let g = &self.gates[i];
            assert(all[i as int] == g@);
            let ghost va = vert_above;
            let ghost vb = vert_below;
            let ghost th = through;
            let ghost mb = measure_below;
            if g.step == step {
                if let Some(e) = g.extent() {
                    if qubit > e.0 && qubit <= e.1 {
                        vert_above = true;
                    }
                    if qubit >= e.0 && qubit < e.1 {
                        vert_below = true;
                    }
                    if qubit > e.0 && qubit < e.1 {
                        through = true;
                    }
                }
                if let Some(m) = g.measured() {
                    if qubit > m {
                        measure_below = true;
                    }
                }
            }
            proof {
                let a = all[i as int].reaches_above(s, qubit);
                let b = all[i as int].reaches_below(s, qubit);
                let m = all[i as int].step == s && all[i as int].measured() is Some
                    && all[i as int].measured()->0 < qubit;
                assert(vert_above == (va || a));
                assert(vert_below == (vb || b));
                assert(through == (th || (a && b)));
                assert(measure_below == (mb || m));
            }
            i += 1;
        }
        CellInfo {
            gate,
            is_control,
            is_target,
            vert_above,
            vert_below,
            pass_through: through && !shown,
            measure_below,
            is_barrier: bar.is_some(),
        }
    }
}

proof fn lemma_cbits_prefix(gates: Seq<GateView>, k: int)
    requires
        0 <= k <= gates.len(),
    ensures
        cbits_of(gates.take(k)) <= cbits_of(gates),
    decreases gates.len() - k,
{
    if k < gates.len() {
        lemma_cbits_prefix(gates, k + 1);
        assert(gates.take(k + 1).drop_last() =~= gates.take(k));
    } else {
        assert(gates.take(k) =~= gates);
    }
}

} // verus!
