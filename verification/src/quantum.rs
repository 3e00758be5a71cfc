//! What a simulation of a circuit applies to the state, gate by gate.

use vstd::prelude::*;
use crate::circuit::{Circuit, CircuitView, Gate, GateView};
use crate::order::{insert_by_step, ints_of, sort_by_step, sorted_by_step};
use crate::params::{ParamExpr, ParamView};
use crate::text::same_text;

verus! {

/// The operations on the state that a simulation knows.
#[derive(Clone, Copy, PartialEq, Eq, Debug, Structural)]
pub enum GateKind {
    H,
    X,
    Y,
    Z,
    S,
    Sdg,
    T,
    Tdg,
    Rx,
    Ry,
    Rz,
    Cx,
    Cz,
    Swap,
    Reset,
}

/// One operation on the state: its kind, the qubit it acts on, the control
/// for an operation on two qubits, the angle of a rotation, and whether the
/// rotation runs backwards, by the negated angle.
#[derive(Debug)]
pub struct SimOp {
    pub kind: GateKind,
    pub target: usize,
    pub control: Option<usize>,
    pub angle: Option<ParamExpr>,
    pub inverse: bool,
}

/// The mathematical content of a [`SimOp`].
pub ghost struct OpView {
    pub kind: GateKind,
    pub target: usize,
    pub control: Option<usize>,
    pub angle: Option<ParamView>,
    pub inverse: bool,
}

impl View for SimOp {
    type V = OpView;

    open spec fn view(&self) -> OpView {
        OpView {
            kind: self.kind,
            target: self.target,
            control: self.control,
            angle: match self.angle {
                Some(p) => Some(p@),
                None => None,
            },
            inverse: self.inverse,
        }
    }
}

/// The operations of a simulation, in order, and the number of qubits of
/// the state.
#[derive(Debug)]
pub struct SimPlan {
    pub num_qubits: usize,
    pub ops: Vec<SimOp>,
}

/// The mathematical content of a [`SimPlan`].
pub ghost struct PlanView {
    pub num_qubits: nat,
    pub ops: Seq<OpView>,
}

/// The contents of a vector of operations.
pub open spec fn ops_of(v: Seq<SimOp>) -> Seq<OpView> {
    v.map_values(|o: SimOp| o@)
}

impl View for SimPlan {
    type V = PlanView;

    open spec fn view(&self) -> PlanView {
        PlanView { num_qubits: self.num_qubits as nat, ops: ops_of(self.ops@) }
    }
}

/// The operation that a gate type stands for; none for a type that the
/// simulation does not know, and none for a gate on two qubits without a
/// control.
pub open spec fn kind_of(t: Seq<char>, has_control: bool) -> Option<GateKind> {
    if t == "H"@ {
        Some(GateKind::H)
    } else if t == "X"@ {
        Some(GateKind::X)
    } else if t == "Y"@ {
        Some(GateKind::Y)
    } else if t == "Z"@ {
        Some(GateKind::Z)
    } else if t == "S"@ {
        Some(GateKind::S)
    } else if t == "SDG"@ || t == "Sdg"@ {
        Some(GateKind::Sdg)
    } else if t == "T"@ {
        Some(GateKind::T)
    } else if t == "TDG"@ || t == "Tdg"@ {
        Some(GateKind::Tdg)
    } else if t == "RX"@ {
        Some(GateKind::Rx)
    } else if t == "RY"@ {
        Some(GateKind::Ry)
    } else if t == "RZ"@ || t == "P"@ || t == "U1"@ {
        Some(GateKind::Rz)
    } else if t == "CX"@ {
        if has_control {
            Some(GateKind::Cx)
        } else {
            None
        }
    } else if t == "CZ"@ {
        if has_control {
            Some(GateKind::Cz)
        } else {
            None
        }
    } else if t == "SWAP"@ {
        if has_control {
            Some(GateKind::Swap)
        } else {
            None
        }
    } else if t == "RESET"@ {
        Some(GateKind::Reset)
    } else {
        None
    }
}

/// Whether the kind is a rotation by an angle.
pub open spec fn is_rotation(k: GateKind) -> bool {
    k == GateKind::Rx || k == GateKind::Ry || k == GateKind::Rz
}

/// Whether the kind acts on a control and a target.
pub open spec fn is_controlled(k: GateKind) -> bool {
    k == GateKind::Cx || k == GateKind::Cz || k == GateKind::Swap
}

/// The kind that undoes `k`: S and T have an inverse of their own kind; a
/// rotation is undone by the negated angle, and every other kind that has
/// an inverse is its own.
pub open spec fn inverse_kind(k: GateKind) -> GateKind {
    match k {
        GateKind::S => GateKind::Sdg,
        GateKind::Sdg => GateKind::S,
        GateKind::T => GateKind::Tdg,
        GateKind::Tdg => GateKind::T,
        _ => k,
    }
}

/// Whether a simulation up to step `cutoff` passes over this gate: it lies
/// behind the cutoff, where that is not negative; or it is a barrier, a
/// measurement, a gate that a measurement controls, a noise annotation, or
/// under classical control.
pub open spec fn is_skipped(g: GateView, cutoff: int) -> bool {
    ||| cutoff >= 0 && g.step > cutoff
    ||| g.gate_type == "BARRIER"@
    ||| g.gate_type == "MEASURE"@
    ||| g.measure_source is Some
    ||| g.is_noise
    ||| g.classical_control is Some
}

/// The operation of a gate with the given control: none where the
/// simulation does not know its type. A rotation takes the first
/// parameter as its angle; only an operation on two qubits keeps the
/// control. A gate that is marked as an inverse gives the operation that
/// undoes the one of its type.
pub open spec fn op_of(g: GateView, control: Option<usize>) -> Seq<OpView> {
    match kind_of(g.gate_type, control is Some) {
        Some(kind) => seq![
            OpView {
                kind: if g.is_dagger {
                    inverse_kind(kind)
                } else {
                    kind
                },
                target: g.target,
                control: if is_controlled(kind) {
                    control
                } else {
                    None
                },
                angle: if is_rotation(kind) && g.params.len() > 0 {
                    Some(g.params[0])
                } else {
                    None
                },
                inverse: g.is_dagger && is_rotation(kind),
            },
        ],
        None => Seq::empty(),
    }
}

/// The operations of a gate with several controls: one for each
/// control, in their order.
pub open spec fn fan_out(g: GateView, controls: Seq<usize>) -> Seq<OpView>
    decreases controls.len(),
{
    if controls.len() == 0 {
        Seq::empty()
    } else {
        fan_out(g, controls.drop_last()) + op_of(g, Some(controls.last()))
    }
}

/// The operations of one gate in a simulation up to step `cutoff`.
pub open spec fn ops_of_gate(g: GateView, cutoff: int) -> Seq<OpView> {
    if is_skipped(g, cutoff) {
        Seq::empty()
    } else if g.controls.len() > 0 {
        fan_out(g, g.controls)
    } else {
        op_of(g, g.control)
    }
}

/// The operations of the gates that `order` names, in its order.
pub open spec fn ops_in_order(gates: Seq<GateView>, order: Seq<usize>, cutoff: int) -> Seq<OpView>
    decreases order.len(),
{
    if order.len() == 0 {
        Seq::empty()
    } else {
        ops_in_order(gates, order.drop_last(), cutoff) + ops_of_gate(
            gates[order.last() as int],
            cutoff,
        )
    }
}

/// The steps of the gates, in order.
pub open spec fn gate_steps(gates: Seq<GateView>) -> Seq<int> {
    gates.map_values(|g: GateView| g.step)
}

/// The places `0` to `n - 1`, in order.
pub open spec fn places(n: nat) -> Seq<usize> {
    Seq::new(n, |i: int| i as usize)
}

/// What a simulation of the circuit up to step `cutoff` applies, a negative
/// cutoff standing for no cutoff: the operations of the gates, sorted by
/// step, on a state of the circuit's qubits. A circuit without qubits gives
/// a state of one qubit and no operation.
pub open spec fn plan_of(c: CircuitView, cutoff: int) -> PlanView {
    if c.num_qubits == 0 {
        PlanView { num_qubits: 1, ops: Seq::empty() }
    } else {
        PlanView {
            num_qubits: c.num_qubits,
            ops: ops_in_order(
                c.gates,
                sorted_by_step(gate_steps(c.gates), places(c.gates.len())),
                cutoff,
            ),
        }
    }
}

/// The operation that a gate type stands for.
pub fn gate_kind(gate_type: &str, has_control: bool) -> (r: Option<GateKind>)
    ensures
        r == kind_of(gate_type@, has_control),
{
    let t = gate_type;
    if same_text(t, "H") {
        Some(GateKind::H)
    } else if same_text(t, "X") {
        Some(GateKind::X)
    } else if same_text(t, "Y") {
        Some(GateKind::Y)
    } else if same_text(t, "Z") {
        Some(GateKind::Z)
    } else if same_text(t, "S") {
        Some(GateKind::S)
    } else if same_text(t, "SDG") || same_text(t, "Sdg") {
        Some(GateKind::Sdg)
    } else if same_text(t, "T") {
        Some(GateKind::T)
    } else if same_text(t, "TDG") || same_text(t, "Tdg") {
        Some(GateKind::Tdg)
    } else if same_text(t, "RX") {
        Some(GateKind::Rx)
    } else if same_text(t, "RY") {
        Some(GateKind::Ry)
    } else if same_text(t, "RZ") || same_text(t, "P") || same_text(t, "U1") {
        Some(GateKind::Rz)
    } else if same_text(t, "CX") {
        if has_control {
            Some(GateKind::Cx)
        } else {
            None
        }
    } else if same_text(t, "CZ") {
        if has_control {
            Some(GateKind::Cz)
        } else {
            None
        }
    } else if same_text(t, "SWAP") {
        if has_control {
            Some(GateKind::Swap)
        } else {
            None
        }
    } else if same_text(t, "RESET") {
        Some(GateKind::Reset)
    } else {
        None
    }
}

/// The kind that undoes `kind`.
pub fn inverse_of(kind: GateKind) -> (r: GateKind)
    ensures
        r == inverse_kind(kind),
{
    match kind {
        GateKind::S => GateKind::Sdg,
        GateKind::Sdg => GateKind::S,
        GateKind::T => GateKind::Tdg,
        GateKind::Tdg => GateKind::T,
        _ => kind,
    }
}

/// Appends the operation of a gate with the given control to `ops`.
fn push_op(ops: &mut Vec<SimOp>, g: &Gate, control: Option<usize>)
    ensures
        ops_of(final(ops)@) == ops_of(old(ops)@) + op_of(g@, control),
{
    match gate_kind(g.gate_type.as_str(), control.is_some()) {
        Some(kind) => {
            let rotation = kind == GateKind::Rx || kind == GateKind::Ry || kind == GateKind::Rz;
            let controlled = kind == GateKind::Cx || kind == GateKind::Cz || kind
                == GateKind::Swap;
            let angle = if rotation && g.params.len() > 0 {
                assert(g@.params[0] == g.params@[0]@);
                Some(g.params[0].clone())
            } else {
                None
            };
            let op = SimOp {
                kind: if g.is_dagger {
                    inverse_of(kind)
                } else {
                    kind
                },
                target: g.target,
                control: if controlled {
                    control
                } else {
                    None
                },
                angle,
                inverse: g.is_dagger && rotation,
            };
            let ghost o0 = ops@;
            let ghost ov = op@;
            ops.push(op);
            assert(ops_of(ops@) =~= ops_of(o0).push(ov));
            assert(ops_of(o0).push(ov) =~= ops_of(o0) + op_of(g@, control));
        },
        None => {
            assert(ops_of(ops@) =~= ops_of(ops@) + op_of(g@, control));
        },
    }
}

/// Appends the operations of one gate in a simulation up to `cutoff`.
fn push_gate_ops(ops: &mut Vec<SimOp>, g: &Gate, cutoff: isize)
    ensures
        ops_of(final(ops)@) == ops_of(old(ops)@) + ops_of_gate(g@, cutoff as int),
{
    let t = g.gate_type.as_str();
    if (cutoff >= 0 && g.step > cutoff) || same_text(t, "BARRIER") || same_text(t, "MEASURE")
        || g.measure_source.is_some() || g.is_noise || g.classical_control.is_some() {
        assert(ops_of(ops@) =~= ops_of(ops@) + ops_of_gate(g@, cutoff as int));
        return ;
    }
    if g.controls.len() > 0 {
        let mut i: usize = 0;
        assert(ops_of(ops@) =~= ops_of(old(ops)@) + fan_out(g@, g.controls@.take(0)));
        while i < g.controls.len()
            invariant
                i <= g.controls.len(),
                ops_of(ops@) == ops_of(old(ops)@) + fan_out(g@, g.controls@.take(i as int)),
            decreases g.controls.len() - i,
        {
            assert(g.controls@.take(i + 1).drop_last() =~= g.controls@.take(i as int));
            push_op(ops, g, Some(g.controls[i]));
            assert(ops_of(ops@) =~= ops_of(old(ops)@) + fan_out(g@, g.controls@.take(i + 1)));
            i += 1;
        }
        assert(g.controls@.take(i as int) =~= g.controls@);
    } else {
        push_op(ops, g, g.control);
    }
}

/// What a simulation of the circuit up to step `up_to_step` applies; a
/// negative `up_to_step` stands for no cutoff.
pub fn simulation_plan(circuit: &Circuit, up_to_step: isize) -> (r: SimPlan)
    ensures
        r@ == plan_of(circuit@, up_to_step as int),
{
    let mut ops: Vec<SimOp> = Vec::new();
    assert(ops_of(ops@) =~= Seq::empty());
    if circuit.num_qubits == 0 {
        return SimPlan { num_qubits: 1, ops };
    }
    let n = circuit.gates.len();
    let mut steps: Vec<isize> = Vec::new();
    let mut order: Vec<usize> = Vec::new();
    let mut k: usize = 0;
    let ghost all = circuit@.gates;
    while k < n
        invariant
            k <= n,
            n == circuit.gates.len(),
            all == circuit@.gates,
            ints_of(steps@) == gate_steps(all.take(k as int)),
            order@ == places(k as nat),
            steps.len() == k,
        decreases n - k,
    {
        let ghost s0 = steps@;
        steps.push(circuit.gates[k].step);
        order.push(k);
        assert(all[k as int] == circuit.gates@[k as int]@);
        assert(ints_of(steps@) =~= ints_of(s0).push(circuit.gates@[k as int].step as int));
        assert(gate_steps(all.take(k + 1)) =~= gate_steps(all.take(k as int)).push(
            all[k as int].step,
        ));
        assert(order@ =~= places((k + 1) as nat));
        k += 1;
    }
    assert(all.take(k as int) =~= all);
    let sorted = sort_by_step(&steps, &order);
    let mut i: usize = 0;
    assert(ops_of(ops@) =~= ops_in_order(all, sorted@.take(0), up_to_step as int));
    while i < sorted.len()
        invariant
            i <= sorted.len(),
            all == circuit@.gates,
            n == circuit.gates.len(),
            forall|j: int| 0 <= j < sorted@.len() ==> #[trigger] sorted@[j] < n,
            ops_of(ops@) == ops_in_order(all, sorted@.take(i as int), up_to_step as int),
        decreases sorted.len() - i,
    {
        assert(sorted@.take(i + 1).drop_last() =~= sorted@.take(i as int));
        let g = &circuit.gates[sorted[i]];
        assert(all[sorted@[i as int] as int] == g@);
        push_gate_ops(&mut ops, g, up_to_step);
        i += 1;
    }
    assert(sorted@.take(i as int) =~= sorted@);
    SimPlan { num_qubits: circuit.num_qubits, ops }
}

proof fn lemma_fan_out_of_unknown(g: GateView, controls: Seq<usize>)
    requires
        kind_of(g.gate_type, true) is None,
    ensures
        fan_out(g, controls) == Seq::<OpView>::empty(),
    decreases controls.len(),
{
    if controls.len() > 0 {
        lemma_fan_out_of_unknown(g, controls.drop_last());
        assert(fan_out(g, controls) =~= Seq::<OpView>::empty());
    }
}

/// A Toffoli is placed, drawn and written, but a simulation has no
/// operation for a gate of type `CCX`: it leaves the state as it is, on
/// every input. The simulation knows only the types that `kind_of` lists,
/// and a gate with several controls is run as its own type once for each
/// control.
pub proof fn lemma_toffoli_is_not_simulated(g: GateView, cutoff: int)
    requires
        g.gate_type == "CCX"@,
    ensures
        ops_of_gate(g, cutoff) == Seq::<OpView>::empty(),
{
    reveal_strlit("CCX");
    reveal_strlit("H");
    reveal_strlit("X");
    reveal_strlit("Y");
    reveal_strlit("Z");
    reveal_strlit("S");
    reveal_strlit("SDG");
    reveal_strlit("Sdg");
    reveal_strlit("T");
    reveal_strlit("TDG");
    reveal_strlit("Tdg");
    reveal_strlit("RX");
    reveal_strlit("RY");
    reveal_strlit("RZ");
    reveal_strlit("P");
    reveal_strlit("U1");
    reveal_strlit("CX");
    reveal_strlit("CZ");
    reveal_strlit("SWAP");
    reveal_strlit("RESET");
    let t = g.gate_type;
    assert(t.len() == 3 && t[0] == 'C' && t[1] == 'C' && t[2] == 'X');
    assert(t != "SDG"@ && t != "Sdg"@ && t != "TDG"@ && t != "Tdg"@);
    assert(kind_of(t, true) is None);
    assert(kind_of(t, false) is None);
    lemma_fan_out_of_unknown(g, g.controls);
}

/// The gates that `order` names, in its order.
pub open spec fn gates_in_order(gates: Seq<GateView>, order: Seq<usize>) -> Seq<GateView> {
    order.map_values(|i: usize| gates[i as int])
}

/// The operations of the gates in a simulation up to step `cutoff`, in
/// the order of the gates.
pub open spec fn ops_of_gates(gs: Seq<GateView>, cutoff: int) -> Seq<OpView>
    decreases gs.len(),
{
    if gs.len() == 0 {
        Seq::empty()
    } else {
        ops_of_gates(gs.drop_last(), cutoff) + ops_of_gate(gs.last(), cutoff)
    }
}

/// `sorted` with `g` put behind the last gate whose step is not larger
/// than that of `g`.
pub open spec fn insert_gate(sorted: Seq<GateView>, g: GateView) -> Seq<GateView>
    decreases sorted.len(),
{
    if sorted.len() == 0 {
        seq![g]
    } else if sorted.last().step <= g.step {
        sorted.push(g)
    } else {
        insert_gate(sorted.drop_last(), g).push(sorted.last())
    }
}

/// The gates sorted by step; gates of equal step keep their order.
pub open spec fn gates_by_step(gs: Seq<GateView>) -> Seq<GateView>
    decreases gs.len(),
{
    if gs.len() == 0 {
        Seq::empty()
    } else {
        insert_gate(gates_by_step(gs.drop_last()), gs.last())
    }
}

/// Whether the steps of the gates never fall.
pub open spec fn gate_steps_rise(gs: Seq<GateView>) -> bool {
    forall|i: int, j: int| 0 <= i <= j < gs.len() ==> gs[i].step <= gs[j].step
}

/// The test that a simulation up to step `cutoff` does not pass over a
/// gate.
pub open spec fn is_run(cutoff: int) -> spec_fn(GateView) -> bool {
    |g: GateView| !is_skipped(g, cutoff)
}

/// Whether every entry of `order` names one of `n` gates.
pub open spec fn names_below(order: Seq<usize>, n: nat) -> bool {
    forall|i: int| 0 <= i < order.len() ==> #[trigger] order[i] < n
}

proof fn lemma_insert_names(gates: Seq<GateView>, sorted: Seq<usize>, x: usize)
    requires
        names_below(sorted, gates.len()),
        x < gates.len(),
    ensures
        gates_in_order(gates, insert_by_step(gate_steps(gates), sorted, x)) == insert_gate(
            gates_in_order(gates, sorted),
            gates[x as int],
        ),
        names_below(insert_by_step(gate_steps(gates), sorted, x), gates.len()),
    decreases sorted.len(),
{
    let steps = gate_steps(gates);
    let named = gates_in_order(gates, sorted);
    let r = insert_by_step(steps, sorted, x);
    if sorted.len() == 0 {
        assert(gates_in_order(gates, r) =~= seq![gates[x as int]]);
    } else {
        assert(sorted[sorted.len() - 1] < gates.len());
        assert(named.last() == gates[sorted.last() as int]);
        if steps[sorted.last() as int] <= steps[x as int] {
            assert(gates_in_order(gates, r) =~= named.push(gates[x as int]));
        } else {
            let head = sorted.drop_last();
            assert forall|i: int| 0 <= i < head.len() implies #[trigger] head[i] < gates.len() by {
                assert(head[i] == sorted[i]);
            }
            lemma_insert_names(gates, head, x);
            assert(named.drop_last() =~= gates_in_order(gates, head));
            let mid = insert_by_step(steps, head, x);
            assert(gates_in_order(gates, r) =~= gates_in_order(gates, mid).push(named.last()));
            assert forall|i: int| 0 <= i < r.len() implies #[trigger] r[i] < gates.len() by {
                if i < mid.len() {
                    assert(r[i] == mid[i]);
                }
            }
        }
    }
}

proof fn lemma_sorted_names(gates: Seq<GateView>, order: Seq<usize>)
    requires
        names_below(order, gates.len()),
    ensures
        gates_in_order(gates, sorted_by_step(gate_steps(gates), order)) == gates_by_step(
            gates_in_order(gates, order),
        ),
        names_below(sorted_by_step(gate_steps(gates), order), gates.len()),
    decreases order.len(),
{
    if order.len() == 0 {
        assert(gates_in_order(gates, order) =~= Seq::empty());
        assert(gates_in_order(gates, sorted_by_step(gate_steps(gates), order)) =~= Seq::empty());
    } else {
        let head = order.drop_last();
        assert forall|i: int| 0 <= i < head.len() implies #[trigger] head[i] < gates.len() by {
            assert(head[i] == order[i]);
        }
        assert(order[order.len() - 1] < gates.len());
        lemma_sorted_names(gates, head);
        lemma_insert_names(gates, sorted_by_step(gate_steps(gates), head), order.last());
        assert(gates_in_order(gates, order).drop_last() =~= gates_in_order(gates, head));
        assert(gates_in_order(gates, order).last() == gates[order.last() as int]);
    }
}

proof fn lemma_ops_of_named(gates: Seq<GateView>, order: Seq<usize>, cutoff: int)
    ensures
        ops_in_order(gates, order, cutoff) == ops_of_gates(gates_in_order(gates, order), cutoff),
    decreases order.len(),
{
    if order.len() > 0 {
        lemma_ops_of_named(gates, order.drop_last(), cutoff);
        assert(gates_in_order(gates, order).drop_last() =~= gates_in_order(
            gates,
            order.drop_last(),
        ));
    }
}

/// The operations of a plan are those of the circuit's gates, sorted by
/// step, gates of equal step in the order of the circuit; sorted, the
/// steps never fall.
pub proof fn lemma_plan_runs_by_step(c: CircuitView, cutoff: int)
    requires
        c.gates.len() <= usize::MAX,
        c.num_qubits > 0,
    ensures
        plan_of(c, cutoff).ops == ops_of_gates(gates_by_step(c.gates), cutoff),
        gate_steps_rise(gates_by_step(c.gates)),
{
    let order = places(c.gates.len());
    let steps = gate_steps(c.gates);
    let sorted = sorted_by_step(steps, order);
    lemma_sorted_names(c.gates, order);
    lemma_ops_of_named(c.gates, sorted, cutoff);
    assert(gates_in_order(c.gates, order) =~= c.gates);
    crate::order::lemma_sorted_by_step(steps, order);
    let by_step = gates_by_step(c.gates);
    assert forall|i: int, j: int| 0 <= i <= j < by_step.len() implies by_step[i].step
        <= by_step[j].step by {
        assert(by_step[i] == c.gates[sorted[i] as int]);
        assert(by_step[j] == c.gates[sorted[j] as int]);
        assert(steps[sorted[i] as int] <= steps[sorted[j] as int]);
    }
}

proof fn lemma_insert_then_filter(s: Seq<GateView>, g: GateView, p: spec_fn(GateView) -> bool)
    requires
        gate_steps_rise(s),
    ensures
        insert_gate(s, g).filter(p) == if p(g) {
            insert_gate(s.filter(p), g)
        } else {
            s.filter(p)
        },
    decreases s.len(),
{
    if s.len() == 0 {
        assert(s.filter(p) =~= Seq::empty()) by {
            reveal(Seq::filter);
        }
        assert(seq![g] =~= Seq::<GateView>::empty().push(g));
        Seq::<GateView>::empty().lemma_filter_push(g, p);
        assert(Seq::<GateView>::empty().filter(p) =~= Seq::empty()) by {
            reveal(Seq::filter);
        }
        assert(s =~= Seq::empty());
    } else {
        let head = s.drop_last();
        let last = s.last();
        assert(head.push(last) =~= s);
        head.lemma_filter_push(last, p);
        if last.step <= g.step {
            s.lemma_filter_push(g, p);
            if p(g) {
                let f = s.filter(p);
                if f.len() > 0 {
                    s.lemma_filter_pred(p, f.len() - 1);
                    assert(s.contains(f.last())) by {
                        lemma_filter_members(s, p, f.len() - 1);
                    }
                    let k = choose|k: int| 0 <= k < s.len() && s[k] == f.last();
                    assert(s[k].step <= s[s.len() - 1].step);
                }
            }
        } else {
            assert forall|i: int, j: int| 0 <= i <= j < head.len() implies head[i].step
                <= head[j].step by {
                assert(head[i] == s[i] && head[j] == s[j]);
            }
            lemma_insert_then_filter(head, g, p);
            insert_gate(head, g).lemma_filter_push(last, p);
            if p(g) && p(last) {
                let x = head.filter(p);
                assert(x.push(last).drop_last() =~= x);
            }
        }
    }
}

proof fn lemma_filter_members(s: Seq<GateView>, p: spec_fn(GateView) -> bool, i: int)
    requires
        0 <= i < s.filter(p).len(),
    ensures
        s.contains(s.filter(p)[i]),
    decreases s.len(),
{
    reveal(Seq::filter);
    if s.len() > 0 {
        let head = s.drop_last();
        if i < head.filter(p).len() {
            lemma_filter_members(head, p, i);
            let k = choose|k: int| 0 <= k < head.len() && head[k] == head.filter(p)[i];
            assert(s[k] == s.filter(p)[i]);
        } else {
            assert(s[s.len() - 1] == s.filter(p)[i]);
        }
    }
}

proof fn lemma_sort_then_filter(gs: Seq<GateView>, p: spec_fn(GateView) -> bool)
    requires
        gs.len() <= usize::MAX,
    ensures
        gates_by_step(gs).filter(p) == gates_by_step(gs.filter(p)),
    decreases gs.len(),
{
    if gs.len() == 0 {
        assert(gs.filter(p) =~= Seq::empty()) by {
            reveal(Seq::filter);
        }
        assert(Seq::<GateView>::empty().filter(p) =~= Seq::empty()) by {
            reveal(Seq::filter);
        }
    } else {
        let head = gs.drop_last();
        let last = gs.last();
        lemma_sort_then_filter(head, p);
        lemma_plan_runs_by_step(CircuitView { num_qubits: 1, gates: head, max_steps: 0 }, 0);
        lemma_insert_then_filter(gates_by_step(head), last, p);
        assert(head.push(last) =~= gs);
        head.lemma_filter_push(last, p);
        if p(last) {
            assert(head.filter(p).push(last).drop_last() =~= head.filter(p));
        }
    }
}

proof fn lemma_skipped_add_nothing(gs: Seq<GateView>, cutoff: int)
    ensures
        ops_of_gates(gs, cutoff) == ops_of_gates(gs.filter(is_run(cutoff)), cutoff),
    decreases gs.len(),
{
    let p = is_run(cutoff);
    if gs.len() == 0 {
        assert(gs.filter(p) =~= Seq::empty()) by {
            reveal(Seq::filter);
        }
    } else {
        let head = gs.drop_last();
        let last = gs.last();
        lemma_skipped_add_nothing(head, cutoff);
        assert(head.push(last) =~= gs);
        head.lemma_filter_push(last, p);
        if p(last) {
            assert(head.filter(p).push(last).drop_last() =~= head.filter(p));
        } else {
            assert(ops_of_gate(last, cutoff) =~= Seq::empty());
            assert(ops_of_gates(gs, cutoff) =~= ops_of_gates(head, cutoff));
        }
    }
}

/// The gates that a simulation passes over have no effect on it: barriers,
/// measurements, gates that a measurement controls, noise annotations,
/// gates under classical control, and gates behind the cutoff. The plan of
/// the circuit without them is the plan of the circuit.
pub proof fn lemma_skipped_gates_have_no_effect(c: CircuitView, cutoff: int)
    requires
        c.gates.len() <= usize::MAX,
    ensures
        plan_of(CircuitView { gates: c.gates.filter(is_run(cutoff)), ..c }, cutoff) == plan_of(
            c,
            cutoff,
        ),
{
    let p = is_run(cutoff);
    let kept = CircuitView { gates: c.gates.filter(p), ..c };
    c.gates.lemma_filter_len(p);
    if c.num_qubits > 0 {
        lemma_plan_runs_by_step(c, cutoff);
        lemma_plan_runs_by_step(kept, cutoff);
        lemma_skipped_add_nothing(gates_by_step(c.gates), cutoff);
        lemma_skipped_add_nothing(gates_by_step(kept.gates), cutoff);
        lemma_sort_then_filter(c.gates, p);
        lemma_sort_then_filter(kept.gates, p);
        assert(kept.gates.filter(p) =~= kept.gates) by {
            lemma_filter_twice(c.gates, p);
        }
    }
}

proof fn lemma_filter_twice(s: Seq<GateView>, p: spec_fn(GateView) -> bool)
    ensures
        s.filter(p).filter(p) == s.filter(p),
    decreases s.len(),
{
    reveal(Seq::filter);
    if s.len() > 0 {
        let head = s.drop_last();
        lemma_filter_twice(head, p);
        if p(s.last()) {
            head.filter(p).lemma_filter_push(s.last(), p);
        }
    }
}

} // verus!
