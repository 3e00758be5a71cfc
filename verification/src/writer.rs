//! Writing a circuit as text: one statement per node.

use vstd::prelude::*;
use vstd::string::*;
use crate::case::{lowercase_of, to_lowercase};
use crate::dag::{CircuitDAG, DagView};
use crate::node::{max_nat, DAGNode, NodeView};
use crate::order::{ints_of, sort_by_step, sorted_by_step};
use crate::topo::topo_order;
use crate::params::{param_text, params_of, push_param, ParamExpr, ParamView};
use crate::text::{dec_index, dec_nat, push_index, push_nat, same_text};

verus! {

/// `q[i]` for qubit `i`.
pub open spec fn qubit_ref(q: Option<usize>) -> Seq<char> {
    "q["@ + dec_index(q) + "]"@
}

/// `c[i]` for classical bit `i`.
pub open spec fn bit_ref(q: Option<usize>) -> Seq<char> {
    "c["@ + dec_index(q) + "]"@
}

/// The qubits of `qs`, each as `q[i]`, with `, ` between them.
pub open spec fn qubit_list(qs: Seq<usize>) -> Seq<char>
    decreases qs.len(),
{
    if qs.len() == 0 {
        Seq::empty()
    } else if qs.len() == 1 {
        qubit_ref(Some(qs[0]))
    } else {
        qubit_list(qs.drop_last()) + ", "@ + qubit_ref(Some(qs.last()))
    }
}

/// The qubits `0` to `n - 1`, each as `q[i]`, with `, ` between them.
pub open spec fn all_qubits(n: nat) -> Seq<char>
    decreases n,
{
    if n == 0 {
        Seq::empty()
    } else if n == 1 {
        qubit_ref(Some(0usize))
    } else {
        all_qubits((n - 1) as nat) + ", "@ + qubit_ref(Some((n - 1) as usize))
    }
}

/// The guard `if (c[b]==1) ` of a statement that classical bit `b` controls.
pub open spec fn guard(bit: Option<usize>) -> Seq<char> {
    "if ("@ + bit_ref(bit) + "==1) "@
}

/// The statement of a node under classical control, `lower` being the
/// node's type in lower case.
pub open spec fn guarded_qasm(n: NodeView, lower: Seq<char>) -> Seq<char> {
    if n.control is Some {
        guard(n.classical_control) + "cx "@ + qubit_ref(n.control) + ", "@ + qubit_ref(n.target)
            + ";\n"@
    } else if n.controls.len() > 0 {
        guard(n.classical_control) + lower + " "@ + qubit_list(n.controls) + ", "@ + qubit_ref(
            n.target,
        ) + ";\n"@
    } else if n.params.len() > 0 {
        guard(n.classical_control) + lower + "("@ + param_text(n.params[0]) + ") "@ + qubit_ref(
            n.target,
        ) + ";\n"@
    } else if n.is_dagger {
        guard(n.classical_control) + lower + "dg "@ + qubit_ref(n.target) + ";\n"@
    } else {
        guard(n.classical_control) + lower + " "@ + qubit_ref(n.target) + ";\n"@
    }
}

/// `name q[control], q[target];` and a line end.
pub open spec fn two_qubit_qasm(name: Seq<char>, n: NodeView) -> Seq<char> {
    name + " "@ + qubit_ref(n.control) + ", "@ + qubit_ref(n.target) + ";\n"@
}

/// `name(param) q[control], q[target];` and a line end.
pub open spec fn two_qubit_param_qasm(name: Seq<char>, n: NodeView) -> Seq<char> {
    name + "("@ + param_text(n.params[0]) + ") "@ + qubit_ref(n.control) + ", "@ + qubit_ref(
        n.target,
    ) + ";\n"@
}

/// The statement of a gate with one control.
pub open spec fn controlled_qasm(n: NodeView) -> Seq<char> {
    let t = n.gate_type;
    if t == "CX"@ {
        two_qubit_qasm("cx"@, n)
    } else if t == "CZ"@ {
        two_qubit_qasm("cz"@, n)
    } else if t == "SWAP"@ {
        two_qubit_qasm("swap"@, n)
    } else if t == "CH"@ {
        two_qubit_qasm("ch"@, n)
    } else if t == "CRX"@ && n.params.len() > 0 {
        two_qubit_param_qasm("crx"@, n)
    } else if t == "CRY"@ && n.params.len() > 0 {
        two_qubit_param_qasm("cry"@, n)
    } else if t == "CRZ"@ && n.params.len() > 0 {
        two_qubit_param_qasm("crz"@, n)
    } else if (t == "CP"@ || t == "CU1"@) && n.params.len() > 0 {
        two_qubit_param_qasm("cu1"@, n)
    } else {
        two_qubit_qasm("cx"@, n)
    }
}

/// Whether a gate of the type that is `lower` in lower case is written
/// with the parameters that the node has: `rx`, `ry`, `rz`, `p` and `u1`
/// with one, `u2` with two, `u3` with three.
pub open spec fn params_fit(n: NodeView, lower: Seq<char>) -> bool {
    if lower == "rx"@ || lower == "ry"@ || lower == "rz"@ || lower == "p"@ || lower == "u1"@ {
        n.params.len() == 1
    } else if lower == "u2"@ {
        n.params.len() == 2
    } else if lower == "u3"@ {
        n.params.len() == 3
    } else {
        false
    }
}

/// The parameters of `ps`, with `, ` between them.
pub open spec fn param_list(ps: Seq<ParamView>) -> Seq<char>
    decreases ps.len(),
{
    if ps.len() == 0 {
        Seq::empty()
    } else if ps.len() == 1 {
        param_text(ps[0])
    } else {
        param_list(ps.drop_last()) + ", "@ + param_text(ps.last())
    }
}

/// The statement of a gate on its target alone, `lower` being the node's
/// type in lower case: with its parameters where they fit the type; else
/// with `dg` behind the name for the inverse of `s`, `t`, `sx`, `sy` or
/// `sz`; else the bare name.
pub open spec fn single_qasm(n: NodeView, lower: Seq<char>) -> Seq<char> {
    if params_fit(n, lower) {
        lower + "("@ + param_list(n.params) + ") "@ + qubit_ref(n.target) + ";\n"@
    } else if (lower == "s"@ || lower == "t"@ || lower == "sx"@ || lower == "sy"@ || lower
        == "sz"@) && n.is_dagger {
        lower + "dg "@ + qubit_ref(n.target) + ";\n"@
    } else {
        lower + " "@ + qubit_ref(n.target) + ";\n"@
    }
}

/// The text of one node in a circuit of `num_qubits` qubits, `lower` being
/// the node's type in lower case. The first of these that applies decides:
/// a barrier, a noise annotation, a reset, classical control, a measurement
/// that controls an X, a measurement, several controls, one control, a gate
/// on its target alone. Every node has a text that is not empty.
pub open spec fn node_text(n: NodeView, num_qubits: nat, lower: Seq<char>) -> Seq<char> {
    if n.gate_type == "BARRIER"@ {
        "barrier "@ + all_qubits(num_qubits) + ";\n"@
    } else if n.is_noise {
        if n.params.len() > 0 {
            "// noise "@ + n.noise_type + " "@ + qubit_ref(n.target) + " param="@ + param_text(
                n.params[0],
            ) + "\n"@
        } else {
            "// noise "@ + n.noise_type + " "@ + qubit_ref(n.target) + "\n"@
        }
    } else if n.is_reset {
        "reset "@ + qubit_ref(n.target) + ";\n"@
    } else if n.classical_control is Some {
        guarded_qasm(n, lower)
    } else if n.measure_source is Some {
        "measure "@ + qubit_ref(n.measure_source) + " -> "@ + bit_ref(n.measure_source) + ";\n"@
            + guard(n.measure_source) + "x "@ + qubit_ref(n.target) + ";\n"@
    } else if n.gate_type == "MEASURE"@ {
        "measure "@ + qubit_ref(n.target) + " -> "@ + bit_ref(n.target) + ";\n"@
    } else if n.controls.len() > 0 {
        if (n.gate_type == "CCX"@ || n.gate_type == "TOFFOLI"@) && n.controls.len() >= 2 {
            "ccx "@ + qubit_ref(Some(n.controls[0])) + ", "@ + qubit_ref(Some(n.controls[1]))
                + ", "@ + qubit_ref(n.target) + ";\n"@
        } else {
            lower + " "@ + qubit_list(n.controls) + ", "@ + qubit_ref(n.target) + ";\n"@
        }
    } else if n.control is Some {
        controlled_qasm(n)
    } else {
        single_qasm(n, lower)
    }
}

/// The text of one node in a circuit of `num_qubits` qubits.
pub open spec fn node_qasm(n: NodeView, num_qubits: nat) -> Seq<char> {
    node_text(n, num_qubits, lowercase_of(n.gate_type))
}

/// Every node has a statement, whatever its fields hold: its text is not
/// empty and ends with the end of a line.
pub proof fn lemma_node_has_text(n: NodeView, num_qubits: nat, lower: Seq<char>)
    ensures
        node_text(n, num_qubits, lower).len() > 0,
        node_text(n, num_qubits, lower).last() == '\n',
{
    reveal_strlit(";\n");
    reveal_strlit("\n");
}

fn push_qubit(s: &mut String, q: Option<usize>)
    ensures
        final(s)@ == old(s)@ + qubit_ref(q),
{
    s.append("q[");
    push_index(s, q);
    s.append("]");
    assert(s@ =~= old(s)@ + qubit_ref(q));
}

fn push_bit(s: &mut String, q: Option<usize>)
    ensures
        final(s)@ == old(s)@ + bit_ref(q),
{
    s.append("c[");
    push_index(s, q);
    s.append("]");
    assert(s@ =~= old(s)@ + bit_ref(q));
}

fn push_guard(s: &mut String, bit: Option<usize>)
    ensures
        final(s)@ == old(s)@ + guard(bit),
{
    s.append("if (");
    push_bit(s, bit);
    s.append("==1) ");
    assert(s@ =~= old(s)@ + guard(bit));
}

fn push_qubit_list(s: &mut String, qs: &Vec<usize>)
    ensures
        final(s)@ == old(s)@ + qubit_list(qs@),
{
    let mut i: usize = 0;
    assert(s@ =~= old(s)@ + qubit_list(qs@.take(0)));
    while i < qs.len()
        invariant
            i <= qs.len(),
            s@ == old(s)@ + qubit_list(qs@.take(i as int)),
        decreases qs.len() - i,
    {
        let ghost before = qubit_list(qs@.take(i as int));
        assert(qs@.take(i + 1).drop_last() =~= qs@.take(i as int));
        if i > 0 {
            s.append(", ");
        }
        push_qubit(s, Some(qs[i]));
        assert(s@ =~= old(s)@ + qubit_list(qs@.take(i + 1)));
        i += 1;
    }
    assert(qs@.take(i as int) =~= qs@);
}

fn push_all_qubits(s: &mut String, n: usize)
    ensures
        final(s)@ == old(s)@ + all_qubits(n as nat),
{
    let mut i: usize = 0;
    assert(s@ =~= old(s)@ + all_qubits(0));
    while i < n
        invariant
            i <= n,
            s@ == old(s)@ + all_qubits(i as nat),
        decreases n - i,
    {
        if i > 0 {
            s.append(", ");
        }
        push_qubit(s, Some(i));
        assert(s@ =~= old(s)@ + all_qubits((i + 1) as nat));
        i += 1;
    }
}

fn two_qubit_line(name: &str, node: &DAGNode) -> (s: String)
    ensures
        s@ == two_qubit_qasm(name@, node@),
{
    let mut s = String::from_str(name);
    s.append(" ");
    push_qubit(&mut s, node.control);
    s.append(", ");
    push_qubit(&mut s, node.target);
    s.append(";\n");
    s
}

fn two_qubit_param_line(name: &str, node: &DAGNode) -> (s: String)
    requires
        node.params.len() > 0,
    ensures
        s@ == two_qubit_param_qasm(name@, node@),
{
    let mut s = String::from_str(name);
    s.append("(");
    push_param(&mut s, &node.params[0]);
    s.append(") ");
    push_qubit(&mut s, node.control);
    s.append(", ");
    push_qubit(&mut s, node.target);
    s.append(";\n");
    assert(node@.params[0] == node.params@[0]@);
    s
}

fn guarded_line(node: &DAGNode, lower: &str) -> (s: String)
    ensures
        s@ == guarded_qasm(node@, lower@),
{
    let mut s = String::new();
    push_guard(&mut s, node.classical_control);
    assert(s@ =~= guard(node.classical_control));
    if node.control.is_some() {
        s.append("cx ");
        push_qubit(&mut s, node.control);
        s.append(", ");
        push_qubit(&mut s, node.target);
        s.append(";\n");
    } else if node.controls.len() > 0 {
        s.append(lower);
        s.append(" ");
        push_qubit_list(&mut s, &node.controls);
        s.append(", ");
        push_qubit(&mut s, node.target);
        s.append(";\n");
    } else if node.params.len() > 0 {
        s.append(lower);
        s.append("(");
        push_param(&mut s, &node.params[0]);
        s.append(") ");
        push_qubit(&mut s, node.target);
        s.append(";\n");
        assert(node@.params[0] == node.params@[0]@);
    } else if node.is_dagger {
        s.append(lower);
        s.append("dg ");
        push_qubit(&mut s, node.target);
        s.append(";\n");
    } else {
        s.append(lower);
        s.append(" ");
        push_qubit(&mut s, node.target);
        s.append(";\n");
    }
    s
}

fn controlled_line(node: &DAGNode) -> (s: String)
    ensures
        s@ == controlled_qasm(node@),
{
    let t = node.gate_type.as_str();
    let has_param = node.params.len() > 0;
    if same_text(t, "CX") {
        two_qubit_line("cx", node)
    } else if same_text(t, "CZ") {
        two_qubit_line("cz", node)
    } else if same_text(t, "SWAP") {
        two_qubit_line("swap", node)
    } else if same_text(t, "CH") {
        two_qubit_line("ch", node)
    } else if same_text(t, "CRX") && has_param {
        two_qubit_param_line("crx", node)
    } else if same_text(t, "CRY") && has_param {
        two_qubit_param_line("cry", node)
    } else if same_text(t, "CRZ") && has_param {
        two_qubit_param_line("crz", node)
    } else if (same_text(t, "CP") || same_text(t, "CU1")) && has_param {
        two_qubit_param_line("cu1", node)
    } else {
        two_qubit_line("cx", node)
    }
}

fn push_param_list(s: &mut String, ps: &Vec<ParamExpr>)
    ensures
        final(s)@ == old(s)@ + param_list(params_of(ps@)),
{
    let mut i: usize = 0;
    let ghost all = params_of(ps@);
    assert(s@ =~= old(s)@ + param_list(all.take(0)));
    while i < ps.len()
        invariant
            i <= ps.len(),
            all == params_of(ps@),
            s@ == old(s)@ + param_list(all.take(i as int)),
        decreases ps.len() - i,
    {
        assert(all.take(i + 1).drop_last() =~= all.take(i as int));
        assert(all.take(i + 1).last() == ps@[i as int]@);
        if i > 0 {
            s.append(", ");
        }
        push_param(s, &ps[i]);
        assert(s@ =~= old(s)@ + param_list(all.take(i + 1)));
        i += 1;
    }
    assert(all.take(i as int) =~= all);
}

/// Whether a gate of the type that is `lower` in lower case is written with
/// the parameters that the node has.
fn has_fitting_params(node: &DAGNode, lower: &str) -> (r: bool)
    ensures
        r == params_fit(node@, lower@),
{
    let l = lower;
    if same_text(l, "rx") || same_text(l, "ry") || same_text(l, "rz") || same_text(l, "p")
        || same_text(l, "u1") {
        node.params.len() == 1
    } else if same_text(l, "u2") {
        node.params.len() == 2
    } else if same_text(l, "u3") {
        node.params.len() == 3
    } else {
        false
    }
}

fn single_line(node: &DAGNode, lower: &str) -> (s: String)
    ensures
        s@ == single_qasm(node@, lower@),
{
    let l = lower;
    let mut s = String::from_str(l);
    if has_fitting_params(node, l) {
        s.append("(");
        push_param_list(&mut s, &node.params);
        s.append(") ");
    } else if (same_text(l, "s") || same_text(l, "t") || same_text(l, "sx") || same_text(l, "sy")
        || same_text(l, "sz")) && node.is_dagger {
        s.append("dg ");
    } else {
        s.append(" ");
    }
    push_qubit(&mut s, node.target);
    s.append(";\n");
    s
}

/// The text of one node in a circuit of `num_qubits` qubits, `lower` being
/// the node's type in lower case.
pub fn write_node_as(node: &DAGNode, num_qubits: usize, lower: &str) -> (s: String)
    ensures
        s@ == node_text(node@, num_qubits as nat, lower@),
{
    let t = node.gate_type.as_str();
    proof {
        assert(forall|i: int| 0 <= i < node.params@.len() ==> node@.params[i] == node.params@[i]@);
    }
    if same_text(t, "BARRIER") {
        let mut s = String::from_str("barrier ");
        push_all_qubits(&mut s, num_qubits);
        s.append(";\n");
        s
    } else if node.is_noise {
        let mut s = String::from_str("// noise ");
        s.append(node.noise_type.as_str());
        s.append(" ");
        push_qubit(&mut s, node.target);
        if node.params.len() > 0 {
            s.append(" param=");
            push_param(&mut s, &node.params[0]);
        }
        s.append("\n");
        s
    } else if node.is_reset {
        let mut s = String::from_str("reset ");
        push_qubit(&mut s, node.target);
        s.append(";\n");
        s
    } else if node.classical_control.is_some() {
        guarded_line(node, lower)
    } else if node.measure_source.is_some() {
        let mut s = String::from_str("measure ");
        push_qubit(&mut s, node.measure_source);
        s.append(" -> ");
        push_bit(&mut s, node.measure_source);
        s.append(";\n");
        push_guard(&mut s, node.measure_source);
        s.append("x ");
        push_qubit(&mut s, node.target);
        s.append(";\n");
        s
    } else if same_text(t, "MEASURE") {
        let mut s = String::from_str("measure ");
        push_qubit(&mut s, node.target);
        s.append(" -> ");
        push_bit(&mut s, node.target);
        s.append(";\n");
        s
    } else if node.controls.len() > 0 {
        if (same_text(t, "CCX") || same_text(t, "TOFFOLI")) && node.controls.len() >= 2 {
            let mut s = String::from_str("ccx ");
            push_qubit(&mut s, Some(node.controls[0]));
            s.append(", ");
            push_qubit(&mut s, Some(node.controls[1]));
            s.append(", ");
            push_qubit(&mut s, node.target);
            s.append(";\n");
            s
        } else {
            let mut s = String::from_str(lower);
            s.append(" ");
            push_qubit_list(&mut s, &node.controls);
            s.append(", ");
            push_qubit(&mut s, node.target);
            s.append(";\n");
            s
        }
    } else if node.control.is_some() {
        controlled_line(node)
    } else {
        single_line(node, lower)
    }
}

/// The text of one node in a circuit of `num_qubits` qubits.
pub fn write_node_qasm(node: &DAGNode, num_qubits: usize) -> (s: String)
    ensures
        s@ == node_qasm(node@, num_qubits as nat),
{
    let lower = to_lowercase(node.gate_type.as_str());
    write_node_as(node, num_qubits, lower.as_str())
}

/// The steps of the nodes, in order.
pub open spec fn steps_of(nodes: Seq<NodeView>) -> Seq<int> {
    nodes.map_values(|n: NodeView| n.step)
}

/// The head of the text: the format's version, its library, and the two
/// registers with their sizes.
pub open spec fn qasm_header(num_qubits: nat, num_cbits: nat) -> Seq<char> {
    "OPENQASM 2.0;\ninclude \"qelib1.inc\";\n\nqreg q["@ + dec_nat(num_qubits) + "];\ncreg c["@
        + dec_nat(num_cbits) + "];\n\n"@
}

/// The statements of the nodes that `order` names, in its order.
pub open spec fn qasm_body(nodes: Seq<NodeView>, order: Seq<usize>, num_qubits: nat) -> Seq<char>
    decreases order.len(),
{
    if order.len() == 0 {
        Seq::empty()
    } else {
        qasm_body(nodes, order.drop_last(), num_qubits) + node_qasm(
            nodes[order.last() as int],
            num_qubits,
        )
    }
}

impl DagView {
    /// The text of the circuit: its nodes in the order in which a
    /// depth-first walk leaves them, sorted by step.
    pub open spec fn qasm(self) -> Seq<char> {
        self.qasm_in_order(topo_order(self.nodes))
    }

    /// The text of the circuit with its nodes in the given order, sorted by
    /// step: the head with both registers, each of at least one bit, then
    /// one statement per node.
    pub open spec fn qasm_in_order(self, order: Seq<usize>) -> Seq<char> {
        qasm_header(max_nat(self.num_qubits, 1), max_nat(self.num_cbits, 1)) + qasm_body(
            self.nodes,
            sorted_by_step(steps_of(self.nodes), order),
            max_nat(self.num_qubits, 1),
        )
    }
}

impl CircuitDAG {
    /// The text of the circuit with its nodes in the given order, sorted by
    /// step.
    pub fn to_qasm_in_order(&self, order: &Vec<usize>) -> (r: String)
        requires
            forall|i: int| 0 <= i < order@.len() ==> #[trigger] order@[i] < self.nodes.len(),
        ensures
            r@ == self@.qasm_in_order(order@),
    {
        let mut steps: Vec<isize> = Vec::new();
        let mut k: usize = 0;
        while k < self.nodes.len()
            invariant
                k <= self.nodes.len(),
                ints_of(steps@) == steps_of(self@.nodes.take(k as int)),
            decreases self.nodes.len() - k,
        {
            let ghost s0 = steps@;
            steps.push(self.nodes[k].step);
            assert(self@.nodes[k as int] == self.nodes@[k as int]@);
            assert(ints_of(steps@) =~= ints_of(s0).push(self.nodes@[k as int].step as int));
            assert(steps_of(self@.nodes.take(k + 1)) =~= steps_of(self@.nodes.take(k as int)).push(
                self@.nodes[k as int].step,
            ));
            k += 1;
        }
        assert(self@.nodes.take(k as int) =~= self@.nodes);
        let sorted = sort_by_step(&steps, order);
        let nq: usize = if self.num_qubits >= 1 {
            self.num_qubits
        } else {
            1
        };
        let nc: usize = if self.num_cbits >= 1 {
            self.num_cbits
        } else {
            1
        };
        let mut s = String::from_str("OPENQASM 2.0;\ninclude \"qelib1.inc\";\n\nqreg q[");
        push_nat(&mut s, nq);
        s.append("];\ncreg c[");
        push_nat(&mut s, nc);
        s.append("];\n\n");
        let ghost head = s@;
        assert(head == qasm_header(nq as nat, nc as nat));
        let mut i: usize = 0;
        assert(s@ =~= head + qasm_body(self@.nodes, sorted@.take(0), nq as nat));
        while i < sorted.len()
            invariant
                i <= sorted.len(),
                forall|k: int| 0 <= k < sorted@.len() ==> #[trigger] sorted@[k] < self.nodes.len(),
                s@ == head + qasm_body(self@.nodes, sorted@.take(i as int), nq as nat),
            decreases sorted.len() - i,
        {
            assert(sorted@.take(i + 1).drop_last() =~= sorted@.take(i as int));
            let node = &self.nodes[sorted[i]];
            assert(self@.nodes[sorted@[i as int] as int] == node@);
            let line = write_node_qasm(node, nq);
            s.append(line.as_str());
            assert(s@ =~= head + qasm_body(self@.nodes, sorted@.take(i + 1), nq as nat));
            i += 1;
        }
        assert(sorted@.take(i as int) =~= sorted@);
        s
    }

    /// The text of the circuit: the head, then one statement per node, the
    /// nodes in their topological order sorted by step. The text names every
    /// node once, steps never fall along it, and within a step a node
    /// stands behind the nodes that it depends on, where the dependencies
    /// form no cycle.
    pub fn to_qasm(&self) -> (r: String)
        requires
            self.wf(),
        ensures
            r@ == self@.qasm(),
            self@.is_topological(topo_order(self@.nodes)),
    {
        let order = self.topological_order();
        self.to_qasm_in_order(&order)
    }
}

} // verus!
