//! Adding gates to a circuit: what a new node depends on, and the shape of
//! the node that each kind of gate becomes.

use vstd::prelude::*;
use vstd::string::*;
use crate::dag::{barrier_at, ids_of, CircuitDAG, DagView};
use crate::node::{
    generate_node_id, lemma_node_id_not_empty, node_id, opt_seq, past_all, DAGNode, NodeView,
};
use crate::params::{params_of, ParamExpr, ParamView};
use crate::text::{chars_of, text_before, text_lt, texts_of};
use crate::dag::holds_text;
use crate::laws::{lemma_add_keeps_built, lemma_barrier_keeps_built};

verus! {

/// Whether a node comes before a new node of the given step and type: its
/// step is smaller, or the steps are equal and its type comes first in the
/// order of strings. The order of types within a step is the tie-break by
/// which a new node finds what it depends on.
pub open spec fn precedes(n: NodeView, step: int, gate_type: Seq<char>) -> bool {
    n.step < step || (n.step == step && text_lt(n.gate_type, gate_type))
}

/// Whether node `a` is not before node `b` in the order of step, then type.
pub open spec fn not_before(a: NodeView, b: NodeView) -> bool {
    a.step > b.step || (a.step == b.step && !text_lt(a.gate_type, b.gate_type))
}

/// The place of the most recent node that refers to `q` and comes before a
/// new node of the given step and type: the one with the greatest step, and
/// among those of that step the one whose type is last in the order of
/// strings. Where several have that step and type, it is the one inserted
/// last.
pub open spec fn latest_before(nodes: Seq<NodeView>, q: usize, step: int, gate_type: Seq<char>)
    -> Option<int>
    decreases nodes.len(),
{
    if nodes.len() == 0 {
        None
    } else {
        let rest = latest_before(nodes.drop_last(), q, step, gate_type);
        if nodes.last().touches(q) && precedes(nodes.last(), step, gate_type) {
            match rest {
                Some(j) => if not_before(nodes.last(), nodes[j]) {
                    Some(nodes.len() - 1)
                } else {
                    Some(j)
                },
                None => Some(nodes.len() - 1),
            }
        } else {
            rest
        }
    }
}

/// The id of the most recent node that refers to `q` and comes before a new
/// node of the given step and type.
pub open spec fn last_before(nodes: Seq<NodeView>, q: usize, step: int, gate_type: Seq<char>)
    -> Option<Seq<char>> {
    match latest_before(nodes, q, step, gate_type) {
        Some(j) => Some(nodes[j].id),
        None => None,
    }
}

/// What a new node on `qubits` depends on: for each qubit in turn the node
/// that `last_before` names, each id once.
pub open spec fn deps_for(
    nodes: Seq<NodeView>,
    qubits: Seq<usize>,
    step: int,
    gate_type: Seq<char>,
) -> Seq<Seq<char>>
    decreases qubits.len(),
{
    if qubits.len() == 0 {
        Seq::empty()
    } else {
        let before = deps_for(nodes, qubits.drop_last(), step, gate_type);
        match last_before(nodes, qubits.last(), step, gate_type) {
            Some(id) => if before.contains(id) {
                before
            } else {
                before.push(id)
            },
            None => before,
        }
    }
}

impl DagView {
    /// The node of a gate on `target`, with an optional control and
    /// parameters.
    pub open spec fn gate_node(
        self,
        gate_type: Seq<char>,
        target: usize,
        step: int,
        params: Seq<ParamView>,
        control: Option<usize>,
    ) -> NodeView {
        NodeView {
            id: node_id(gate_type, Some(target), step),
            gate_type,
            target: Some(target),
            control,
            step,
            params,
            dependencies: deps_for(self.nodes, seq![target] + opt_seq(control), step, gate_type),
            ..NodeView::blank()
        }
    }

    /// The node of a gate on `target` with several controls.
    pub open spec fn multi_control_node(
        self,
        gate_type: Seq<char>,
        target: usize,
        step: int,
        controls: Seq<usize>,
    ) -> NodeView {
        NodeView {
            id: node_id(gate_type, Some(target), step),
            gate_type,
            target: Some(target),
            controls,
            step,
            dependencies: deps_for(self.nodes, seq![target] + controls, step, gate_type),
            ..NodeView::blank()
        }
    }

    /// The node of a gate on `target` that runs only where classical bit
    /// `cbit` is set.
    pub open spec fn classical_control_node(
        self,
        gate_type: Seq<char>,
        target: usize,
        step: int,
        cbit: usize,
    ) -> NodeView {
        NodeView {
            id: node_id(gate_type, Some(target), step),
            gate_type,
            target: Some(target),
            step,
            classical_control: Some(cbit),
            dependencies: deps_for(self.nodes, seq![target], step, gate_type),
            ..NodeView::blank()
        }
    }

    /// The node of the inverse of a gate on `target`.
    pub open spec fn dagger_node(self, gate_type: Seq<char>, target: usize, step: int)
        -> NodeView {
        NodeView {
            id: node_id(gate_type, Some(target), step),
            gate_type,
            target: Some(target),
            step,
            is_dagger: true,
            dependencies: deps_for(self.nodes, seq![target], step, gate_type),
            ..NodeView::blank()
        }
    }

    /// The node of a reset of `target`.
    pub open spec fn reset_node(self, target: usize, step: int) -> NodeView {
        NodeView {
            id: node_id("RESET"@, Some(target), step),
            gate_type: "RESET"@,
            target: Some(target),
            step,
            is_reset: true,
            dependencies: deps_for(self.nodes, seq![target], step, "RESET"@),
            ..NodeView::blank()
        }
    }

    /// The node of a noise annotation on `target`.
    pub open spec fn noise_node(
        self,
        target: usize,
        step: int,
        noise_type: Seq<char>,
        params: Seq<ParamView>,
    ) -> NodeView {
        NodeView {
            id: node_id("NOISE"@, Some(target), step),
            gate_type: "NOISE"@,
            target: Some(target),
            step,
            params,
            is_noise: true,
            noise_type,
            dependencies: deps_for(self.nodes, seq![target], step, "NOISE"@),
            ..NodeView::blank()
        }
    }

    /// The node of an X on `target` that runs where the measurement of
    /// `source` gave 1.
    pub open spec fn measure_control_node(self, source: usize, target: usize, step: int)
        -> NodeView {
        NodeView {
            id: node_id("MCX"@, Some(target), step),
            gate_type: "MCX"@,
            target: Some(target),
            measure_source: Some(source),
            step,
            dependencies: deps_for(self.nodes, seq![source, target], step, "MCX"@),
            ..NodeView::blank()
        }
    }

    /// The circuit after a barrier was put at `step`: the barriers that were
    /// there are removed, then the new one is inserted.
    pub open spec fn with_barrier(self, step: int) -> DagView {
        self.remove_ids(ids_of(self.nodes.filter(barrier_at(step)))).add_node(barrier_node(step))
    }
}

/// The node of a barrier at `step`: it refers to no qubit and depends on
/// nothing.
pub open spec fn barrier_node(step: int) -> NodeView {
    NodeView {
        id: node_id("BARRIER"@, None, step),
        gate_type: "BARRIER"@,
        step,
        ..NodeView::blank()
    }
}

/// Every index in `s` is below `usize::MAX`.
pub open spec fn all_below_max(s: Seq<usize>) -> bool {
    forall|i: int| 0 <= i < s.len() ==> #[trigger] s[i] < usize::MAX
}

pub proof fn lemma_past_all_bound(s: Seq<usize>)
    requires
        all_below_max(s),
    ensures
        past_all(s) <= usize::MAX,
    decreases s.len(),
{
    if s.len() > 0 {
        assert(s.last() < usize::MAX);
        assert forall|i: int| 0 <= i < s.drop_last().len() implies #[trigger] s.drop_last()[i]
            < usize::MAX by {
            assert(s.drop_last()[i] == s[i]);
        }
        lemma_past_all_bound(s.drop_last());
    }
}

impl CircuitDAG {
    /// The place of the most recent node that refers to `q` and comes before
    /// a new node of the given step and type.
    fn find_latest(&self, q: usize, step: isize, gate_type: &Vec<char>) -> (r: Option<usize>)
        ensures
            latest_before(self@.nodes, q, step as int, gate_type@) == match r {
                Some(j) => Some(j as int),
                None => None,
            },
            r is Some ==> r->0 < self.nodes.len(),
    {
        let ghost all = self@.nodes;
        let mut best: Option<usize> = None;
        let mut i: usize = 0;
        while i < self.nodes.len()
            invariant
                i <= self.nodes.len(),
                all == self@.nodes,
                best is Some ==> best->0 < i,
                latest_before(all.take(i as int), q, step as int, gate_type@) == match best {
                    Some(j) => Some(j as int),
                    None => None,
                },
            decreases self.nodes.len() - i,
        {
            let n = &self.nodes[i];
            assert(all.take(i + 1).last() == n@);
            assert(all.take(i + 1).drop_last() =~= all.take(i as int));
            if n.references(q) && (n.step < step || (n.step == step && text_before(
                &chars_of(n.gate_type.as_str()),
                gate_type,
            ))) {
                match best {
                    Some(j) => {
                        let b = &self.nodes[j];
                        assert(all.take(i + 1)[j as int] == b@);
                        if n.step > b.step || (n.step == b.step && !text_before(
                            &chars_of(n.gate_type.as_str()),
                            &chars_of(b.gate_type.as_str()),
                        )) {
                            best = Some(i);
                        }
                    },
                    None => {
                        best = Some(i);
                    },
                }
            }
            i += 1;
        }
        assert(all.take(i as int) =~= all);
        best
    }

    /// The ids that a new node of the given step and type on `qubits_used`
    /// depends on: for each qubit the most recent node before the new one.
    pub fn build_deps(&self, qubits_used: &Vec<usize>, step: isize, gate_type: &str) -> (r: Vec<
        String,
    >)
        ensures
            texts_of(r@) == deps_for(self@.nodes, qubits_used@, step as int, gate_type@),
    {
        let gt = chars_of(gate_type);
        let mut r: Vec<String> = Vec::new();
        let mut k: usize = 0;
        let ghost all = self@.nodes;
        while k < qubits_used.len()
            invariant
                k <= qubits_used.len(),
                gt@ == gate_type@,
                all == self@.nodes,
                texts_of(r@) == deps_for(all, qubits_used@.take(k as int), step as int, gt@),
            decreases qubits_used.len() - k,
        {
            let q = qubits_used[k];
            assert(qubits_used@.take(k + 1).drop_last() =~= qubits_used@.take(k as int));
            let found = self.find_latest(q, step, &gt);
            if let Some(j) = found {
                assert(all[j as int] == self.nodes@[j as int]@);
                assert(last_before(all, q, step as int, gt@) == Some(all[j as int].id));
                if !holds_text(&r, &self.nodes[j].id) {
                    let ghost r0 = r@;
                    let id = self.nodes[j].id.clone();
                    r.push(id);
                    assert(texts_of(r@) =~= texts_of(r0).push(all[j as int].id));
                }
            }
            k += 1;
        }
        assert(qubits_used@.take(k as int) =~= qubits_used@);
        r
    }

    /// Adds a gate of the given type on `target` at `step`, with an optional
    /// control.
    pub fn add_gate(&mut self, gate_type: &str, target: usize, step: isize, control: Option<usize>)
        requires
            old(self).wf(),
            target < usize::MAX,
            control is Some ==> control->0 < usize::MAX,
        ensures
            final(self).wf(),
            old(self)@.built() ==> final(self)@.built(),
            final(self)@ == old(self)@.add_node(
                old(self)@.gate_node(gate_type@, target, step as int, Seq::empty(), control),
            ),
    {
        let params: Vec<ParamExpr> = Vec::new();
        assert(params_of(params@) =~= Seq::empty());
        self.add_parameterized_gate(gate_type, target, step, params, control);
    }

    /// Adds a gate of the given type with parameters on `target` at `step`,
    /// with an optional control.
    pub fn add_parameterized_gate(
        &mut self,
        gate_type: &str,
        target: usize,
        step: isize,
        params: Vec<ParamExpr>,
        control: Option<usize>,
    )
        requires
            old(self).wf(),
            target < usize::MAX,
            control is Some ==> control->0 < usize::MAX,
        ensures
            final(self).wf(),
            old(self)@.built() ==> final(self)@.built(),
            final(self)@ == old(self)@.add_node(
                old(self)@.gate_node(gate_type@, target, step as int, params_of(params@), control),
            ),
    {
        let mut qubits: Vec<usize> = Vec::new();
        qubits.push(target);
        if let Some(c) = control {
            qubits.push(c);
        }
        assert(qubits@ =~= seq![target] + opt_seq(control));
        let deps = self.build_deps(&qubits, step, gate_type);
        let mut node = DAGNode::default();
        node.id = generate_node_id(gate_type, Some(target), step);
        node.gate_type = String::from_str(gate_type);
        node.target = Some(target);
        node.control = control;
        node.step = step;
        node.params = params;
        node.dependencies = deps;
        proof {
            lemma_node_id_not_empty(gate_type@, Some(target), step as int);
            if self@.built() {
                lemma_add_keeps_built(self@, node@, qubits@);
            }
        }
        self.add_node(node);
    }

    /// Adds a gate of the given type on `target` at `step` with the given
    /// controls.
    pub fn add_multi_control_gate(
        &mut self,
        gate_type: &str,
        target: usize,
        step: isize,
        controls: Vec<usize>,
    )
        requires
            old(self).wf(),
            target < usize::MAX,
            all_below_max(controls@),
        ensures
            final(self).wf(),
            old(self)@.built() ==> final(self)@.built(),
            final(self)@ == old(self)@.add_node(
                old(self)@.multi_control_node(gate_type@, target, step as int, controls@),
            ),
    {
        let mut qubits: Vec<usize> = Vec::new();
        qubits.push(target);
        let mut i: usize = 0;
        while i < controls.len()
            invariant
                i <= controls.len(),
                qubits@ == seq![target] + controls@.take(i as int),
            decreases controls.len() - i,
        {
            qubits.push(controls[i]);
            assert(qubits@ =~= seq![target] + controls@.take(i + 1));
            i += 1;
        }
        assert(controls@.take(i as int) =~= controls@);
        let deps = self.build_deps(&qubits, step, gate_type);
        let mut node = DAGNode::default();
        node.id = generate_node_id(gate_type, Some(target), step);
        node.gate_type = String::from_str(gate_type);
        node.target = Some(target);
        node.controls = controls;
        node.step = step;
        node.dependencies = deps;
        proof {
            lemma_node_id_not_empty(gate_type@, Some(target), step as int);
            lemma_past_all_bound(node.controls@);
            if self@.built() {
                lemma_add_keeps_built(self@, node@, qubits@);
            }
        }
        self.add_node(node);
    }

    /// Adds a gate of the given type on `target` at `step` that runs only
    /// where classical bit `cbit` is set.
    pub fn add_classical_control_gate(
        &mut self,
        gate_type: &str,
        target: usize,
        step: isize,
        cbit: usize,
    )
        requires
            old(self).wf(),
            target < usize::MAX,
            cbit < usize::MAX,
        ensures
            final(self).wf(),
            old(self)@.built() ==> final(self)@.built(),
            final(self)@ == old(self)@.add_node(
                old(self)@.classical_control_node(gate_type@, target, step as int, cbit),
            ),
    {
        let mut qubits: Vec<usize> = Vec::new();
        qubits.push(target);
        let deps = self.build_deps(&qubits, step, gate_type);
        let mut node = DAGNode::default();
        node.id = generate_node_id(gate_type, Some(target), step);
        node.gate_type = String::from_str(gate_type);
        node.target = Some(target);
        node.step = step;
        node.classical_control = Some(cbit);
        node.dependencies = deps;
        proof {
            lemma_node_id_not_empty(gate_type@, Some(target), step as int);
            if self@.built() {
                lemma_add_keeps_built(self@, node@, qubits@);
            }
        }
        self.add_node(node);
    }

    /// Adds the inverse of a gate of the given type on `target` at `step`.
    pub fn add_dagger_gate(&mut self, gate_type: &str, target: usize, step: isize)
        requires
            old(self).wf(),
            target < usize::MAX,
        ensures
            final(self).wf(),
            old(self)@.built() ==> final(self)@.built(),
            final(self)@ == old(self)@.add_node(
                old(self)@.dagger_node(gate_type@, target, step as int),
            ),
    {
        let mut qubits: Vec<usize> = Vec::new();
        qubits.push(target);
        let deps = self.build_deps(&qubits, step, gate_type);
        let mut node = DAGNode::default();
        node.id = generate_node_id(gate_type, Some(target), step);
        node.gate_type = String::from_str(gate_type);
        node.target = Some(target);
        node.step = step;
        node.is_dagger = true;
        node.dependencies = deps;
        proof {
            lemma_node_id_not_empty(gate_type@, Some(target), step as int);
            if self@.built() {
                lemma_add_keeps_built(self@, node@, qubits@);
            }
        }
        self.add_node(node);
    }

    /// Adds a reset of `target` at `step`.
    pub fn add_reset(&mut self, target: usize, step: isize)
        requires
            old(self).wf(),
            target < usize::MAX,
        ensures
            final(self).wf(),
            old(self)@.built() ==> final(self)@.built(),
            final(self)@ == old(self)@.add_node(old(self)@.reset_node(target, step as int)),
    {
        let mut qubits: Vec<usize> = Vec::new();
        qubits.push(target);
        let deps = self.build_deps(&qubits, step, "RESET");
        let mut node = DAGNode::default();
        node.id = generate_node_id("RESET", Some(target), step);
        node.gate_type = String::from_str("RESET");
        node.target = Some(target);
        node.step = step;
        node.is_reset = true;
        node.dependencies = deps;
        proof {
            lemma_node_id_not_empty("RESET"@, Some(target), step as int);
            if self@.built() {
                lemma_add_keeps_built(self@, node@, qubits@);
            }
        }
        self.add_node(node);
    }

    /// Adds a noise annotation of the given kind on `target` at `step`.
    pub fn add_noise(&mut self, target: usize, step: isize, noise_type: &str, params: Vec<ParamExpr>)
        requires
            old(self).wf(),
            target < usize::MAX,
        ensures
            final(self).wf(),
            old(self)@.built() ==> final(self)@.built(),
            final(self)@ == old(self)@.add_node(
                old(self)@.noise_node(target, step as int, noise_type@, params_of(params@)),
            ),
    {
        let mut qubits: Vec<usize> = Vec::new();
        qubits.push(target);
        let deps = self.build_deps(&qubits, step, "NOISE");
        let mut node = DAGNode::default();
        node.id = generate_node_id("NOISE", Some(target), step);
        node.gate_type = String::from_str("NOISE");
        node.target = Some(target);
        node.step = step;
        node.params = params;
        node.is_noise = true;
        node.noise_type = String::from_str(noise_type);
        node.dependencies = deps;
        proof {
            lemma_node_id_not_empty("NOISE"@, Some(target), step as int);
            if self@.built() {
                lemma_add_keeps_built(self@, node@, qubits@);
            }
        }
        self.add_node(node);
    }

    /// Adds an X on `target` at `step` that runs where the measurement of
    /// `source` gave 1.
    pub fn add_measure_control_gate(&mut self, source: usize, target: usize, step: isize)
        requires
            old(self).wf(),
            target < usize::MAX,
            source < usize::MAX,
        ensures
            final(self).wf(),
            old(self)@.built() ==> final(self)@.built(),
            final(self)@ == old(self)@.add_node(
                old(self)@.measure_control_node(source, target, step as int),
            ),
    {
        let mut qubits: Vec<usize> = Vec::new();
        qubits.push(source);
        qubits.push(target);
        assert(qubits@ =~= seq![source, target]);
        let deps = self.build_deps(&qubits, step, "MCX");
        let mut node = DAGNode::default();
        node.id = generate_node_id("MCX", Some(target), step);
        node.gate_type = String::from_str("MCX");
        node.target = Some(target);
        node.measure_source = Some(source);
        node.step = step;
        node.dependencies = deps;
        proof {
            lemma_node_id_not_empty("MCX"@, Some(target), step as int);
            if self@.built() {
                lemma_add_keeps_built(self@, node@, qubits@);
            }
        }
        self.add_node(node);
    }

    /// Puts a barrier at `step`, in place of any barrier that is there.
    pub fn add_barrier(&mut self, step: isize)
        requires
            old(self).wf(),
        ensures
            final(self).wf(),
            old(self)@.built() ==> final(self)@.built(),
            final(self)@ == old(self)@.with_barrier(step as int),
    {
        let mut ids: Vec<String> = Vec::new();
        let mut i: usize = 0;
        let ghost all = self@.nodes;
        let ghost p = barrier_at(step as int);
        assert(ids_of(all.take(0).filter(p)) =~= Seq::empty()) by {
            reveal(Seq::filter);
        }
        while i < self.nodes.len()
            invariant
                i <= self.nodes.len(),
                *self == *old(self),
                all == self@.nodes,
                p == barrier_at(step as int),
                texts_of(ids@) == ids_of(all.take(i as int).filter(p)),
            decreases self.nodes.len() - i,
        {
            let ghost r0 = ids@;
            let ghost prev = all.take(i as int);
            proof {
                assert(all.take(i + 1) =~= prev.push(all[i as int]));
                prev.lemma_filter_push(all[i as int], p);
                assert(all[i as int] == self.nodes@[i as int]@);
            }
            if self.nodes[i].step == step && crate::text::same_text(
                self.nodes[i].gate_type.as_str(),
                "BARRIER",
            ) {
                let id = self.nodes[i].id.clone();
                ids.push(id);
                assert(texts_of(ids@) =~= texts_of(r0).push(all[i as int].id));
                assert(ids_of(all.take(i + 1).filter(p)) =~= ids_of(prev.filter(p)).push(
                    all[i as int].id,
                ));
            }
            i += 1;
        }
        assert(all.take(i as int) =~= all);
        self.remove_nodes(&ids);
        let mut node = DAGNode::default();
        node.id = generate_node_id("BARRIER", None, step);
        node.gate_type = String::from_str("BARRIER");
        node.step = step;
        proof {
            lemma_node_id_not_empty("BARRIER"@, None, step as int);
            if old(self)@.built() {
                lemma_barrier_keeps_built(old(self)@, step as int);
            }
        }
        self.add_node(node);
    }
}

} // verus!
