//! One operation of a circuit and its mathematical content.

use vstd::prelude::*;
use vstd::string::*;
use crate::params::{clone_params, params_of, ParamExpr, ParamView};
use crate::text::{dec_index, dec_int, push_index, push_int, texts_of};

verus! {

/// One operation of a circuit.
///
/// `target`, `control`, `measure_source` and `classical_control` are absent
/// where they are `None`. `dependencies` holds the ids of the nodes that come
/// before this one.
#[derive(Debug)]
pub struct DAGNode {
    pub id: String,
    pub gate_type: String,
    pub target: Option<usize>,
    pub control: Option<usize>,
    pub controls: Vec<usize>,
    pub measure_source: Option<usize>,
    pub step: isize,
    pub params: Vec<ParamExpr>,
    pub is_dagger: bool,
    pub is_reset: bool,
    pub classical_control: Option<usize>,
    pub is_noise: bool,
    pub noise_type: String,
    pub dependencies: Vec<String>,
}

/// The mathematical content of a [`DAGNode`].
pub ghost struct NodeView {
    pub id: Seq<char>,
    pub gate_type: Seq<char>,
    pub target: Option<usize>,
    pub control: Option<usize>,
    pub controls: Seq<usize>,
    pub measure_source: Option<usize>,
    pub step: int,
    pub params: Seq<ParamView>,
    pub is_dagger: bool,
    pub is_reset: bool,
    pub classical_control: Option<usize>,
    pub is_noise: bool,
    pub noise_type: Seq<char>,
    pub dependencies: Seq<Seq<char>>,
}

impl View for DAGNode {
    type V = NodeView;

    open spec fn view(&self) -> NodeView {
        NodeView {
            id: self.id@,
            gate_type: self.gate_type@,
            target: self.target,
            control: self.control,
            controls: self.controls@,
            measure_source: self.measure_source,
            step: self.step as int,
            params: params_of(self.params@),
            is_dagger: self.is_dagger,
            is_reset: self.is_reset,
            classical_control: self.classical_control,
            is_noise: self.is_noise,
            noise_type: self.noise_type@,
            dependencies: texts_of(self.dependencies@),
        }
    }
}

/// The larger of two natural numbers.
pub open spec fn max_nat(a: nat, b: nat) -> nat {
    if a >= b {
        a
    } else {
        b
    }
}

/// One more than the index, or 0 where there is none.
pub open spec fn past(q: Option<usize>) -> nat {
    match q {
        Some(n) => (n + 1) as nat,
        None => 0,
    }
}

/// One more than the largest element, or 0 for the empty sequence.
pub open spec fn past_all(s: Seq<usize>) -> nat
    decreases s.len(),
{
    if s.len() == 0 {
        0
    } else {
        max_nat(past_all(s.drop_last()), (s.last() + 1) as nat)
    }
}

/// The id that a node gets from its type, target and step.
pub open spec fn node_id(gate_type: Seq<char>, target: Option<usize>, step: int) -> Seq<char> {
    gate_type + "_q"@ + dec_index(target) + "_s"@ + dec_int(step)
}

impl NodeView {
    /// The node without any field set.
    pub open spec fn blank() -> NodeView {
        NodeView {
            id: Seq::empty(),
            gate_type: Seq::empty(),
            target: None,
            control: None,
            controls: Seq::empty(),
            measure_source: None,
            step: 0,
            params: Seq::empty(),
            is_dagger: false,
            is_reset: false,
            classical_control: None,
            is_noise: false,
            noise_type: Seq::empty(),
            dependencies: Seq::empty(),
        }
    }

    /// Whether the node refers to qubit `q` as target, control, one of its
    /// controls or measurement source.
    pub open spec fn touches(self, q: usize) -> bool {
        self.target == Some(q) || self.control == Some(q) || self.measure_source == Some(q)
            || self.controls.contains(q)
    }

    /// Whether the node spans more than its target: it has a control,
    /// controls or a measurement source.
    pub open spec fn is_multi(self) -> bool {
        self.control is Some || self.controls.len() > 0 || self.measure_source is Some
    }

    /// The qubits the node refers to: target, control, controls, measurement
    /// source, in this order, each where present.
    pub open spec fn qubits(self) -> Seq<usize> {
        opt_seq(self.target) + opt_seq(self.control) + self.controls + opt_seq(
            self.measure_source,
        )
    }

    /// Whether every index of the node is below `usize::MAX`.
    pub open spec fn fits(self) -> bool {
        &&& past(self.target) <= usize::MAX
        &&& past(self.control) <= usize::MAX
        &&& past(self.measure_source) <= usize::MAX
        &&& past(self.classical_control) <= usize::MAX
        &&& past_all(self.controls) <= usize::MAX
    }

    /// The number of qubits a circuit needs to hold the node: one more than
    /// the largest qubit index it refers to, and 0 where it refers to none.
    pub open spec fn qubits_needed(self) -> nat {
        max_nat(
            max_nat(past(self.target), past(self.control)),
            max_nat(past_all(self.controls), past(self.measure_source)),
        )
    }

    /// The number of classical bits a circuit needs to hold the node: one
    /// more than the largest bit it reads or writes. A measurement writes the
    /// bit of its qubit's index.
    pub open spec fn cbits_needed(self) -> nat {
        max_nat(
            max_nat(
                past(self.classical_control),
                if self.gate_type == "MEASURE"@ {
                    past(self.target)
                } else {
                    0
                },
            ),
            past(self.measure_source),
        )
    }

    /// The node with its id filled in from type, target and step where it
    /// had none.
    pub open spec fn with_id(self) -> NodeView {
        if self.id.len() == 0 {
            NodeView { id: node_id(self.gate_type, self.target, self.step), ..self }
        } else {
            self
        }
    }
}

/// The sequence of the one index, or the empty sequence.
pub open spec fn opt_seq(q: Option<usize>) -> Seq<usize> {
    match q {
        Some(n) => seq![n],
        None => Seq::empty(),
    }
}

/// The contents of a vector of nodes.
pub open spec fn nodes_of(v: Seq<DAGNode>) -> Seq<NodeView> {
    v.map_values(|n: DAGNode| n@)
}

/// A copy of a vector of strings.
pub fn clone_texts(v: &Vec<String>) -> (r: Vec<String>)
    ensures
        texts_of(r@) == texts_of(v@),
{
    let mut r: Vec<String> = Vec::new();
    let mut i: usize = 0;
    while i < v.len()
        invariant
            i <= v.len(),
            texts_of(r@) == texts_of(v@.take(i as int)),
        decreases v.len() - i,
    {
        let ghost r0 = r@;
        let x = v[i].clone();
        r.push(x);
        assert(texts_of(r@) =~= texts_of(r0).push(x@));
        assert(texts_of(v@.take(i + 1)) =~= texts_of(v@.take(i as int)).push(v@[i as int]@));
        i += 1;
    }
    assert(v@.take(i as int) =~= v@);
    r
}

/// A copy of a vector of indices.
pub fn clone_indices(v: &Vec<usize>) -> (r: Vec<usize>)
    ensures
        r@ == v@,
{
    let mut r: Vec<usize> = Vec::new();
    let mut i: usize = 0;
    while i < v.len()
        invariant
            i <= v.len(),
            r@ == v@.take(i as int),
        decreases v.len() - i,
    {
        r.push(v[i]);
        i += 1;
    }
    assert(v@.take(i as int) =~= v@);
    r
}

impl Clone for DAGNode {
    fn clone(&self) -> (r: Self)
        ensures
            r@ == self@,
    {
        DAGNode {
            id: self.id.clone(),
            gate_type: self.gate_type.clone(),
            target: self.target,
            control: self.control,
            controls: clone_indices(&self.controls),
            measure_source: self.measure_source,
            step: self.step,
            params: clone_params(&self.params),
            is_dagger: self.is_dagger,
            is_reset: self.is_reset,
            classical_control: self.classical_control,
            is_noise: self.is_noise,
            noise_type: self.noise_type.clone(),
            dependencies: clone_texts(&self.dependencies),
        }
    }
}

impl Default for DAGNode {
    /// The node without any field set.
    fn default() -> (r: Self)
        ensures
            r@ == NodeView::blank(),
    {
        let r = DAGNode {
            id: String::new(),
            gate_type: String::new(),
            target: None,
            control: None,
            controls: Vec::new(),
            measure_source: None,
            step: 0,
            params: Vec::new(),
            is_dagger: false,
            is_reset: false,
            classical_control: None,
            is_noise: false,
            noise_type: String::new(),
            dependencies: Vec::new(),
        };
        assert(r@.params =~= Seq::empty());
        assert(r@.dependencies =~= Seq::empty());
        r
    }
}

/// An id that a node gets from its type, target and step is never empty.
pub proof fn lemma_node_id_not_empty(gate_type: Seq<char>, target: Option<usize>, step: int)
    ensures
        node_id(gate_type, target, step).len() > 0,
{
    reveal_strlit("_q");
}

/// The id of a node of the given type, target and step:
/// the type, `_q`, the target (`-1` where there is none), `_s`, the step.
pub fn generate_node_id(gate_type: &str, target: Option<usize>, step: isize) -> (id: String)
    ensures
        id@ == node_id(gate_type@, target, step as int),
{
    let mut id = String::from_str(gate_type);
    id.append("_q");
    push_index(&mut id, target);
    id.append("_s");
    push_int(&mut id, step);
    id
}

impl DAGNode {
    /// Whether the node refers to qubit `q`.
    pub fn references(&self, q: usize) -> (r: bool)
        ensures
            r == self@.touches(q),
    {
        if self.target == Some(q) || self.control == Some(q) || self.measure_source == Some(q) {
            return true;
        }
        has_index(&self.controls, q)
    }

    /// Whether the node has a control, controls or a measurement source.
    pub fn is_multi_qubit(&self) -> (r: bool)
        ensures
            r == self@.is_multi(),
    {
        self.control.is_some() || self.controls.len() > 0 || self.measure_source.is_some()
    }

    /// The qubits the node refers to, in the order target, control,
    /// controls, measurement source.
    pub fn qubits_used(&self) -> (r: Vec<usize>)
        ensures
            r@ == self@.qubits(),
    {
        let mut r: Vec<usize> = Vec::new();
        if let Some(t) = self.target {
            r.push(t);
        }
        if let Some(c) = self.control {
            r.push(c);
        }
        let ghost head = r@;
        assert(head =~= opt_seq(self.target) + opt_seq(self.control));
        let mut i: usize = 0;
        while i < self.controls.len()
            invariant
                i <= self.controls.len(),
                r@ == head + self.controls@.take(i as int),
            decreases self.controls.len() - i,
        {
            r.push(self.controls[i]);
            assert(r@ =~= head + self.controls@.take(i + 1));
            i += 1;
        }
        assert(self.controls@.take(i as int) =~= self.controls@);
        if let Some(m) = self.measure_source {
            r.push(m);
        }
        assert(r@ =~= self@.qubits());
        r
    }
}

impl DAGNode {
    /// Whether every index of the node is below `usize::MAX`.
    pub fn is_in_range(&self) -> (r: bool)
        ensures
            r == self@.fits(),
    {
        let mut controls_ok = true;
        let mut i: usize = 0;
        proof {
            lemma_past_all_max(self.controls@);
        }
        while i < self.controls.len()
            invariant
                i <= self.controls.len(),
                controls_ok == forall|k: int|
                    0 <= k < i ==> #[trigger] self.controls@[k] < usize::MAX,
            decreases self.controls.len() - i,
        {
            if self.controls[i] == usize::MAX {
                controls_ok = false;
            }
            i += 1;
        }
        self.target != Some(usize::MAX) && self.control != Some(usize::MAX) && self.measure_source
            != Some(usize::MAX) && self.classical_control != Some(usize::MAX) && controls_ok
    }
}

/// All indices of `s` are below `usize::MAX` exactly where one more than
/// the largest is at most `usize::MAX`.
pub proof fn lemma_past_all_max(s: Seq<usize>)
    ensures
        past_all(s) <= usize::MAX <==> forall|i: int|
            0 <= i < s.len() ==> #[trigger] s[i] < usize::MAX,
    decreases s.len(),
{
    if s.len() > 0 {
        lemma_past_all_max(s.drop_last());
        if past_all(s) <= usize::MAX {
            assert forall|i: int| 0 <= i < s.len() implies #[trigger] s[i] < usize::MAX by {
                if i < s.len() - 1 {
                    assert(s.drop_last()[i] == s[i]);
                }
            }
        }
        if forall|i: int| 0 <= i < s.len() ==> #[trigger] s[i] < usize::MAX {
            assert(s[s.len() - 1] < usize::MAX);
            assert forall|i: int| 0 <= i < s.drop_last().len() implies #[trigger] s.drop_last()[i]
                < usize::MAX by {
                assert(s.drop_last()[i] == s[i]);
            }
        }
    }
}

/// Whether `v` holds `q`.
pub fn has_index(v: &Vec<usize>, q: usize) -> (r: bool)
    ensures
        r == v@.contains(q),
{
    let mut i: usize = 0;
    while i < v.len()
        invariant
            i <= v.len(),
            forall|k: int| 0 <= k < i ==> v@[k] != q,
        decreases v.len() - i,
    {
        if v[i] == q {
            return true;
        }
        i += 1;
    }
    false
}

} // verus!
