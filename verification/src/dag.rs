//! The circuit as a set of nodes with dependency edges.

use vstd::prelude::*;
use vstd::string::*;
use crate::node::{max_nat, nodes_of, past, past_all, DAGNode, NodeView, generate_node_id};
use crate::node::clone_texts;
use crate::text::{same_text, texts_of};

verus! {

/// A circuit: its nodes in the order in which they were inserted, and the
/// number of qubits and of classical bits.
#[derive(Debug)]
pub struct CircuitDAG {
    pub nodes: Vec<DAGNode>,
    pub num_qubits: usize,
    pub num_cbits: usize,
    /// The ids of the nodes without dependencies, kept up to date by every
    /// operation.
    pub root_nodes: Vec<String>,
}

/// The mathematical content of a [`CircuitDAG`].
pub ghost struct DagView {
    pub nodes: Seq<NodeView>,
    pub num_qubits: nat,
    pub num_cbits: nat,
}

impl View for CircuitDAG {
    type V = DagView;

    open spec fn view(&self) -> DagView {
        DagView {
            nodes: nodes_of(self.nodes@),
            num_qubits: self.num_qubits as nat,
            num_cbits: self.num_cbits as nat,
        }
    }
}

/// The test that a text is none of `ids`.
pub open spec fn not_among(ids: Seq<Seq<char>>) -> spec_fn(Seq<char>) -> bool {
    |d: Seq<char>| !ids.contains(d)
}

/// The test that a node's id is none of `ids`.
pub open spec fn id_not_among(ids: Seq<Seq<char>>) -> spec_fn(NodeView) -> bool {
    |n: NodeView| !ids.contains(n.id)
}

/// The test that a node's id is not `id`.
pub open spec fn other_id(id: Seq<char>) -> spec_fn(NodeView) -> bool {
    |n: NodeView| n.id != id
}

/// The node without the dependencies that `ids` holds.
pub open spec fn pruned(n: NodeView, ids: Seq<Seq<char>>) -> NodeView {
    NodeView { dependencies: n.dependencies.filter(not_among(ids)), ..n }
}

/// The map that takes from a node the dependencies that `ids` holds.
pub open spec fn pruner(ids: Seq<Seq<char>>) -> spec_fn(NodeView) -> NodeView {
    |n: NodeView| pruned(n, ids)
}

/// The nodes whose id is not in `ids`, each without the dependencies that
/// `ids` holds.
pub open spec fn without_ids(nodes: Seq<NodeView>, ids: Seq<Seq<char>>) -> Seq<NodeView> {
    nodes.filter(id_not_among(ids)).map_values(pruner(ids))
}

/// No two of the nodes share an id.
pub open spec fn distinct_ids(nodes: Seq<NodeView>) -> bool {
    forall|i: int, j: int| 0 <= i < j < nodes.len() ==> nodes[i].id != nodes[j].id
}

/// Whether the node is at `step` and refers to qubit `q`.
pub open spec fn is_at(n: NodeView, step: int, q: usize) -> bool {
    n.step == step && n.touches(q)
}

/// The place of the first node at `step` that refers to `q`.
pub open spec fn first_at(nodes: Seq<NodeView>, step: int, q: usize) -> Option<int>
    decreases nodes.len(),
{
    if nodes.len() == 0 {
        None
    } else if is_at(nodes[0], step, q) {
        Some(0)
    } else {
        match first_at(nodes.drop_first(), step, q) {
            Some(i) => Some(i + 1),
            None => None,
        }
    }
}

/// Whether the node keeps a gate from being placed on `q` at `step`: it is
/// a barrier at that step, which claims every qubit, or it is at that step,
/// refers to `q` and spans more than its target.
pub open spec fn blocks(n: NodeView, step: int, q: usize) -> bool {
    n.step == step && (n.gate_type == "BARRIER"@ || (n.touches(q) && n.is_multi()))
}

/// The test that a node refers to `q`.
pub open spec fn on_qubit(q: usize) -> spec_fn(NodeView) -> bool {
    |n: NodeView| n.touches(q)
}

/// The test that a node is a barrier at `step`.
pub open spec fn barrier_at(step: int) -> spec_fn(NodeView) -> bool {
    |n: NodeView| n.step == step && n.gate_type == "BARRIER"@
}

/// The ids of the nodes, in order.
pub open spec fn ids_of(nodes: Seq<NodeView>) -> Seq<Seq<char>> {
    nodes.map_values(|n: NodeView| n.id)
}

/// The ids of the nodes that have no dependencies, in the order of the nodes.
pub open spec fn roots_of(nodes: Seq<NodeView>) -> Seq<Seq<char>> {
    nodes.filter(|n: NodeView| n.dependencies.len() == 0).map_values(|n: NodeView| n.id)
}

/// The largest step among the nodes, 0 where there are none.
pub open spec fn max_step_of(nodes: Seq<NodeView>) -> int
    decreases nodes.len(),
{
    if nodes.len() == 0 {
        0
    } else if nodes.len() == 1 {
        nodes[0].step
    } else {
        let m = max_step_of(nodes.drop_last());
        if nodes.last().step > m {
            nodes.last().step
        } else {
            m
        }
    }
}

impl DagView {
    /// No two nodes share an id.
    pub open spec fn unique_ids(self) -> bool {
        distinct_ids(self.nodes)
    }

    /// Every index that a node refers to is below the circuit's counts.
    pub open spec fn covered(self) -> bool {
        forall|i: int|
            0 <= i < self.nodes.len() ==> (#[trigger] self.nodes[i]).qubits_needed()
                <= self.num_qubits && self.nodes[i].cbits_needed() <= self.num_cbits
    }

    /// The invariant of a circuit: ids are unique and the counts cover
    /// every node.
    pub open spec fn valid(self) -> bool {
        self.unique_ids() && self.covered()
    }

    /// Whether a node has the id.
    pub open spec fn has_id(self, id: Seq<char>) -> bool {
        exists|i: int| 0 <= i < self.nodes.len() && self.nodes[i].id == id
    }

    /// The circuit after `n` was inserted: `n`, with its id filled in, takes
    /// the place of any node of the same id and stands last; the counts grow
    /// to cover it.
    pub open spec fn add_node(self, n: NodeView) -> DagView {
        let m = n.with_id();
        DagView {
            nodes: self.nodes.filter(other_id(m.id)).push(m),
            num_qubits: max_nat(self.num_qubits, m.qubits_needed()),
            num_cbits: max_nat(self.num_cbits, m.cbits_needed()),
        }
    }

    /// The circuit without the nodes whose id is in `ids`, and without any
    /// dependency on them.
    pub open spec fn remove_ids(self, ids: Seq<Seq<char>>) -> DagView {
        DagView { nodes: without_ids(self.nodes, ids), ..self }
    }

    /// The circuit without the node of the given id, and without any
    /// dependency on it.
    pub open spec fn remove_node(self, id: Seq<char>) -> DagView {
        self.remove_ids(seq![id])
    }

    /// Whether a gate on `qubits` can be placed at `step`: where there are
    /// qubits, no barrier is at that step, and no node there that refers to
    /// one of them spans more than its target.
    pub open spec fn can_place(self, step: int, qubits: Seq<usize>) -> bool {
        forall|i: int, j: int|
            0 <= i < self.nodes.len() && 0 <= j < qubits.len() ==> !blocks(
                #[trigger] self.nodes[i],
                step,
                #[trigger] qubits[j],
            )
    }
}

/// Filtering keeps ids distinct, and keeps only nodes that were there and
/// pass the test.
pub proof fn lemma_filter_keeps(s: Seq<NodeView>, p: spec_fn(NodeView) -> bool)
    requires
        distinct_ids(s),
    ensures
        distinct_ids(s.filter(p)),
        forall|k: int|
            0 <= k < s.filter(p).len() ==> s.contains(#[trigger] s.filter(p)[k]) && p(
                s.filter(p)[k],
            ),
    decreases s.len(),
{
    reveal(Seq::filter);
    if s.len() > 0 {
        let t = s.drop_last();
        lemma_filter_keeps(t, p);
        let f0 = t.filter(p);
        let f = s.filter(p);
        assert forall|k: int| 0 <= k < f.len() implies s.contains(#[trigger] f[k]) && p(f[k]) by {
            if k < f0.len() {
                assert(f[k] == f0[k]);
                assert(t.contains(f0[k]));
                let j = choose|j: int| 0 <= j < t.len() && t[j] == f0[k];
                assert(s[j] == f[k]);
            } else {
                assert(s[s.len() - 1] == f[k]);
            }
        }
        assert forall|i: int, j: int| 0 <= i < j < f.len() implies f[i].id != f[j].id by {
            if j < f0.len() {
                assert(f[i] == f0[i] && f[j] == f0[j]);
            } else {
                assert(f[i] == f0[i]);
                assert(t.contains(f0[i]));
                let a = choose|a: int| 0 <= a < t.len() && t[a] == f0[i];
                assert(s[a].id != s[s.len() - 1].id);
            }
        }
    }
}

/// Whether two strings hold the same characters.
pub fn same_string(a: &String, b: &String) -> (r: bool)
    ensures
        r == (a@ == b@),
{
    *a == *b
}

/// Whether `ids` holds `id`.
pub fn holds_text(ids: &Vec<String>, id: &String) -> (r: bool)
    ensures
        r == texts_of(ids@).contains(id@),
{
    let mut i: usize = 0;
    while i < ids.len()
        invariant
            i <= ids.len(),
            forall|k: int| 0 <= k < i ==> texts_of(ids@)[k] != id@,
        decreases ids.len() - i,
    {
        if same_string(&ids[i], id) {
            assert(texts_of(ids@)[i as int] == id@);
            return true;
        }
        i += 1;
    }
    false
}

/// One more than the largest index in `v`, or 0 where it is empty.
fn past_controls(v: &Vec<usize>) -> (r: usize)
    requires
        past_all(v@) <= usize::MAX,
    ensures
        r == past_all(v@),
{
    let mut r: usize = 0;
    let mut i: usize = 0;
    while i < v.len()
        invariant
            i <= v.len(),
            r == past_all(v@.take(i as int)),
            past_all(v@) <= usize::MAX,
        decreases v.len() - i,
    {
        proof {
            assert(v@.take(i + 1).drop_last() =~= v@.take(i as int));
            lemma_past_all_prefix(v@, i + 1);
        }
        if v[i] + 1 > r {
            r = v[i] + 1;
        }
        i += 1;
    }
    assert(v@.take(i as int) =~= v@);
    r
}

proof fn lemma_past_all_prefix(s: Seq<usize>, k: int)
    requires
        0 <= k <= s.len(),
    ensures
        past_all(s.take(k)) <= past_all(s),
    decreases s.len() - k,
{
    if k < s.len() {
        lemma_past_all_prefix(s, k + 1);
        assert(s.take(k + 1).drop_last() =~= s.take(k));
    } else {
        assert(s.take(k) =~= s);
    }
}

fn past_index(q: Option<usize>) -> (r: usize)
    requires
        past(q) <= usize::MAX,
    ensures
        r == past(q),
{
    match q {
        Some(n) => n + 1,
        None => 0,
    }
}

fn larger(a: usize, b: usize) -> (r: usize)
    ensures
        r == max_nat(a as nat, b as nat),
{
    if a >= b {
        a
    } else {
        b
    }
}

impl DAGNode {
    /// The number of qubits a circuit needs to hold the node.
    pub fn qubits_needed(&self) -> (r: usize)
        requires
            self@.fits(),
        ensures
            r == self@.qubits_needed(),
    {
        larger(
            larger(past_index(self.target), past_index(self.control)),
            larger(past_controls(&self.controls), past_index(self.measure_source)),
        )
    }

    /// The number of classical bits a circuit needs to hold the node.
    pub fn cbits_needed(&self) -> (r: usize)
        requires
            self@.fits(),
        ensures
            r == self@.cbits_needed(),
    {
        let m = if same_text(self.gate_type.as_str(), "MEASURE") {
            past_index(self.target)
        } else {
            0
        };
        larger(larger(past_index(self.classical_control), m), past_index(self.measure_source))
    }
}

impl CircuitDAG {
    /// The invariant of a circuit: ids are unique, the counts cover every
    /// node, and the cached roots are those of the nodes.
    pub open spec fn wf(&self) -> bool {
        self@.valid() && texts_of(self.root_nodes@) == roots_of(self@.nodes)
    }

    /// The empty circuit.
    pub fn new() -> (r: Self)
        ensures
            r.wf(),
            r@.built(),
            r@ == (DagView { nodes: Seq::empty(), num_qubits: 0, num_cbits: 0 }),
    {
        let r = CircuitDAG {
            nodes: Vec::new(),
            num_qubits: 0,
            num_cbits: 0,
            root_nodes: Vec::new(),
        };
        assert(r@.nodes =~= Seq::empty());
        assert(roots_of(r@.nodes) =~= Seq::empty()) by {
            reveal(Seq::filter);
        }
        assert(texts_of(r.root_nodes@) =~= Seq::empty());
        r
    }

    fn update_root_nodes(&mut self)
        ensures
            final(self).nodes == old(self).nodes,
            final(self).num_qubits == old(self).num_qubits,
            final(self).num_cbits == old(self).num_cbits,
            texts_of(final(self).root_nodes@) == roots_of(final(self)@.nodes),
    {
        let mut roots: Vec<String> = Vec::new();
        let mut i: usize = 0;
        assert(roots_of(self@.nodes.take(0)) =~= Seq::empty()) by {
            reveal(Seq::filter);
        }
        while i < self.nodes.len()
            invariant
                i <= self.nodes.len(),
                *self == *old(self),
                texts_of(roots@) == roots_of(self@.nodes.take(i as int)),
            decreases self.nodes.len() - i,
        {
            let ghost r0 = roots@;
            let ghost prev = self@.nodes.take(i as int);
            let ghost p = |n: NodeView| n.dependencies.len() == 0;
            proof {
                assert(self@.nodes.take(i + 1) =~= prev.push(self@.nodes[i as int]));
                prev.lemma_filter_push(self@.nodes[i as int], p);
            }
            if self.nodes[i].dependencies.len() == 0 {
                let id = self.nodes[i].id.clone();
                roots.push(id);
                assert(texts_of(roots@) =~= texts_of(r0).push(self@.nodes[i as int].id));
                assert(roots_of(self@.nodes.take(i + 1)) =~= roots_of(prev).push(
                    self@.nodes[i as int].id,
                ));
            }
            i += 1;
        }
        assert(self@.nodes.take(i as int) =~= self@.nodes);
        self.root_nodes = roots;
    }

    /// The largest step among the nodes, 0 where there are none.
    pub fn max_step(&self) -> (r: isize)
        ensures
            r == max_step_of(self@.nodes),
    {
        if self.nodes.len() == 0 {
            return 0;
        }
        let mut m: isize = self.nodes[0].step;
        let mut i: usize = 1;
        assert(self@.nodes.take(1) =~= seq![self@.nodes[0]]);
        while i < self.nodes.len()
            invariant
                1 <= i <= self.nodes.len(),
                m == max_step_of(self@.nodes.take(i as int)),
            decreases self.nodes.len() - i,
        {
            assert(self@.nodes.take(i + 1).drop_last() =~= self@.nodes.take(i as int));
            if self.nodes[i].step > m {
                m = self.nodes[i].step;
            }
            i += 1;
        }
        assert(self@.nodes.take(i as int) =~= self@.nodes);
        m
    }
}

/// The dependencies that are none of `ids`, in order.
fn prune_deps(deps: &Vec<String>, ids: &Vec<String>) -> (r: Vec<String>)
    ensures
        texts_of(r@) == texts_of(deps@).filter(not_among(texts_of(ids@))),
{
    let mut r: Vec<String> = Vec::new();
    let mut i: usize = 0;
    let ghost p = not_among(texts_of(ids@));
    assert(texts_of(deps@.take(0)).filter(p) =~= Seq::empty()) by {
        reveal(Seq::filter);
    }
    while i < deps.len()
        invariant
            i <= deps.len(),
            p == not_among(texts_of(ids@)),
            texts_of(r@) == texts_of(deps@.take(i as int)).filter(p),
        decreases deps.len() - i,
    {
        let ghost r0 = r@;
        let ghost prev = texts_of(deps@.take(i as int));
        proof {
            assert(texts_of(deps@.take(i + 1)) =~= prev.push(deps@[i as int]@));
            prev.lemma_filter_push(deps@[i as int]@, p);
        }
        if !holds_text(ids, &deps[i]) {
            let d = deps[i].clone();
            r.push(d);
            assert(texts_of(r@) =~= texts_of(r0).push(deps@[i as int]@));
        }
        i += 1;
    }
    assert(deps@.take(i as int) =~= deps@);
    r
}

/// The nodes whose id is none of `ids`, each without the dependencies that
/// `ids` holds.
fn drop_ids(nodes: Vec<DAGNode>, ids: &Vec<String>) -> (r: Vec<DAGNode>)
    ensures
        nodes_of(r@) == without_ids(nodes_of(nodes@), texts_of(ids@)),
{
    let mut r: Vec<DAGNode> = Vec::new();
    let ghost idv = texts_of(ids@);
    let ghost all = nodes_of(nodes@);
    assert(without_ids(all.take(0), idv) =~= Seq::empty()) by {
        reveal(Seq::filter);
    }
    for n in it: nodes
        invariant
            it.seq() == nodes@,
            idv == texts_of(ids@),
            all == nodes_of(nodes@),
            nodes_of(r@) == without_ids(all.take(it.index() as int), idv),
    {
        let ghost i = it.index() as int;
        let ghost r0 = r@;
        let ghost prev = all.take(i);
        proof {
            assert(all.take(i + 1) =~= prev.push(n@));
            prev.lemma_filter_push(n@, id_not_among(idv));
        }
        if !holds_text(ids, &n.id) {
            let mut m = n;
            let deps = prune_deps(&m.dependencies, ids);
            m.dependencies = deps;
            assert(m@ == pruned(n@, idv));
            r.push(m);
            assert(nodes_of(r@) =~= nodes_of(r0).push(m@));
            assert(without_ids(all.take(i + 1), idv) =~= without_ids(prev, idv).push(
                pruned(n@, idv),
            ));
        }
    }
    assert(all.take(nodes@.len() as int) =~= all);
    r
}

/// The nodes whose id is not `id`.
fn drop_id(nodes: Vec<DAGNode>, id: &String) -> (r: Vec<DAGNode>)
    ensures
        nodes_of(r@) == nodes_of(nodes@).filter(other_id(id@)),
{
    let mut r: Vec<DAGNode> = Vec::new();
    let ghost all = nodes_of(nodes@);
    assert(all.take(0).filter(other_id(id@)) =~= Seq::empty()) by {
        reveal(Seq::filter);
    }
    for n in it: nodes
        invariant
            it.seq() == nodes@,
            all == nodes_of(nodes@),
            nodes_of(r@) == all.take(it.index() as int).filter(other_id(id@)),
    {
        let ghost i = it.index() as int;
        let ghost r0 = r@;
        let ghost prev = all.take(i);
        proof {
            assert(all.take(i + 1) =~= prev.push(n@));
            prev.lemma_filter_push(n@, other_id(id@));
        }
        if !same_string(&n.id, id) {
            r.push(n);
            assert(nodes_of(r@) =~= nodes_of(r0).push(n@));
        }
    }
    assert(all.take(nodes@.len() as int) =~= all);
    r
}

impl CircuitDAG {
    /// Inserts `node`. Where it has no id, it gets one from its type, target
    /// and step. It takes the place of a node of the same id, and stands
    /// last. The counts of qubits and classical bits grow to cover it.
    pub fn add_node(&mut self, node: DAGNode)
        requires
            old(self).wf(),
            node@.fits(),
        ensures
            final(self).wf(),
            final(self)@ == old(self)@.add_node(node@),
    {
        let ghost given = node@;
        let mut node = node;
        if node.id.as_str().is_empty() {
            let id = generate_node_id(node.gate_type.as_str(), node.target, node.step);
            node.id = id;
        }
        assert(node@ == given.with_id());
        let nq = node.qubits_needed();
        if nq > self.num_qubits {
            self.num_qubits = nq;
        }
        let nc = node.cbits_needed();
        if nc > self.num_cbits {
            self.num_cbits = nc;
        }
        let mut taken: Vec<DAGNode> = Vec::new();
        core::mem::swap(&mut taken, &mut self.nodes);
        let mut kept = drop_id(taken, &node.id);
        proof {
            lemma_filter_keeps(old(self)@.nodes, other_id(node@.id));
        }
        let ghost k0 = nodes_of(kept@);
        let ghost m = node@;
        kept.push(node);
        assert(nodes_of(kept@) =~= k0.push(m));
        self.nodes = kept;
        assert(self@.covered()) by {
            assert forall|i: int| 0 <= i < self@.nodes.len() implies (#[trigger] self@.nodes[i]).qubits_needed()
                <= self@.num_qubits && self@.nodes[i].cbits_needed() <= self@.num_cbits by {
                if i < k0.len() {
                    assert(old(self)@.nodes.contains(k0[i]));
                }
            }
        }
        self.update_root_nodes();
    }

    /// Removes the nodes whose id is in `ids`, and every dependency on them.
    pub fn remove_nodes(&mut self, ids: &Vec<String>)
        requires
            old(self).wf(),
        ensures
            final(self).wf(),
            old(self)@.built() ==> final(self)@.built(),
            final(self)@ == old(self)@.remove_ids(texts_of(ids@)),
    {
        proof {
            if self@.built() {
                crate::laws::lemma_remove_keeps_built(self@, texts_of(ids@));
            }
        }
        let mut taken: Vec<DAGNode> = Vec::new();
        core::mem::swap(&mut taken, &mut self.nodes);
        let kept = drop_ids(taken, ids);
        self.nodes = kept;
        proof {
            let idv = texts_of(ids@);
            let s = old(self)@.nodes;
            let f = s.filter(id_not_among(idv));
            lemma_filter_keeps(s, id_not_among(idv));
            assert forall|i: int| 0 <= i < self@.nodes.len() implies (#[trigger] self@.nodes[i]).qubits_needed()
                <= self@.num_qubits && self@.nodes[i].cbits_needed() <= self@.num_cbits by {
                assert(self@.nodes[i] == pruned(f[i], idv));
                assert(s.contains(f[i]));
            }
            assert forall|i: int, j: int| 0 <= i < j < self@.nodes.len() implies self@.nodes[i].id
                != self@.nodes[j].id by {
                assert(self@.nodes[i] == pruned(f[i], idv));
                assert(self@.nodes[j] == pruned(f[j], idv));
            }
        }
        self.update_root_nodes();
    }

    /// Removes the node of the given id, and every dependency on it. Does
    /// nothing where no node has the id.
    pub fn remove_node(&mut self, node_id: &str)
        requires
            old(self).wf(),
        ensures
            final(self).wf(),
            old(self)@.built() ==> final(self)@.built(),
            final(self)@ == old(self)@.remove_node(node_id@),
    {
        let mut ids: Vec<String> = Vec::new();
        ids.push(String::from_str(node_id));
        assert(texts_of(ids@) =~= seq![node_id@]);
        self.remove_nodes(&ids);
    }

    /// The first node, in the order of insertion, that is at `step` and
    /// refers to `qubit`.
    pub fn get_node_at(&self, step: isize, qubit: usize) -> (r: Option<&DAGNode>)
        ensures
            match first_at(self@.nodes, step as int, qubit) {
                Some(i) => r is Some && r->0@ == self@.nodes[i] && 0 <= i < self@.nodes.len(),
                None => r is None,
            },
    {
        match self.index_at(step, qubit) {
            Some(i) => {
                let r = &self.nodes[i];
                assert(self@.nodes[i as int] == r@);
                Some(r)
            },
            None => None,
        }
    }

    /// The place among the nodes of the first one that is at `step` and
    /// refers to `qubit`.
    pub fn index_at(&self, step: isize, qubit: usize) -> (r: Option<usize>)
        ensures
            first_at(self@.nodes, step as int, qubit) == match r {
                Some(i) => Some(i as int),
                None => None,
            },
            r is Some ==> r->0 < self.nodes.len(),
    {
        let mut i: usize = 0;
        let ghost all = self@.nodes;
        assert(all.skip(0) =~= all);
        while i < self.nodes.len()
            invariant
                i <= self.nodes.len(),
                all == self@.nodes,
                first_at(all, step as int, qubit) == match first_at(
                    all.skip(i as int),
                    step as int,
                    qubit,
                ) {
                    Some(k) => Some(k + i),
                    None => None,
                },
            decreases self.nodes.len() - i,
        {
            assert(all.skip(i as int)[0] == all[i as int]);
            if self.nodes[i].step == step && self.nodes[i].references(qubit) {
                return Some(i);
            }
            assert(all.skip(i as int).drop_first() =~= all.skip(i + 1));
            i += 1;
        }
        None
    }

    /// The id of the first node, in the order of insertion, that is at
    /// `step` and refers to `qubit`.
    pub fn get_node_at_mut(&self, step: isize, qubit: usize) -> (r: Option<String>)
        ensures
            match first_at(self@.nodes, step as int, qubit) {
                Some(i) => r is Some && r->0@ == self@.nodes[i].id && 0 <= i < self@.nodes.len(),
                None => r is None,
            },
    {
        match self.index_at(step, qubit) {
            Some(i) => {
                assert(self@.nodes[i as int] == self.nodes@[i as int]@);
                Some(self.nodes[i].id.clone())
            },
            None => None,
        }
    }

    /// Whether a gate on `qubits` can be placed at `step`.
    pub fn can_place_gate_at(&self, step: isize, qubits: &Vec<usize>) -> (r: bool)
        ensures
            r == self@.can_place(step as int, qubits@),
    {
        let mut i: usize = 0;
        while i < self.nodes.len()
            invariant
                i <= self.nodes.len(),
                forall|a: int, b: int|
                    0 <= a < i && 0 <= b < qubits@.len() ==> !blocks(
                        #[trigger] self@.nodes[a],
                        step as int,
                        #[trigger] qubits@[b],
                    ),
            decreases self.nodes.len() - i,
        {
            let n = &self.nodes[i];
            assert(self@.nodes[i as int] == n@);
            if n.step == step {
                if same_text(n.gate_type.as_str(), "BARRIER") {
                    if qubits.len() > 0 {
                        assert(blocks(self@.nodes[i as int], step as int, qubits@[0]));
                        return false;
                    }
                } else if n.is_multi_qubit() {
                    let mut j: usize = 0;
                    while j < qubits.len()
                        invariant
                            j <= qubits.len(),
                            i < self.nodes.len(),
                            n@ == self@.nodes[i as int],
                            n@.step == step,
                            n@.gate_type != "BARRIER"@,
                            n@.is_multi(),
                            forall|b: int| 0 <= b < j ==> !n@.touches(#[trigger] qubits@[b]),
                        decreases qubits.len() - j,
                    {
                        if n.references(qubits[j]) {
                            assert(blocks(self@.nodes[i as int], step as int, qubits@[j as int]));
                            return false;
                        }
                        j += 1;
                    }
                }
            }
            i += 1;
        }
        true
    }

    /// Removes the first node, in the order of insertion, that is at `step`
    /// and refers to `qubit`, and every dependency on it. Does nothing where
    /// there is none.
    pub fn remove_node_at(&mut self, step: isize, qubit: usize)
        requires
            old(self).wf(),
        ensures
            final(self).wf(),
            old(self)@.built() ==> final(self)@.built(),
            final(self)@ == match first_at(old(self)@.nodes, step as int, qubit) {
                Some(i) => old(self)@.remove_node(old(self)@.nodes[i].id),
                None => old(self)@,
            },
    {
        if let Some(id) = self.get_node_at_mut(step, qubit) {
            self.remove_node(id.as_str());
        }
    }

    /// Removes every node that refers to `qubit`, and every dependency on
    /// one of them.
    pub fn remove_nodes_on_qubit(&mut self, qubit: usize)
        requires
            old(self).wf(),
        ensures
            final(self).wf(),
            old(self)@.built() ==> final(self)@.built(),
            final(self)@ == old(self)@.remove_ids(
                ids_of(old(self)@.nodes.filter(on_qubit(qubit))),
            ),
    {
        let mut ids: Vec<String> = Vec::new();
        let mut i: usize = 0;
        let ghost all = self@.nodes;
        assert(ids_of(all.take(0).filter(on_qubit(qubit))) =~= Seq::empty()) by {
            reveal(Seq::filter);
        }
        while i < self.nodes.len()
            invariant
                i <= self.nodes.len(),
                *self == *old(self),
                all == self@.nodes,
                texts_of(ids@) == ids_of(all.take(i as int).filter(on_qubit(qubit))),
            decreases self.nodes.len() - i,
        {
            let ghost r0 = ids@;
            let ghost prev = all.take(i as int);
            proof {
                assert(all.take(i + 1) =~= prev.push(all[i as int]));
                prev.lemma_filter_push(all[i as int], on_qubit(qubit));
            }
            if self.nodes[i].references(qubit) {
                let id = self.nodes[i].id.clone();
                ids.push(id);
                assert(texts_of(ids@) =~= texts_of(r0).push(all[i as int].id));
                assert(ids_of(all.take(i + 1).filter(on_qubit(qubit))) =~= ids_of(
                    prev.filter(on_qubit(qubit)),
                ).push(all[i as int].id));
            }
            i += 1;
        }
        assert(all.take(i as int) =~= all);
        self.remove_nodes(&ids);
    }
}

/// Where no index of `s` is `n - 1` and all are below `n`, all are below
/// `n - 1`.
proof fn lemma_past_all_without(s: Seq<usize>, n: nat)
    requires
        n >= 1,
        past_all(s) <= n,
        !s.contains((n - 1) as usize),
        n <= usize::MAX,
    ensures
        past_all(s) <= n - 1,
    decreases s.len(),
{
    if s.len() > 0 {
        assert(s[s.len() - 1] != (n - 1) as usize);
        assert forall|i: int| 0 <= i < s.drop_last().len() implies s.drop_last()[i] != (n
            - 1) as usize by {
            assert(s.drop_last()[i] == s[i]);
        }
        lemma_past_all_without(s.drop_last(), n);
    }
}

impl DagView {
    /// The circuit with room for at least `n` qubits.
    pub open spec fn with_qubits(self, n: nat) -> DagView {
        DagView { num_qubits: max_nat(self.num_qubits, n), ..self }
    }

    /// The circuit without its last qubit: without the nodes that refer to
    /// it and every dependency on them, and with one qubit less. A circuit
    /// of one qubit or none stays as it is.
    pub open spec fn without_last_qubit(self) -> DagView {
        if self.num_qubits > 1 {
            let q = (self.num_qubits - 1) as usize;
            DagView {
                num_qubits: (self.num_qubits - 1) as nat,
                ..self.remove_ids(ids_of(self.nodes.filter(on_qubit(q))))
            }
        } else {
            self
        }
    }
}

impl CircuitDAG {
    /// Makes room for at least `n` qubits.
    pub fn ensure_qubits(&mut self, n: usize)
        requires
            old(self).wf(),
        ensures
            final(self).wf(),
            old(self)@.built() ==> final(self)@.built(),
            final(self)@ == old(self)@.with_qubits(n as nat),
    {
        if n > self.num_qubits {
            self.num_qubits = n;
        }
    }

    /// Takes the last qubit from the circuit, with every node that refers
    /// to it. A circuit of one qubit or none stays as it is.
    pub fn shrink_qubit(&mut self)
        requires
            old(self).wf(),
        ensures
            final(self).wf(),
            old(self)@.built() ==> final(self)@.built(),
            final(self)@ == old(self)@.without_last_qubit(),
    {
        if self.num_qubits > 1 {
            let q = self.num_qubits - 1;
            self.remove_nodes_on_qubit(q);
            proof {
                let d0 = old(self)@;
                let ids = ids_of(d0.nodes.filter(on_qubit(q)));
                let kept = d0.nodes.filter(id_not_among(ids));
                lemma_filter_keeps(d0.nodes, id_not_among(ids));
                assert forall|i: int| 0 <= i < self@.nodes.len() implies (
                #[trigger] self@.nodes[i]).qubits_needed() <= self.num_qubits - 1 by {
                    let n = kept[i];
                    assert(self@.nodes[i] == pruned(n, ids));
                    assert(d0.nodes.contains(n));
                    let j = choose|j: int| 0 <= j < d0.nodes.len() && d0.nodes[j] == n;
                    assert(d0.nodes[j].qubits_needed() <= d0.num_qubits);
                    if n.touches(q) {
                        let f = d0.nodes.filter(on_qubit(q));
                        d0.nodes.lemma_filter_contains(on_qubit(q), j);
                        let k = choose|k: int| 0 <= k < f.len() && f[k] == n;
                        assert(ids[k] == n.id);
                        assert(ids.contains(n.id));
                        assert(false);
                    }
                    lemma_past_all_without(n.controls, d0.num_qubits);
                }
            }
            self.num_qubits = q;
        }
    }
}

/// All indices of `s` are below `n` exactly where one more than the largest
/// is at most `n`.
proof fn lemma_past_all_below(s: Seq<usize>, n: nat)
    ensures
        past_all(s) <= n <==> forall|i: int| 0 <= i < s.len() ==> #[trigger] s[i] < n,
    decreases s.len(),
{
    if s.len() > 0 {
        lemma_past_all_below(s.drop_last(), n);
        if past_all(s) <= n {
            assert forall|i: int| 0 <= i < s.len() implies #[trigger] s[i] < n by {
                if i < s.len() - 1 {
                    assert(s.drop_last()[i] == s[i]);
                }
            }
        }
        if forall|i: int| 0 <= i < s.len() ==> #[trigger] s[i] < n {
            assert(s[s.len() - 1] < n);
            assert forall|i: int| 0 <= i < s.drop_last().len() implies #[trigger] s.drop_last()[i]
                < n by {
                assert(s.drop_last()[i] == s[i]);
            }
        }
    }
}

fn index_below(q: Option<usize>, n: usize) -> (r: bool)
    ensures
        r == (past(q) <= n),
{
    match q {
        Some(i) => i < n,
        None => true,
    }
}

impl DAGNode {
    /// Whether a circuit of `num_qubits` qubits and `num_cbits` classical
    /// bits has room for the node.
    pub fn is_covered(&self, num_qubits: usize, num_cbits: usize) -> (r: bool)
        ensures
            r == (self@.qubits_needed() <= num_qubits && self@.cbits_needed() <= num_cbits),
    {
        proof {
            lemma_past_all_below(self.controls@, num_qubits as nat);
        }
        let mut controls_ok = true;
        let mut i: usize = 0;
        while i < self.controls.len()
            invariant
                i <= self.controls.len(),
                controls_ok == forall|k: int| 0 <= k < i ==> #[trigger] self.controls@[k] < num_qubits,
            decreases self.controls.len() - i,
        {
            if self.controls[i] >= num_qubits {
                controls_ok = false;
            }
            i += 1;
        }
        let qubits_ok = index_below(self.target, num_qubits) && index_below(
            self.control,
            num_qubits,
        ) && index_below(self.measure_source, num_qubits) && controls_ok;
        let measure_ok = if same_text(self.gate_type.as_str(), "MEASURE") {
            index_below(self.target, num_cbits)
        } else {
            true
        };
        let cbits_ok = index_below(self.classical_control, num_cbits) && measure_ok && index_below(
            self.measure_source,
            num_cbits,
        );
        qubits_ok && cbits_ok
    }
}

/// Whether two vectors of strings hold the same texts.
pub fn same_texts(a: &Vec<String>, b: &Vec<String>) -> (r: bool)
    ensures
        r == (texts_of(a@) == texts_of(b@)),
{
    if a.len() != b.len() {
        assert(texts_of(a@).len() != texts_of(b@).len());
        return false;
    }
    let mut i: usize = 0;
    while i < a.len()
        invariant
            i <= a.len(),
            a.len() == b.len(),
            forall|k: int| 0 <= k < i ==> texts_of(a@)[k] == texts_of(b@)[k],
        decreases a.len() - i,
    {
        if !same_string(&a[i], &b[i]) {
            assert(texts_of(a@)[i as int] != texts_of(b@)[i as int]);
            return false;
        }
        i += 1;
    }
    assert(texts_of(a@) =~= texts_of(b@));
    true
}

impl CircuitDAG {
    /// Whether the circuit meets its invariant: the ids are unique, the
    /// counts cover every node, and the roots kept are those of the nodes.
    /// A circuit whose fields were set by hand can be tested with this
    /// before it is handed to an operation.
    pub fn is_well_formed(&self) -> (r: bool)
        ensures
            r == self.wf(),
    {
        let n = self.nodes.len();
        let ghost d = self@;
        let mut i: usize = 0;
        while i < n
            invariant
                i <= n,
                n == self.nodes.len(),
                d == self@,
                forall|a: int|
                    0 <= a < i ==> (#[trigger] d.nodes[a]).qubits_needed() <= d.num_qubits
                        && d.nodes[a].cbits_needed() <= d.num_cbits,
                forall|a: int, b: int| 0 <= a < b < n && a < i ==> d.nodes[a].id != d.nodes[b].id,
            decreases n - i,
        {
            assert(d.nodes[i as int] == self.nodes@[i as int]@);
            if !self.nodes[i].is_covered(self.num_qubits, self.num_cbits) {
                return false;
            }
            let mut j: usize = i + 1;
            while j < n
                invariant
                    i < j <= n,
                    n == self.nodes.len(),
                    d == self@,
                    forall|b: int| i < b < j ==> d.nodes[i as int].id != d.nodes[b].id,
                decreases n - j,
            {
                assert(d.nodes[j as int] == self.nodes@[j as int]@);
                assert(d.nodes[i as int] == self.nodes@[i as int]@);
                if same_string(&self.nodes[i].id, &self.nodes[j].id) {
                    return false;
                }
                j += 1;
            }
            i += 1;
        }
        assert(d.valid());
        let mut roots: Vec<String> = Vec::new();
        let mut k: usize = 0;
        assert(roots_of(d.nodes.take(0)) =~= Seq::empty()) by {
            reveal(Seq::filter);
        }
        while k < n
            invariant
                k <= n,
                n == self.nodes.len(),
                d == self@,
                texts_of(roots@) == roots_of(d.nodes.take(k as int)),
            decreases n - k,
        {
            let ghost r0 = roots@;
            let ghost prev = d.nodes.take(k as int);
            let ghost p = |x: NodeView| x.dependencies.len() == 0;
            proof {
                assert(d.nodes[k as int] == self.nodes@[k as int]@);
                assert(d.nodes.take(k + 1) =~= prev.push(d.nodes[k as int]));
                prev.lemma_filter_push(d.nodes[k as int], p);
            }
            if self.nodes[k].dependencies.len() == 0 {
                let id = self.nodes[k].id.clone();
                roots.push(id);
                assert(texts_of(roots@) =~= texts_of(r0).push(d.nodes[k as int].id));
                assert(roots_of(d.nodes.take(k + 1)) =~= roots_of(prev).push(d.nodes[k as int].id));
            }
            k += 1;
        }
        assert(d.nodes.take(k as int) =~= d.nodes);
        same_texts(&self.root_nodes, &roots)
    }
}

impl Default for CircuitDAG {
    /// The empty circuit.
    fn default() -> (r: Self)
        ensures
            r.wf(),
            r@.built(),
            r@ == (DagView { nodes: Seq::empty(), num_qubits: 0, num_cbits: 0 }),
    {
        CircuitDAG::new()
    }
}

impl Clone for CircuitDAG {
    fn clone(&self) -> (r: Self)
        ensures
            r@ == self@,
            texts_of(r.root_nodes@) == texts_of(self.root_nodes@),
            self.wf() ==> r.wf(),
    {
        let mut nodes: Vec<DAGNode> = Vec::new();
        let mut i: usize = 0;
        while i < self.nodes.len()
            invariant
                i <= self.nodes.len(),
                nodes_of(nodes@) == nodes_of(self.nodes@.take(i as int)),
            decreases self.nodes.len() - i,
        {
            let ghost n0 = nodes@;
            let n = self.nodes[i].clone();
            nodes.push(n);
            assert(nodes_of(nodes@) =~= nodes_of(n0).push(n@));
            assert(nodes_of(self.nodes@.take(i + 1)) =~= nodes_of(self.nodes@.take(i as int)).push(
                self.nodes@[i as int]@,
            ));
            i += 1;
        }
        assert(self.nodes@.take(i as int) =~= self.nodes@);
        CircuitDAG {
            nodes,
            num_qubits: self.num_qubits,
            num_cbits: self.num_cbits,
            root_nodes: clone_texts(&self.root_nodes),
        }
    }
}

impl CircuitDAG {
    /// A copy of the circuit.
    pub fn clone_dag(&self) -> (r: Self)
        ensures
            r@ == self@,
            self.wf() ==> r.wf(),
    {
        self.clone()
    }
}

} // verus!
