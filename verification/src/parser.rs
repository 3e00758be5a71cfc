//! Reading a circuit from text: the steps that the statements get, what
//! each node depends on, and the circuit that results.

use vstd::prelude::*;
use vstd::string::*;
use crate::dag::{holds_text, CircuitDAG, DagView};
use crate::lines::{
    add_bounded, bounded_sum, cregs_of, gate_of_line, group_index, index_of_text,
    parse_gate_line, Creg, Patterns, CREG_PATTERN, NOISE_PATTERN, QREG_PATTERN,
};
use crate::node::{generate_node_id, has_index, max_nat, node_id, DAGNode, NodeView};
use crate::params::{param_of_text, params_of, ParamExpr, PiPattern};
use crate::pattern::{group, group_present, group_text, groups_of, has_group, captures_in};
use crate::text::{
    chars_of, has_prefix, seqs_of, split, split_at, string_of, texts_of, trim, trimmed,
};

verus! {

/// The node that was read last on a qubit.
#[derive(Debug)]
pub struct Owner {
    pub qubit: usize,
    pub id: String,
}

/// What reading keeps from line to line: the classical registers declared
/// so far and the place of the next one, the node read last on each qubit,
/// the qubits taken in the current step, and the current step.
#[derive(Debug)]
pub struct Scan {
    pub cregs: Vec<Creg>,
    pub creg_offset: usize,
    pub owners: Vec<Owner>,
    pub claimed: Vec<usize>,
    pub step: isize,
}

/// The mathematical content of a [`Scan`].
pub ghost struct ScanView {
    pub cregs: Seq<(Seq<char>, usize)>,
    pub creg_offset: usize,
    pub owners: Seq<(usize, Seq<char>)>,
    pub claimed: Seq<usize>,
    pub step: int,
}

/// The contents of a vector of owners.
pub open spec fn owners_of(v: Seq<Owner>) -> Seq<(usize, Seq<char>)> {
    v.map_values(|o: Owner| (o.qubit, o.id@))
}

impl View for Scan {
    type V = ScanView;

    open spec fn view(&self) -> ScanView {
        ScanView {
            cregs: cregs_of(self.cregs@),
            creg_offset: self.creg_offset,
            owners: owners_of(self.owners@),
            claimed: self.claimed@,
            step: self.step as int,
        }
    }
}

impl ScanView {
    /// The state before the first line.
    pub open spec fn start() -> ScanView {
        ScanView {
            cregs: Seq::empty(),
            creg_offset: 0,
            owners: Seq::empty(),
            claimed: Seq::empty(),
            step: 0,
        }
    }

    /// Every register starts, and the next one would start, below
    /// `usize::MAX`.
    pub open spec fn bounded(self) -> bool {
        &&& self.creg_offset < usize::MAX
        &&& forall|i: int| 0 <= i < self.cregs.len() ==> (#[trigger] self.cregs[i]).1 < usize::MAX
    }
}

/// The id of the node that was read last on qubit `q`.
pub open spec fn last_owner(owners: Seq<(usize, Seq<char>)>, q: usize) -> Option<Seq<char>>
    decreases owners.len(),
{
    if owners.len() == 0 {
        None
    } else if owners.last().0 == q {
        Some(owners.last().1)
    } else {
        last_owner(owners.drop_last(), q)
    }
}

/// The ids of the nodes read last on the qubits of `qs`, each id once.
pub open spec fn owner_deps(owners: Seq<(usize, Seq<char>)>, qs: Seq<usize>) -> Seq<Seq<char>>
    decreases qs.len(),
{
    if qs.len() == 0 {
        Seq::empty()
    } else {
        let before = owner_deps(owners, qs.drop_last());
        match last_owner(owners, qs.last()) {
            Some(id) => if before.contains(id) {
                before
            } else {
                before.push(id)
            },
            None => before,
        }
    }
}

/// Whether one of the qubits of `qs` is taken.
pub open spec fn conflicts(claimed: Seq<usize>, qs: Seq<usize>) -> bool {
    exists|i: int| 0 <= i < qs.len() && claimed.contains(#[trigger] qs[i])
}

/// Each qubit of `qs` with the id.
pub open spec fn owned_by(qs: Seq<usize>, id: Seq<char>) -> Seq<(usize, Seq<char>)> {
    qs.map_values(|q: usize| (q, id))
}

/// The largest number of qubits that one of the nodes needs, 0 for none.
pub open spec fn qubits_required(nodes: Seq<NodeView>) -> nat
    decreases nodes.len(),
{
    if nodes.len() == 0 {
        0
    } else {
        max_nat(qubits_required(nodes.drop_last()), nodes.last().qubits_needed())
    }
}

/// The circuit and the state after a node that was read is put into the
/// circuit. A barrier, and a node that spans more than its target, open a
/// new step where any qubit is taken in the current one; another node does
/// so where one of its qubits is taken. The node gets the step, its id, and
/// as dependencies the nodes read last on its qubits. It takes its qubits; a
/// barrier closes its step.
pub open spec fn placed(d: DagView, st: ScanView, n: NodeView) -> (DagView, ScanView) {
    let qs = n.qubits();
    let barrier = n.gate_type == "BARRIER"@;
    let bump = if barrier || n.is_multi() {
        st.claimed.len() > 0
    } else {
        conflicts(st.claimed, qs)
    };
    let step = if bump {
        st.step + 1
    } else {
        st.step
    };
    let id = node_id(n.gate_type, n.target, step);
    let node = NodeView {
        id,
        step,
        dependencies: n.dependencies + owner_deps(st.owners, qs),
        ..n
    };
    (
        d.add_node(node),
        ScanView {
            step: if barrier {
                step + 1
            } else {
                step
            },
            claimed: if barrier {
                Seq::empty()
            } else if bump {
                qs
            } else {
                st.claimed + qs
            },
            owners: st.owners + owned_by(qs, id),
            ..st
        },
    )
}

/// The circuit and the state after a noise annotation, matched as `g`. It
/// opens a new step where its qubit is taken, depends on the node read last
/// on its qubit, and closes its step.
pub open spec fn noise_placed(d: DagView, st: ScanView, g: Seq<Option<Seq<char>>>) -> (
    DagView,
    ScanView,
) {
    let target = index_of_text(group_text(g, 2));
    let step = if st.claimed.contains(target) {
        st.step + 1
    } else {
        st.step
    };
    let id = node_id("NOISE"@, Some(target), step);
    let node = NodeView {
        id,
        gate_type: "NOISE"@,
        target: Some(target),
        step,
        params: if group_present(g, 3) {
            match param_of_text(group_text(g, 3)) {
                Some(p) => seq![p],
                None => Seq::empty(),
            }
        } else {
            Seq::empty()
        },
        is_noise: true,
        noise_type: group_text(g, 1),
        dependencies: match last_owner(st.owners, target) {
            Some(dep) => seq![dep],
            None => Seq::empty(),
        },
        ..NodeView::blank()
    };
    (
        d.add_node(node),
        ScanView {
            step: step + 1,
            claimed: Seq::empty(),
            owners: st.owners.push((target, id)),
            ..st
        },
    )
}

/// What one line does to the circuit and the state, and whether it takes
/// the next line with it. An empty line, a comment that is no noise
/// annotation, the head of the format and any line that matches no pattern
/// change nothing. A `qreg` line sets the number of qubits, not below what
/// the nodes read so far need. A `creg` line declares a register behind
/// those declared before.
pub open spec fn line_effect(d: DagView, st: ScanView, line: Seq<char>, next: Option<Seq<char>>)
    -> (DagView, ScanView, bool) {
    if line.len() == 0 {
        (d, st, false)
    } else if "//"@.is_prefix_of(line) {
        match captures_in(NOISE_PATTERN@, line) {
            Some(g) => (noise_placed(d, st, g).0, noise_placed(d, st, g).1, false),
            None => (d, st, false),
        }
    } else if "OPENQASM"@.is_prefix_of(line) || "include"@.is_prefix_of(line) {
        (d, st, false)
    } else if "qreg"@.is_prefix_of(line) {
        match captures_in(QREG_PATTERN@, line) {
            Some(g) => (
                DagView {
                    num_qubits: max_nat(
                        index_of_text(group_text(g, 2)) as nat,
                        qubits_required(d.nodes),
                    ),
                    ..d
                },
                st,
                false,
            ),
            None => (d, st, false),
        }
    } else if "creg"@.is_prefix_of(line) {
        match captures_in(CREG_PATTERN@, line) {
            Some(g) => (
                d,
                ScanView {
                    cregs: st.cregs.push((group_text(g, 1), st.creg_offset)),
                    creg_offset: bounded_sum(st.creg_offset, index_of_text(group_text(g, 2))),
                    ..st
                },
                false,
            ),
            None => (d, st, false),
        }
    } else {
        match gate_of_line(line, next, st.cregs) {
            Some(x) => (placed(d, st, x.0).0, placed(d, st, x.0).1, x.1),
            None => (d, st, false),
        }
    }
}

/// The circuit after the lines from `i` on were read.
pub open spec fn parse_lines(d: DagView, st: ScanView, lines: Seq<Seq<char>>, i: int) -> DagView
    decreases lines.len() - i,
{
    if i < 0 || i >= lines.len() {
        d
    } else {
        let next = if i + 1 < lines.len() {
            Some(lines[i + 1])
        } else {
            None
        };
        let e = line_effect(d, st, lines[i], next);
        parse_lines(
            e.0,
            e.1,
            lines,
            if e.2 {
                i + 2
            } else {
                i + 1
            },
        )
    }
}

/// The lines of a text, each without the white space around it.
pub open spec fn trimmed_lines(text: Seq<char>) -> Seq<Seq<char>> {
    split(text, '\n').map_values(|l: Seq<char>| trimmed(l))
}

impl DagView {
    /// The circuit that `text` describes: reading starts from the empty
    /// circuit, without qubits or classical bits.
    pub open spec fn parsed(text: Seq<char>) -> DagView {
        parse_lines(
            DagView { nodes: Seq::empty(), num_qubits: 0, num_cbits: 0 },
            ScanView::start(),
            trimmed_lines(text),
            0,
        )
    }
}

fn find_owner(owners: &Vec<Owner>, q: usize) -> (r: Option<usize>)
    ensures
        match r {
            Some(j) => j < owners.len() && last_owner(owners_of(owners@), q) == Some(
                owners@[j as int].id@,
            ),
            None => last_owner(owners_of(owners@), q) is None,
        },
{
    let mut i: usize = owners.len();
    let ghost all = owners_of(owners@);
    assert(all.take(i as int) =~= all);
    while i > 0
        invariant
            i <= owners.len(),
            all == owners_of(owners@),
            last_owner(all, q) == last_owner(all.take(i as int), q),
        decreases i,
    {
        assert(all.take(i as int).last() == (owners@[i - 1].qubit, owners@[i - 1].id@));
        assert(all.take(i as int).drop_last() =~= all.take(i - 1));
        if owners[i - 1].qubit == q {
            return Some(i - 1);
        }
        i -= 1;
    }
    None
}

fn collect_deps(owners: &Vec<Owner>, qs: &Vec<usize>) -> (r: Vec<String>)
    ensures
        texts_of(r@) == owner_deps(owners_of(owners@), qs@),
{
    let mut r: Vec<String> = Vec::new();
    let mut k: usize = 0;
    assert(texts_of(r@) =~= Seq::empty());
    while k < qs.len()
        invariant
            k <= qs.len(),
            texts_of(r@) == owner_deps(owners_of(owners@), qs@.take(k as int)),
        decreases qs.len() - k,
    {
        assert(qs@.take(k + 1).drop_last() =~= qs@.take(k as int));
        if let Some(j) = find_owner(owners, qs[k]) {
            if !holds_text(&r, &owners[j].id) {
                let ghost r0 = r@;
                let id = owners[j].id.clone();
                r.push(id);
                assert(texts_of(r@) =~= texts_of(r0).push(owners@[j as int].id@));
            }
        }
        k += 1;
    }
    assert(qs@.take(k as int) =~= qs@);
    r
}

fn any_claimed(claimed: &Vec<usize>, qs: &Vec<usize>) -> (r: bool)
    ensures
        r == conflicts(claimed@, qs@),
{
    let mut i: usize = 0;
    while i < qs.len()
        invariant
            i <= qs.len(),
            forall|k: int| 0 <= k < i ==> !claimed@.contains(#[trigger] qs@[k]),
        decreases qs.len() - i,
    {
        if has_index(claimed, qs[i]) {
            return true;
        }
        i += 1;
    }
    false
}

proof fn lemma_required(nodes: Seq<NodeView>, bound: nat)
    requires
        forall|i: int| 0 <= i < nodes.len() ==> (#[trigger] nodes[i]).qubits_needed() <= bound,
    ensures
        qubits_required(nodes) <= bound,
    decreases nodes.len(),
{
    if nodes.len() > 0 {
        assert(nodes[nodes.len() - 1].qubits_needed() <= bound);
        assert forall|i: int| 0 <= i < nodes.drop_last().len() implies (
        #[trigger] nodes.drop_last()[i]).qubits_needed() <= bound by {
            assert(nodes.drop_last()[i] == nodes[i]);
        }
        lemma_required(nodes.drop_last(), bound);
    }
}

proof fn lemma_required_covers(nodes: Seq<NodeView>, k: int)
    requires
        0 <= k < nodes.len(),
    ensures
        nodes[k].qubits_needed() <= qubits_required(nodes),
    decreases nodes.len(),
{
    if k < nodes.len() - 1 {
        lemma_required_covers(nodes.drop_last(), k);
        assert(nodes.drop_last()[k] == nodes[k]);
    }
}

impl Scan {
    /// The state before the first line.
    pub fn new() -> (r: Self)
        ensures
            r@ == ScanView::start(),
    {
        let r = Scan {
            cregs: Vec::new(),
            creg_offset: 0,
            owners: Vec::new(),
            claimed: Vec::new(),
            step: 0,
        };
        assert(r@.cregs =~= Seq::empty());
        assert(r@.owners =~= Seq::empty());
        r
    }
}

impl CircuitDAG {
    /// Puts a node that was read into the circuit, with the step, the id and
    /// the dependencies that the state gives it.
    pub fn place(&mut self, st: &mut Scan, node: DAGNode)
        requires
            old(self).wf(),
            node@.fits(),
            old(st).step + 2 <= isize::MAX,
        ensures
            final(self).wf(),
            (final(self)@, final(st)@) == placed(old(self)@, old(st)@, node@),
            final(st).step <= old(st).step + 2,
            old(st)@.bounded() ==> final(st)@.bounded(),
    {
        let ghost given = node@;
        let ghost st0 = st@;
        let mut node = node;
        let qs = node.qubits_used();
        let barrier = crate::text::same_text(node.gate_type.as_str(), "BARRIER");
        let bump = if barrier || node.is_multi_qubit() {
            st.claimed.len() > 0
        } else {
            any_claimed(&st.claimed, &qs)
        };
        if bump {
            st.step = st.step + 1;
            st.claimed = Vec::new();
        }
        let step = st.step;
        let mut deps = collect_deps(&st.owners, &qs);
        let ghost dv = texts_of(deps@);
        let ghost own = texts_of(node.dependencies@);
        let mut all_deps: Vec<String> = Vec::new();
        core::mem::swap(&mut all_deps, &mut node.dependencies);
        let mut i: usize = 0;
        while i < deps.len()
            invariant
                i <= deps.len(),
                dv == texts_of(deps@),
                texts_of(all_deps@) == own + dv.take(i as int),
            decreases deps.len() - i,
        {
            let ghost a0 = all_deps@;
            let d = deps[i].clone();
            all_deps.push(d);
            assert(texts_of(all_deps@) =~= texts_of(a0).push(dv[i as int]));
            assert(own + dv.take(i + 1) =~= (own + dv.take(i as int)).push(dv[i as int]));
            i += 1;
        }
        assert(dv.take(i as int) =~= dv);
        node.dependencies = all_deps;
        node.step = step;
        node.id = generate_node_id(node.gate_type.as_str(), node.target, step);
        proof {
            crate::node::lemma_node_id_not_empty(given.gate_type, given.target, step as int);
        }
        let mut k: usize = 0;
        let ghost o0 = owners_of(st.owners@);
        let ghost c0 = st.claimed@;
        while k < qs.len()
            invariant
                k <= qs.len(),
                st.cregs == old(st).cregs,
                st.creg_offset == old(st).creg_offset,
                st.step == step,
                owners_of(st.owners@) == o0 + owned_by(qs@.take(k as int), node@.id),
                st.claimed@ == if barrier {
                    c0
                } else {
                    c0 + qs@.take(k as int)
                },
            decreases qs.len() - k,
        {
            let ghost ow = st.owners@;
            let id = node.id.clone();
            st.owners.push(Owner { qubit: qs[k], id });
            assert(owners_of(st.owners@) =~= owners_of(ow).push((qs@[k as int], node@.id)));
            assert(qs@.take(k + 1) =~= qs@.take(k as int).push(qs@[k as int]));
            assert(o0 + owned_by(qs@.take(k + 1), node@.id) =~= (o0 + owned_by(
                qs@.take(k as int),
                node@.id,
            )).push((qs@[k as int], node@.id)));
            if !barrier {
                st.claimed.push(qs[k]);
                assert(c0 + qs@.take(k + 1) =~= (c0 + qs@.take(k as int)).push(qs@[k as int]));
            }
            k += 1;
        }
        assert(qs@.take(k as int) =~= qs@);
        if barrier {
            st.step = st.step + 1;
            st.claimed = Vec::new();
        }
        proof {
            let e = placed(old(self)@, st0, given);
            assert(st@.claimed =~= e.1.claimed);
            assert(st@.owners =~= e.1.owners);
            assert(st@ == e.1);
        }
        self.add_node(node);
    }

    /// Puts a noise annotation, matched as `g`, into the circuit.
    pub fn place_noise(&mut self, st: &mut Scan, pi: &PiPattern, g: &Vec<Option<String>>)
        requires
            old(self).wf(),
            old(st).step + 2 <= isize::MAX,
        ensures
            final(self).wf(),
            (final(self)@, final(st)@) == noise_placed(old(self)@, old(st)@, groups_of(g@)),
            final(st).step <= old(st).step + 2,
            old(st)@.bounded() ==> final(st)@.bounded(),
    {
        let ghost st0 = st@;
        let target = group_index(g, 2);
        if has_index(&st.claimed, target) {
            st.step = st.step + 1;
        }
        st.claimed = Vec::new();
        let step = st.step;
        let mut node = DAGNode::default();
        node.gate_type = String::from_str("NOISE");
        node.target = Some(target);
        node.step = step;
        node.is_noise = true;
        node.noise_type = group(g, 1);
        let mut params: Vec<ParamExpr> = Vec::new();
        assert(params_of(params@) =~= Seq::empty());
        if has_group(g, 3) {
            if let Some(p) = pi.parse(group(g, 3).as_str()) {
                let ghost pv = p@;
                params.push(p);
                assert(params_of(params@) =~= seq![pv]);
            }
        }
        node.params = params;
        let mut deps: Vec<String> = Vec::new();
        assert(texts_of(deps@) =~= Seq::empty());
        if let Some(j) = find_owner(&st.owners, target) {
            let id = st.owners[j].id.clone();
            deps.push(id);
            assert(texts_of(deps@) =~= seq![st.owners@[j as int].id@]);
        }
        node.dependencies = deps;
        node.id = generate_node_id("NOISE", Some(target), step);
        proof {
            crate::node::lemma_node_id_not_empty("NOISE"@, Some(target), step as int);
        }
        let ghost ow = st.owners@;
        let id = node.id.clone();
        st.owners.push(Owner { qubit: target, id });
        assert(owners_of(st.owners@) =~= owners_of(ow).push((target, node@.id)));
        st.step = st.step + 1;
        proof {
            let e = noise_placed(old(self)@, st0, groups_of(g@));
            assert(st@.claimed =~= e.1.claimed);
            assert(st@ == e.1);
        }
        self.add_node(node);
    }

    /// The largest number of qubits that one of the nodes needs.
    pub fn qubits_required(&self) -> (r: usize)
        requires
            self.wf(),
        ensures
            r == qubits_required(self@.nodes),
            r <= self.num_qubits,
    {
        let mut r: usize = 0;
        let mut i: usize = 0;
        proof {
            lemma_required(self@.nodes, self.num_qubits as nat);
        }
        while i < self.nodes.len()
            invariant
                i <= self.nodes.len(),
                self.wf(),
                r == qubits_required(self@.nodes.take(i as int)),
            decreases self.nodes.len() - i,
        {
            assert(self@.nodes.take(i + 1).drop_last() =~= self@.nodes.take(i as int));
            assert(self@.nodes[i as int] == self.nodes@[i as int]@);
            assert(self@.nodes[i as int].qubits_needed() <= self.num_qubits);
            assert(self@.nodes[i as int].cbits_needed() <= self.num_cbits);
            let need = self.nodes[i].qubits_needed();
            if need > r {
                r = need;
            }
            i += 1;
        }
        assert(self@.nodes.take(i as int) =~= self@.nodes);
        r
    }

    /// Reads one line: what it does to the circuit and the state, and
    /// whether it takes the next line with it. `line` and `next` are taken
    /// as they are.
    pub fn read_line(
        &mut self,
        st: &mut Scan,
        patterns: &Patterns,
        line: &str,
        next: Option<&str>,
    ) -> (used: bool)
        requires
            old(self).wf(),
            old(st)@.bounded(),
            old(st).step + 2 <= isize::MAX,
        ensures
            final(self).wf(),
            final(st)@.bounded(),
            (final(self)@, final(st)@, used) == line_effect(
                old(self)@,
                old(st)@,
                line@,
                match next {
                    Some(t) => Some(t@),
                    None => None,
                },
            ),
            final(st).step <= old(st).step + 2,
    {
        let chars = chars_of(line);
        if chars.len() == 0 {
            return false;
        }
        if has_prefix(&chars, "//") {
            if let Some(g) = patterns.match_noise(line) {
                self.place_noise(st, patterns.pi(), &g);
            }
            return false;
        }
        if has_prefix(&chars, "OPENQASM") || has_prefix(&chars, "include") {
            return false;
        }
        if has_prefix(&chars, "qreg") {
            if let Some(g) = patterns.match_qreg(line) {
                let n = group_index(&g, 2);
                let need = self.qubits_required();
                proof {
                    assert forall|i: int| 0 <= i < self@.nodes.len() implies (
                    #[trigger] self@.nodes[i]).qubits_needed() <= max_nat(n as nat, need as nat) by {
                        lemma_required_covers(self@.nodes, i);
                    }
                }
                self.num_qubits = if n >= need {
                    n
                } else {
                    need
                };
            }
            return false;
        }
        if has_prefix(&chars, "creg") {
            if let Some(g) = patterns.match_creg(line) {
                let name = group(&g, 1);
                let size = group_index(&g, 2);
                let ghost c0 = st.cregs@;
                let ghost nv = name@;
                let ghost v0 = st@;
                st.cregs.push(Creg { name, start: st.creg_offset });
                assert(cregs_of(st.cregs@) =~= cregs_of(c0).push((nv, st.creg_offset)));
                st.creg_offset = add_bounded(st.creg_offset, size);
                assert forall|i: int| 0 <= i < st@.cregs.len() implies (#[trigger] st@.cregs[i]).1
                    < usize::MAX by {
                    if i < v0.cregs.len() {
                        assert(st@.cregs[i] == v0.cregs[i]);
                    }
                }
            }
            return false;
        }
        proof {
            assert forall|i: int| 0 <= i < st.cregs@.len() implies (#[trigger] st.cregs@[i]).start
                < usize::MAX by {
                assert(st@.cregs[i].1 == st.cregs@[i].start);
            }
        }
        match parse_gate_line(patterns, line, next, &st.cregs) {
            Some(x) => {
                let used = x.1;
                self.place(st, x.0);
                used
            },
            None => false,
        }
    }

    /// Reads a circuit from text in place of the one that was there: nothing
    /// of the old nodes or counts is kept. Lines that are no statement are
    /// passed over; reading never fails.
    pub fn parse_qasm(&mut self, qasm: &str) -> (r: Result<(), String>)
        requires
            2 * qasm@.len() + 4 <= isize::MAX,
        ensures
            r is Ok,
            final(self).wf(),
            final(self)@ == DagView::parsed(qasm@),
            final(self)@.built(),
            final(self)@.acyclic(),
    {
        proof {
            crate::laws::lemma_parsed_built(qasm@);
        }
        self.nodes = Vec::new();
        self.root_nodes = Vec::new();
        self.num_qubits = 0;
        self.num_cbits = 0;
        assert(self@.nodes =~= Seq::empty());
        assert(crate::dag::roots_of(self@.nodes) =~= Seq::empty()) by {
            reveal(Seq::filter);
        }
        assert(texts_of(self.root_nodes@) =~= Seq::empty());
        let raw = split_at(&chars_of(qasm), '\n');
        let mut lines: Vec<String> = Vec::new();
        let mut k: usize = 0;
        let ghost rawv = seqs_of(raw@);
        while k < raw.len()
            invariant
                k <= raw.len(),
                rawv == seqs_of(raw@),
                texts_of(lines@) == rawv.take(k as int).map_values(|l: Seq<char>| trimmed(l)),
            decreases raw.len() - k,
        {
            let ghost l0 = lines@;
            let t = string_of(&trim(&raw[k]));
            lines.push(t);
            assert(texts_of(lines@) =~= texts_of(l0).push(trimmed(rawv[k as int])));
            assert(rawv.take(k + 1).map_values(|l: Seq<char>| trimmed(l)) =~= rawv.take(
                k as int,
            ).map_values(|l: Seq<char>| trimmed(l)).push(trimmed(rawv[k as int])));
            k += 1;
        }
        assert(rawv.take(k as int) =~= rawv);
        let ghost all = texts_of(lines@);
        assert(all == trimmed_lines(qasm@));
        let mut st = Scan::new();
        let patterns = Patterns::new();
        let ghost d0 = self@;
        let ghost st0 = st@;
        let mut i: usize = 0;
        while i < lines.len()
            invariant
                i <= lines.len() + 1,
                lines.len() <= qasm@.len() + 1,
                2 * qasm@.len() + 4 <= isize::MAX,
                all == texts_of(lines@),
                self.wf(),
                st@.bounded(),
                st.step <= 2 * i,
                parse_lines(d0, st0, all, 0) == parse_lines(self@, st@, all, i as int),
            decreases lines.len() + 1 - i,
        {
            let next: Option<&str> = if i + 1 < lines.len() {
                Some(lines[i + 1].as_str())
            } else {
                None
            };
            assert(all[i as int] == lines@[i as int]@);
            assert(i + 1 < lines.len() ==> all[i + 1] == lines@[i + 1]@);
            let used = self.read_line(&mut st, &patterns, lines[i].as_str(), next);
            if used {
                i += 2;
            } else {
                i += 1;
            }
        }
        Ok(())
    }
}

} // verus!
