//! What holds of the circuits that the operations build: ids tell nodes
//! apart, dependencies point back in the order of steps, and so the
//! dependencies form no cycle.

use vstd::prelude::*;
use crate::dag::{id_not_among, lemma_filter_keeps, other_id, pruned, DagView};
use crate::gates::{barrier_node, deps_for, last_before, latest_before, not_before, precedes};
use crate::lines::gate_of_line;
use crate::parser::{
    conflicts, last_owner, line_effect, noise_placed, owned_by, owner_deps, parse_lines, placed,
    trimmed_lines, ScanView,
};
use crate::node::{node_id, NodeView};
use crate::text::{dec_index, dec_int, dec_nat, dec_value, digit_char, digit_value, is_digit, text_lt};

verus! {

/// No text comes before itself.
pub proof fn lemma_text_lt_irreflexive(a: Seq<char>)
    ensures
        !text_lt(a, a),
    decreases a.len(),
{
    if a.len() > 0 {
        lemma_text_lt_irreflexive(a.drop_first());
    }
}

/// The order of texts is transitive.
pub proof fn lemma_text_lt_transitive(a: Seq<char>, b: Seq<char>, c: Seq<char>)
    requires
        text_lt(a, b),
        text_lt(b, c),
    ensures
        text_lt(a, c),
    decreases a.len(),
{
    if a.len() > 0 && b.len() > 0 && c.len() > 0 {
        if a[0] == b[0] && b[0] == c[0] {
            lemma_text_lt_transitive(a.drop_first(), b.drop_first(), c.drop_first());
        }
    }
}

/// Of two texts at most one comes before the other.
pub proof fn lemma_text_lt_asymmetric(a: Seq<char>, b: Seq<char>)
    ensures
        text_lt(a, b) ==> !text_lt(b, a),
    decreases a.len(),
{
    if a.len() > 0 && b.len() > 0 && a[0] == b[0] {
        lemma_text_lt_asymmetric(a.drop_first(), b.drop_first());
    }
}

/// A text that comes before `c` comes before `b`, or `b` comes before `c`.
pub proof fn lemma_text_lt_cotransitive(a: Seq<char>, b: Seq<char>, c: Seq<char>)
    ensures
        text_lt(a, c) ==> text_lt(a, b) || text_lt(b, c),
    decreases a.len(),
{
    if a.len() > 0 && b.len() > 0 && c.len() > 0 {
        if a[0] == b[0] && b[0] == c[0] {
            lemma_text_lt_cotransitive(a.drop_first(), b.drop_first(), c.drop_first());
        } else {
            vstd::utf8::char_u32_cast(a[0], a[0] as u32);
            vstd::utf8::char_u32_cast(b[0], b[0] as u32);
            vstd::utf8::char_u32_cast(c[0], c[0] as u32);
        }
    }
}

/// Whether node `a` comes before node `b`: by step, then by type.
pub open spec fn comes_before(a: NodeView, b: NodeView) -> bool {
    precedes(a, b.step, b.gate_type)
}

/// No node comes before itself, and the order of nodes is transitive.
pub proof fn lemma_comes_before_order(a: NodeView, b: NodeView, c: NodeView)
    ensures
        !comes_before(a, a),
        comes_before(a, b) && comes_before(b, c) ==> comes_before(a, c),
{
    lemma_text_lt_irreflexive(a.gate_type);
    if comes_before(a, b) && comes_before(b, c) {
        if a.step == b.step && b.step == c.step {
            lemma_text_lt_transitive(a.gate_type, b.gate_type, c.gate_type);
        }
    }
}

/// The number of the nodes that come before `x`.
pub open spec fn count_before(nodes: Seq<NodeView>, x: NodeView) -> int
    decreases nodes.len(),
{
    if nodes.len() == 0 {
        0
    } else {
        count_before(nodes.drop_last(), x) + if comes_before(nodes.last(), x) {
            1int
        } else {
            0int
        }
    }
}

proof fn lemma_count_before_grows(nodes: Seq<NodeView>, a: NodeView, b: NodeView)
    requires
        comes_before(a, b),
    ensures
        count_before(nodes, a) <= count_before(nodes, b),
        nodes.contains(a) ==> count_before(nodes, a) < count_before(nodes, b),
    decreases nodes.len(),
{
    if nodes.len() > 0 {
        let head = nodes.drop_last();
        lemma_count_before_grows(head, a, b);
        lemma_comes_before_order(nodes.last(), a, b);
        lemma_comes_before_order(a, a, b);
        if nodes.contains(a) {
            let k = choose|k: int| 0 <= k < nodes.len() && nodes[k] == a;
            if k < nodes.len() - 1 {
                assert(head[k] == a);
            }
        }
    }
}

impl DagView {
    /// Whether every dependency is the id of a node of the circuit.
    pub open spec fn closed(self) -> bool {
        forall|i: int, k: int|
            0 <= i < self.nodes.len() && 0 <= k < self.nodes[i].dependencies.len()
                ==> self.has_id(#[trigger] self.nodes[i].dependencies[k])
    }

    /// Whether every node has the id that its type, target and step give.
    pub open spec fn canonical(self) -> bool {
        forall|i: int|
            0 <= i < self.nodes.len() ==> (#[trigger] self.nodes[i]).id == node_id(
                self.nodes[i].gate_type,
                self.nodes[i].target,
                self.nodes[i].step,
            )
    }

    /// Whether every node comes after the nodes that it depends on, by step
    /// and then by type.
    pub open spec fn step_ordered(self) -> bool {
        forall|i: int, k: int, j: int|
            0 <= i < self.nodes.len() && 0 <= k < self.nodes[i].dependencies.len() && 0 <= j
                < self.nodes.len() && #[trigger] self.nodes[i].dependencies[k]
                == #[trigger] self.nodes[j].id ==> comes_before(self.nodes[j], self.nodes[i])
    }

    /// What holds of a circuit that was built by adding and removing gates: no two nodes
    /// share an id, every id is that of its node's type, target and step,
    /// every dependency is a node of the circuit, and dependencies point
    /// back in the order of steps and types.
    pub open spec fn built(self) -> bool {
        self.unique_ids() && self.canonical() && self.closed() && self.step_ordered()
    }
}

/// The rank of an id: the number of nodes that come before its node.
pub open spec fn rank_in(nodes: Seq<NodeView>) -> spec_fn(Seq<char>) -> int {
    |id: Seq<char>|
        if exists|j: int| 0 <= j < nodes.len() && nodes[j].id == id {
            count_before(nodes, nodes[choose|j: int| 0 <= j < nodes.len() && nodes[j].id == id])
        } else {
            0
        }
}

/// Where every node comes after the nodes that it depends on, the
/// dependencies form no cycle.
pub proof fn lemma_step_ordered_acyclic(d: DagView)
    requires
        d.unique_ids(),
        d.step_ordered(),
    ensures
        d.acyclic(),
{
    let rank = rank_in(d.nodes);
    assert forall|i: int, k: int, j: int|
        0 <= i < d.nodes.len() && 0 <= k < d.nodes[i].dependencies.len() && 0 <= j < d.nodes.len()
            && #[trigger] d.nodes[i].dependencies[k] == #[trigger] d.nodes[j].id implies rank(
        d.nodes[j].id,
    ) < rank(d.nodes[i].id) by {
        let jj = choose|x: int| 0 <= x < d.nodes.len() && d.nodes[x].id == d.nodes[j].id;
        let ii = choose|x: int| 0 <= x < d.nodes.len() && d.nodes[x].id == d.nodes[i].id;
        assert(jj == j && ii == i);
        lemma_count_before_grows(d.nodes, d.nodes[j], d.nodes[i]);
        assert(d.nodes.contains(d.nodes[j]));
    }
    assert(d.ranked_by(rank));
}

/// Every dependency of a new node is the id of a node that refers to one
/// of its qubits and comes before it.
pub proof fn lemma_deps_come_before(
    nodes: Seq<NodeView>,
    qubits: Seq<usize>,
    step: int,
    gate_type: Seq<char>,
)
    ensures
        forall|k: int|
            0 <= k < deps_for(nodes, qubits, step, gate_type).len() ==> exists|j: int|
                0 <= j < nodes.len() && nodes[j].id == #[trigger] deps_for(
                    nodes,
                    qubits,
                    step,
                    gate_type,
                )[k] && precedes(nodes[j], step, gate_type),
    decreases qubits.len(),
{
    if qubits.len() > 0 {
        lemma_deps_come_before(nodes, qubits.drop_last(), step, gate_type);
        lemma_most_recent(nodes, qubits.last(), step, gate_type);
        let before = deps_for(nodes, qubits.drop_last(), step, gate_type);
        let all = deps_for(nodes, qubits, step, gate_type);
        assert forall|k: int| 0 <= k < all.len() implies exists|j: int|
            0 <= j < nodes.len() && nodes[j].id == #[trigger] all[k] && precedes(
                nodes[j],
                step,
                gate_type,
            ) by {
            if k < before.len() {
                assert(all[k] == before[k]);
            }
        }
    }
}

/// The node that a new node depends on for a qubit is the most recent one:
/// it refers to the qubit and comes before the new node, and no node that
/// does both is later than it in the order of step, then type. Where no node
/// does both, there is none.
pub proof fn lemma_most_recent(nodes: Seq<NodeView>, q: usize, step: int, gate_type: Seq<char>)
    ensures
        match latest_before(nodes, q, step, gate_type) {
            Some(j) => {
                &&& 0 <= j < nodes.len()
                &&& nodes[j].touches(q)
                &&& precedes(nodes[j], step, gate_type)
                &&& forall|i: int|
                    0 <= i < nodes.len() && (#[trigger] nodes[i]).touches(q) && precedes(
                        nodes[i],
                        step,
                        gate_type,
                    ) ==> not_before(nodes[j], nodes[i])
            },
            None => forall|i: int|
                0 <= i < nodes.len() ==> !((#[trigger] nodes[i]).touches(q) && precedes(
                    nodes[i],
                    step,
                    gate_type,
                )),
        },
    decreases nodes.len(),
{
    if nodes.len() > 0 {
        let front = nodes.drop_last();
        let n = nodes.last();
        lemma_most_recent(front, q, step, gate_type);
        let rest = latest_before(front, q, step, gate_type);
        assert forall|i: int| 0 <= i < front.len() implies front[i] == nodes[i] by {}
        lemma_text_lt_irreflexive(n.gate_type);
        match latest_before(nodes, q, step, gate_type) {
            Some(j) => {
                assert forall|i: int|
                    0 <= i < nodes.len() && (#[trigger] nodes[i]).touches(q) && precedes(
                        nodes[i],
                        step,
                        gate_type,
                    ) implies not_before(nodes[j], nodes[i]) by {
                    if i < front.len() {
                        assert(front[i] == nodes[i]);
                        let k = rest->0;
                        assert(not_before(front[k], front[i]));
                        if j != k {
                            lemma_text_lt_cotransitive(
                                nodes[j].gate_type,
                                front[k].gate_type,
                                nodes[i].gate_type,
                            );
                        }
                    } else if j != i {
                        lemma_text_lt_asymmetric(nodes[i].gate_type, nodes[j].gate_type);
                    }
                }
            },
            None => {
                assert forall|i: int| 0 <= i < nodes.len() implies !((#[trigger] nodes[i]).touches(
                    q,
                ) && precedes(nodes[i], step, gate_type)) by {
                    if i < front.len() {
                        assert(front[i] == nodes[i]);
                    }
                }
            },
        }
    }
}

/// What a new node depends on names no node twice, and names exactly the
/// nodes that are the most recent one before it on one of its qubits.
pub proof fn lemma_deps_are_most_recent(
    nodes: Seq<NodeView>,
    qubits: Seq<usize>,
    step: int,
    gate_type: Seq<char>,
)
    ensures
        deps_for(nodes, qubits, step, gate_type).no_duplicates(),
        forall|id: Seq<char>|
            deps_for(nodes, qubits, step, gate_type).contains(id) <==> exists|k: int|
                0 <= k < qubits.len() && last_before(nodes, #[trigger] qubits[k], step, gate_type)
                    == Some(id),
    decreases qubits.len(),
{
    let all = deps_for(nodes, qubits, step, gate_type);
    if qubits.len() > 0 {
        let front = qubits.drop_last();
        let before = deps_for(nodes, front, step, gate_type);
        lemma_deps_are_most_recent(nodes, front, step, gate_type);
        let last = last_before(nodes, qubits.last(), step, gate_type);
        assert forall|id: Seq<char>| all.contains(id) implies exists|k: int|
            0 <= k < qubits.len() && last_before(nodes, #[trigger] qubits[k], step, gate_type)
                == Some(id) by {
            if before.contains(id) {
                let k = choose|k: int|
                    0 <= k < front.len() && last_before(nodes, #[trigger] front[k], step, gate_type)
                        == Some(id);
                assert(qubits[k] == front[k]);
            } else {
                let i = choose|i: int| 0 <= i < all.len() && all[i] == id;
                if i < before.len() {
                    assert(before[i] == id);
                }
                assert(qubits[qubits.len() - 1] == qubits.last());
            }
        }
        assert forall|id: Seq<char>|
            (exists|k: int|
                0 <= k < qubits.len() && last_before(nodes, #[trigger] qubits[k], step, gate_type)
                    == Some(id)) implies all.contains(id) by {
            let k = choose|k: int|
                0 <= k < qubits.len() && last_before(nodes, #[trigger] qubits[k], step, gate_type)
                    == Some(id);
            if k < front.len() {
                assert(front[k] == qubits[k]);
                assert(before.contains(id));
                let i = choose|i: int| 0 <= i < before.len() && before[i] == id;
                assert(all[i] == id);
            } else {
                if before.contains(id) {
                    let i = choose|i: int| 0 <= i < before.len() && before[i] == id;
                    assert(all[i] == id);
                } else {
                    assert(all[all.len() - 1] == id);
                }
            }
        }
    } else {
        assert forall|id: Seq<char>| !all.contains(id) by {}
    }
}

/// The digits of a number are ASCII digits, and read back as the number.
pub proof fn lemma_dec_nat(n: nat)
    ensures
        dec_nat(n).len() >= 1,
        forall|i: int| 0 <= i < dec_nat(n).len() ==> is_digit(#[trigger] dec_nat(n)[i]),
        dec_value(dec_nat(n)) == n,
    decreases n,
{
    let d = (n % 10) as int;
    assert(is_digit(digit_char(d)) && digit_value(digit_char(d)) == d);
    if n < 10 {
        assert(dec_nat(n).drop_last() =~= Seq::<char>::empty());
        assert(dec_value(dec_nat(n).drop_last()) == 0);
    } else {
        lemma_dec_nat(n / 10);
        assert(dec_nat(n).drop_last() =~= dec_nat(n / 10));
        assert forall|i: int| 0 <= i < dec_nat(n).len() implies is_digit(
            #[trigger] dec_nat(n)[i],
        ) by {
            if i < dec_nat(n).len() - 1 {
                assert(dec_nat(n)[i] == dec_nat(n / 10)[i]);
            }
        }
    }
}

/// Two numbers with the same digits are the same.
pub proof fn lemma_dec_nat_injective(a: nat, b: nat)
    requires
        dec_nat(a) == dec_nat(b),
    ensures
        a == b,
{
    lemma_dec_nat(a);
    lemma_dec_nat(b);
}

/// Two integers that are written alike are the same.
pub proof fn lemma_dec_int_injective(a: int, b: int)
    requires
        dec_int(a) == dec_int(b),
    ensures
        a == b,
{
    let x = if a < 0 {
        (-a) as nat
    } else {
        a as nat
    };
    let y = if b < 0 {
        (-b) as nat
    } else {
        b as nat
    };
    lemma_dec_nat(x);
    lemma_dec_nat(y);
    if a < 0 {
        assert(dec_int(a)[0] == '-');
        if b < 0 {
            assert(dec_int(a).skip(1) =~= dec_nat(x));
            assert(dec_int(b).skip(1) =~= dec_nat(y));
        } else {
            assert(is_digit(dec_nat(y)[0]));
        }
    } else {
        assert(is_digit(dec_nat(x)[0]));
        if b < 0 {
            assert(dec_int(b)[0] == '-');
        }
    }
}

/// Two indices that are written alike are the same.
pub proof fn lemma_dec_index_injective(a: Option<usize>, b: Option<usize>)
    requires
        dec_index(a) == dec_index(b),
    ensures
        a == b,
{
    match (a, b) {
        (Some(x), Some(y)) => {
            lemma_dec_nat_injective(x as nat, y as nat);
        },
        (Some(x), None) => {
            lemma_dec_nat(x as nat);
            assert(is_digit(dec_nat(x as nat)[0]));
            assert(dec_index(b)[0] == '-');
        },
        (None, Some(y)) => {
            lemma_dec_nat(y as nat);
            assert(is_digit(dec_nat(y as nat)[0]));
            assert(dec_index(a)[0] == '-');
        },
        (None, None) => {},
    }
}

/// Two texts that agree, each cut at a mark that its tail does not hold,
/// agree in head and tail.
proof fn lemma_cut_at_mark(
    x1: Seq<char>,
    y1: Seq<char>,
    x2: Seq<char>,
    y2: Seq<char>,
    mark: char,
)
    requires
        x1.push(mark) + y1 == x2.push(mark) + y2,
        !y1.contains(mark),
        !y2.contains(mark),
    ensures
        x1 == x2,
        y1 == y2,
{
    let w1 = x1.push(mark) + y1;
    let w2 = x2.push(mark) + y2;
    assert(w1.len() == x1.len() + 1 + y1.len());
    assert(w2.len() == x2.len() + 1 + y2.len());
    if x1.len() < x2.len() {
        assert(w1[x2.len() as int] == y1[x2.len() - x1.len() - 1]);
        assert(w2[x2.len() as int] == mark);
        assert(y1.contains(mark));
    }
    if x2.len() < x1.len() {
        assert(w2[x1.len() as int] == y2[x1.len() - x2.len() - 1]);
        assert(w1[x1.len() as int] == mark);
        assert(y2.contains(mark));
    }
    assert(x1 =~= x2) by {
        assert forall|i: int| 0 <= i < x1.len() implies x1[i] == x2[i] by {
            assert(w1[i] == x1[i]);
            assert(w2[i] == x2[i]);
        }
    }
    assert(y1 =~= y2) by {
        assert forall|i: int| 0 <= i < y1.len() implies y1[i] == y2[i] by {
            assert(w1[x1.len() + 1 + i] == y1[i]);
            assert(w2[x2.len() + 1 + i] == y2[i]);
        }
    }
}

proof fn lemma_index_has_no_letter(q: Option<usize>, mark: char)
    requires
        mark == 'q' || mark == 's' || mark == '_',
    ensures
        !dec_index(q).contains(mark),
{
    match q {
        Some(n) => {
            lemma_dec_nat(n as nat);
        },
        None => {},
    }
}

proof fn lemma_int_has_no_letter(s: int, mark: char)
    requires
        mark == 'q' || mark == 's' || mark == '_',
    ensures
        !dec_int(s).contains(mark),
{
    if s < 0 {
        lemma_dec_nat((-s) as nat);
        if dec_int(s).contains(mark) {
            let i = choose|i: int| 0 <= i < dec_int(s).len() && dec_int(s)[i] == mark;
            if i > 0 {
                assert(dec_int(s)[i] == dec_nat((-s) as nat)[i - 1]);
            }
        }
    } else {
        lemma_dec_nat(s as nat);
    }
}

/// Ids tell nodes apart: two ids are the same only for the same type,
/// target and step.
pub proof fn lemma_node_id_injective(
    t1: Seq<char>,
    q1: Option<usize>,
    s1: int,
    t2: Seq<char>,
    q2: Option<usize>,
    s2: int,
)
    requires
        node_id(t1, q1, s1) == node_id(t2, q2, s2),
    ensures
        t1 == t2,
        q1 == q2,
        s1 == s2,
{
    reveal_strlit("_q");
    reveal_strlit("_s");
    let a1 = t1.push('_').push('q') + dec_index(q1);
    let a2 = t2.push('_').push('q') + dec_index(q2);
    assert("_q"@ =~= seq!['_', 'q']);
    assert("_s"@ =~= seq!['_', 's']);
    assert(node_id(t1, q1, s1) =~= a1.push('_').push('s') + dec_int(s1));
    assert(node_id(t2, q2, s2) =~= a2.push('_').push('s') + dec_int(s2));
    lemma_int_has_no_letter(s1, 's');
    lemma_int_has_no_letter(s2, 's');
    lemma_cut_at_mark(a1.push('_'), dec_int(s1), a2.push('_'), dec_int(s2), 's');
    lemma_dec_int_injective(s1, s2);
    assert(a1 =~= a1.push('_').drop_last());
    assert(a2 =~= a2.push('_').drop_last());
    assert(a1 == a2);
    lemma_index_has_no_letter(q1, 'q');
    lemma_index_has_no_letter(q2, 'q');
    lemma_cut_at_mark(t1.push('_'), dec_index(q1), t2.push('_'), dec_index(q2), 'q');
    lemma_dec_index_injective(q1, q2);
    assert(t1 =~= t1.push('_').drop_last());
    assert(t2 =~= t2.push('_').drop_last());
}

/// Whether `m` is a node as adding a gate makes it: it has the id of
/// its type, target and step, and its dependencies are what a new node on
/// some of the qubits depends on.
pub open spec fn is_new_gate(d: DagView, m: NodeView, qubits: Seq<usize>) -> bool {
    &&& m.id == node_id(m.gate_type, m.target, m.step)
    &&& m.dependencies == deps_for(d.nodes, qubits, m.step, m.gate_type)
}

/// A circuit that was built by adding and removing gates stays one where a
/// gate is added.
pub proof fn lemma_add_keeps_built(d: DagView, m: NodeView, qubits: Seq<usize>)
    requires
        d.built(),
        is_new_gate(d, m, qubits),
    ensures
        d.add_node(m).built(),
{
    lemma_deps_come_before(d.nodes, qubits, m.step, m.gate_type);
    assert forall|k: int| 0 <= k < m.dependencies.len() implies is_earlier(
        d,
        m,
        #[trigger] m.dependencies[k],
    ) by {
        let deps = deps_for(d.nodes, qubits, m.step, m.gate_type);
        assert(m.dependencies[k] == deps[k]);
        let j = choose|j: int|
            0 <= j < d.nodes.len() && d.nodes[j].id == deps[k] && precedes(
                d.nodes[j],
                m.step,
                m.gate_type,
            );
        assert(comes_before(d.nodes[j], m));
    }
    lemma_insert_keeps_built(d, m);
}

/// Whether every dependency of `m` is a node of the circuit that comes
/// before `m`.
pub open spec fn depends_on_earlier(d: DagView, m: NodeView) -> bool {
    forall|k: int| 0 <= k < m.dependencies.len() ==> is_earlier(d, m, #[trigger] m.dependencies[k])
}

/// Whether `id` is the id of a node of the circuit that comes before `m`.
pub open spec fn is_earlier(d: DagView, m: NodeView, id: Seq<char>) -> bool {
    exists|j: int| 0 <= j < d.nodes.len() && d.nodes[j].id == id && comes_before(d.nodes[j], m)
}

/// A circuit that was built by adding and removing gates stays one where a
/// node is inserted that has the id of its type, target and step, and
/// depends only on nodes of the circuit that come before it.
pub proof fn lemma_insert_keeps_built(d: DagView, m: NodeView)
    requires
        d.built(),
        m.id == node_id(m.gate_type, m.target, m.step),
        depends_on_earlier(d, m),
    ensures
        d.add_node(m).built(),
        forall|id: Seq<char>| d.has_id(id) ==> #[trigger] d.add_node(m).has_id(id),
{
    reveal_strlit("_q");
    let e = d.add_node(m);
    let old = d.nodes.filter(other_id(m.id));
    assert(m.with_id() == m);
    assert(e.nodes == old.push(m));
    lemma_filter_keeps(d.nodes, other_id(m.id));
    // a node of the same id has the same type and step
    assert forall|j: int| 0 <= j < d.nodes.len() && d.nodes[j].id == m.id implies d.nodes[j].step
        == m.step && d.nodes[j].gate_type == m.gate_type by {
        lemma_node_id_injective(
            d.nodes[j].gate_type,
            d.nodes[j].target,
            d.nodes[j].step,
            m.gate_type,
            m.target,
            m.step,
        );
    }
    // every old node that stays is an old node
    assert forall|i: int| 0 <= i < old.len() implies (exists|a: int|
        0 <= a < d.nodes.len() && d.nodes[a] == #[trigger] old[i]) && old[i].id != m.id by {
        assert(d.nodes.contains(old[i]));
    }
    // every id of the old circuit is an id of the new one
    assert forall|id: Seq<char>| d.has_id(id) implies e.has_id(id) by {
        let a = choose|a: int| 0 <= a < d.nodes.len() && d.nodes[a].id == id;
        if id == m.id {
            assert(e.nodes[old.len() as int].id == id);
        } else {
            d.nodes.lemma_filter_contains(other_id(m.id), a);
            let b = choose|b: int| 0 <= b < old.len() && old[b] == d.nodes[a];
            assert(e.nodes[b].id == id);
        }
    }
    assert(e.unique_ids());
    assert(e.canonical()) by {
        assert forall|i: int| 0 <= i < e.nodes.len() implies (#[trigger] e.nodes[i]).id == node_id(
            e.nodes[i].gate_type,
            e.nodes[i].target,
            e.nodes[i].step,
        ) by {
            if i < old.len() {
                let a = choose|a: int| 0 <= a < d.nodes.len() && d.nodes[a] == old[i];
                assert(e.nodes[i] == d.nodes[a]);
            }
        }
    }
    assert(e.closed()) by {
        assert forall|i: int, k: int|
            0 <= i < e.nodes.len() && 0 <= k < e.nodes[i].dependencies.len() implies e.has_id(
            #[trigger] e.nodes[i].dependencies[k],
        ) by {
            if i < old.len() {
                let a = choose|a: int| 0 <= a < d.nodes.len() && d.nodes[a] == old[i];
                assert(e.nodes[i] == d.nodes[a]);
                assert(d.has_id(d.nodes[a].dependencies[k]));
            } else {
                assert(is_earlier(d, m, m.dependencies[k]));
                let j = choose|j: int|
                    0 <= j < d.nodes.len() && d.nodes[j].id == m.dependencies[k] && comes_before(
                        d.nodes[j],
                        m,
                    );
                assert(d.has_id(m.dependencies[k]));
            }
        }
    }
    assert(e.step_ordered()) by {
        assert forall|i: int, k: int, j: int|
            0 <= i < e.nodes.len() && 0 <= k < e.nodes[i].dependencies.len() && 0 <= j
                < e.nodes.len() && #[trigger] e.nodes[i].dependencies[k]
                == #[trigger] e.nodes[j].id implies comes_before(e.nodes[j], e.nodes[i]) by {
            let dep = e.nodes[i].dependencies[k];
            if i < old.len() {
                let a = choose|a: int| 0 <= a < d.nodes.len() && d.nodes[a] == old[i];
                assert(e.nodes[i] == d.nodes[a]);
                assert(d.has_id(d.nodes[a].dependencies[k]));
                let b = choose|b: int| 0 <= b < d.nodes.len() && d.nodes[b].id == dep;
                assert(comes_before(d.nodes[b], d.nodes[a]));
                if j < old.len() {
                    let c = choose|c: int| 0 <= c < d.nodes.len() && d.nodes[c] == old[j];
                    assert(c == b);
                }
            } else {
                assert(is_earlier(d, m, m.dependencies[k]));
                let b = choose|b: int|
                    0 <= b < d.nodes.len() && d.nodes[b].id == dep && comes_before(d.nodes[b], m);
                lemma_comes_before_order(m, m, m);
                if j < old.len() {
                    let c = choose|c: int| 0 <= c < d.nodes.len() && d.nodes[c] == old[j];
                    assert(c == b);
                } else {
                    assert(d.nodes[b].id == m.id);
                }
            }
        }
    }
}

/// A circuit that was built by adding and removing gates stays one where nodes are
/// removed with every dependency on them.
pub proof fn lemma_remove_keeps_built(d: DagView, ids: Seq<Seq<char>>)
    requires
        d.built(),
    ensures
        d.remove_ids(ids).built(),
{
    let e = d.remove_ids(ids);
    let kept = d.nodes.filter(id_not_among(ids));
    lemma_filter_keeps(d.nodes, id_not_among(ids));
    assert forall|i: int| 0 <= i < e.nodes.len() implies (#[trigger] e.nodes[i]) == pruned(
        kept[i],
        ids,
    ) && d.nodes.contains(kept[i]) && !ids.contains(kept[i].id) by {}
    assert(e.unique_ids());
    assert(e.canonical()) by {
        assert forall|i: int| 0 <= i < e.nodes.len() implies (#[trigger] e.nodes[i]).id == node_id(
            e.nodes[i].gate_type,
            e.nodes[i].target,
            e.nodes[i].step,
        ) by {
            let a = choose|a: int| 0 <= a < d.nodes.len() && d.nodes[a] == kept[i];
        }
    }
    assert forall|i: int, k: int|
        0 <= i < e.nodes.len() && 0 <= k < e.nodes[i].dependencies.len() implies !ids.contains(
        #[trigger] e.nodes[i].dependencies[k],
    ) && kept[i].dependencies.contains(e.nodes[i].dependencies[k]) by {
        let deps = kept[i].dependencies;
        let p = crate::dag::not_among(ids);
        deps.lemma_filter_pred(p, k);
        lemma_filter_from(deps, p, k);
    }
    assert(e.closed()) by {
        assert forall|i: int, k: int|
            0 <= i < e.nodes.len() && 0 <= k < e.nodes[i].dependencies.len() implies e.has_id(
            #[trigger] e.nodes[i].dependencies[k],
        ) by {
            let dep = e.nodes[i].dependencies[k];
            let a = choose|a: int| 0 <= a < d.nodes.len() && d.nodes[a] == kept[i];
            let kk = choose|kk: int| 0 <= kk < kept[i].dependencies.len() && kept[i].dependencies[kk] == dep;
            assert(d.has_id(d.nodes[a].dependencies[kk]));
            let b = choose|b: int| 0 <= b < d.nodes.len() && d.nodes[b].id == dep;
            d.nodes.lemma_filter_contains(id_not_among(ids), b);
            let c = choose|c: int| 0 <= c < kept.len() && kept[c] == d.nodes[b];
            assert(e.nodes[c].id == dep);
        }
    }
    assert(e.step_ordered()) by {
        assert forall|i: int, k: int, j: int|
            0 <= i < e.nodes.len() && 0 <= k < e.nodes[i].dependencies.len() && 0 <= j
                < e.nodes.len() && #[trigger] e.nodes[i].dependencies[k]
                == #[trigger] e.nodes[j].id implies comes_before(e.nodes[j], e.nodes[i]) by {
            let dep = e.nodes[i].dependencies[k];
            let a = choose|a: int| 0 <= a < d.nodes.len() && d.nodes[a] == kept[i];
            let b = choose|b: int| 0 <= b < d.nodes.len() && d.nodes[b] == kept[j];
            let kk = choose|kk: int| 0 <= kk < kept[i].dependencies.len() && kept[i].dependencies[kk] == dep;
            assert(d.nodes[a].dependencies[kk] == d.nodes[b].id);
        }
    }
}

proof fn lemma_filter_from(s: Seq<Seq<char>>, p: spec_fn(Seq<char>) -> bool, k: int)
    requires
        0 <= k < s.filter(p).len(),
    ensures
        s.contains(s.filter(p)[k]),
    decreases s.len(),
{
    reveal(Seq::filter);
    if s.len() > 0 {
        let head = s.drop_last();
        if k < head.filter(p).len() {
            lemma_filter_from(head, p, k);
            let j = choose|j: int| 0 <= j < head.len() && head[j] == head.filter(p)[k];
            assert(s[j] == s.filter(p)[k]);
        } else {
            assert(s[s.len() - 1] == s.filter(p)[k]);
        }
    }
}

/// A circuit that was built by adding and removing gates stays one where a barrier is
/// put at a step.
pub proof fn lemma_barrier_keeps_built(d: DagView, step: int)
    requires
        d.built(),
    ensures
        d.with_barrier(step).built(),
{
    let ids = crate::dag::ids_of(d.nodes.filter(crate::dag::barrier_at(step)));
    lemma_remove_keeps_built(d, ids);
    let e = d.remove_ids(ids);
    assert(deps_for(e.nodes, Seq::<usize>::empty(), step, "BARRIER"@) =~= Seq::<Seq<char>>::empty());
    assert(barrier_node(step).dependencies =~= Seq::<Seq<char>>::empty());
    lemma_add_keeps_built(e, barrier_node(step), Seq::empty());
}

/// The empty circuit is one that was built by adding and removing gates.
pub proof fn lemma_empty_built(num_qubits: nat, num_cbits: nat)
    ensures
        (DagView { nodes: Seq::empty(), num_qubits, num_cbits }).built(),
{
}

/// The dependencies of a circuit that was built by adding and removing gates form no
/// cycle, so that a topological order has every node behind all that it
/// depends on.
pub proof fn lemma_built_acyclic(d: DagView)
    requires
        d.built(),
    ensures
        d.acyclic(),
{
    lemma_step_ordered_acyclic(d);
}

/// Whether entry `k` of the nodes read last names a node of the circuit
/// that stands before the current step, or in it with its qubit taken.
pub open spec fn owner_ok(d: DagView, st: ScanView, k: int) -> bool {
    exists|j: int|
        0 <= j < d.nodes.len() && d.nodes[j].id == st.owners[k].1 && (d.nodes[j].step < st.step
            || (d.nodes[j].step == st.step && st.claimed.contains(st.owners[k].0)))
}

/// What holds while a text is read: the circuit read so far is one that
/// was built by adding and removing gates, and every node read last on a
/// qubit stands before the current step, or in it with its qubit taken.
pub open spec fn reading(d: DagView, st: ScanView) -> bool {
    d.built() && forall|k: int| 0 <= k < st.owners.len() ==> #[trigger] owner_ok(d, st, k)
}

proof fn lemma_last_owner(owners: Seq<(usize, Seq<char>)>, q: usize)
    ensures
        last_owner(owners, q) is Some ==> exists|k: int|
            0 <= k < owners.len() && owners[k] == (q, last_owner(owners, q)->0),
    decreases owners.len(),
{
    if owners.len() > 0 {
        if owners.last().0 == q {
            assert(owners[owners.len() - 1] == (q, last_owner(owners, q)->0));
        } else {
            lemma_last_owner(owners.drop_last(), q);
            if last_owner(owners, q) is Some {
                let k = choose|k: int|
                    0 <= k < owners.drop_last().len() && owners.drop_last()[k] == (
                        q,
                        last_owner(owners.drop_last(), q)->0,
                    );
                assert(owners[k] == owners.drop_last()[k]);
            }
        }
    }
}

/// Whether `id` is read last on one of the qubits `qs`.
pub open spec fn owned_among(owners: Seq<(usize, Seq<char>)>, qs: Seq<usize>, id: Seq<char>)
    -> bool {
    exists|x: int, k: int|
        0 <= x < qs.len() && 0 <= k < owners.len() && #[trigger] owners[k] == (
            #[trigger] qs[x],
            id,
        )
}

proof fn lemma_owner_deps(owners: Seq<(usize, Seq<char>)>, qs: Seq<usize>)
    ensures
        forall|i: int|
            0 <= i < owner_deps(owners, qs).len() ==> owned_among(
                owners,
                qs,
                #[trigger] owner_deps(owners, qs)[i],
            ),
    decreases qs.len(),
{
    if qs.len() > 0 {
        let head = qs.drop_last();
        lemma_owner_deps(owners, head);
        lemma_last_owner(owners, qs.last());
        let before = owner_deps(owners, head);
        let all = owner_deps(owners, qs);
        assert forall|i: int| 0 <= i < all.len() implies owned_among(owners, qs, #[trigger] all[i]) by {
            if i < before.len() {
                assert(all[i] == before[i]);
                assert(owned_among(owners, head, before[i]));
                let (x, k) = choose|x: int, k: int|
                    0 <= x < head.len() && 0 <= k < owners.len() && #[trigger] owners[k] == (
                        #[trigger] head[x],
                        before[i],
                    );
                assert(qs[x] == head[x]);
            } else {
                let k = choose|k: int|
                    0 <= k < owners.len() && owners[k] == (
                        qs.last(),
                        last_owner(owners, qs.last())->0,
                    );
                assert(owners[k] == (qs[qs.len() - 1], all[i]));
            }
        }
    }
}

/// Reading goes on well over a node that is put into the circuit.
pub proof fn lemma_placed_keeps(d: DagView, st: ScanView, n: NodeView)
    requires
        reading(d, st),
        n.dependencies.len() == 0,
    ensures
        reading(placed(d, st, n).0, placed(d, st, n).1),
{
    let qs = n.qubits();
    let barrier = n.gate_type == "BARRIER"@;
    let bump = if barrier || n.is_multi() {
        st.claimed.len() > 0
    } else {
        conflicts(st.claimed, qs)
    };
    let step = if bump {
        st.step + 1
    } else {
        st.step
    };
    let id = node_id(n.gate_type, n.target, step);
    let deps = owner_deps(st.owners, qs);
    let m = NodeView { id, step, dependencies: n.dependencies + deps, ..n };
    let e = placed(d, st, n).0;
    let st2 = placed(d, st, n).1;
    assert(e == d.add_node(m));
    assert(m.dependencies =~= deps);
    lemma_owner_deps(st.owners, qs);
    assert forall|k: int| 0 <= k < m.dependencies.len() implies is_earlier(
        d,
        m,
        #[trigger] m.dependencies[k],
    ) by {
        let dep = deps[k];
        assert(owned_among(st.owners, qs, dep));
        let (x, o) = choose|x: int, o: int|
            0 <= x < qs.len() && 0 <= o < st.owners.len() && #[trigger] st.owners[o] == (
                #[trigger] qs[x],
                dep,
            );
        assert(owner_ok(d, st, o));
        let j = choose|j: int|
            0 <= j < d.nodes.len() && d.nodes[j].id == st.owners[o].1 && (d.nodes[j].step
                < st.step || (d.nodes[j].step == st.step && st.claimed.contains(st.owners[o].0)));
        if !bump && d.nodes[j].step == st.step {
            assert(st.claimed.contains(qs[x]));
            if barrier || n.is_multi() {
                let c = choose|c: int| 0 <= c < st.claimed.len() && st.claimed[c] == qs[x];
            } else {
                assert(conflicts(st.claimed, qs));
            }
        }
        assert(comes_before(d.nodes[j], m));
    }
    lemma_insert_keeps_built(d, m);
    assert(st2.owners == st.owners + owned_by(qs, id));
    assert forall|k: int| 0 <= k < st2.owners.len() implies #[trigger] owner_ok(e, st2, k) by {
        let last = e.nodes.len() - 1;
        assert(e.nodes[last] == m);
        if k < st.owners.len() {
            assert(st2.owners[k] == st.owners[k]);
            assert(owner_ok(d, st, k));
            let j = choose|j: int|
                0 <= j < d.nodes.len() && d.nodes[j].id == st.owners[k].1 && (d.nodes[j].step
                    < st.step || (d.nodes[j].step == st.step && st.claimed.contains(
                    st.owners[k].0,
                )));
            let q = st.owners[k].0;
            if d.nodes[j].id == id {
                lemma_node_id_injective(
                    d.nodes[j].gate_type,
                    d.nodes[j].target,
                    d.nodes[j].step,
                    n.gate_type,
                    n.target,
                    step,
                );
                if !barrier {
                    assert(st.claimed.contains(q));
                    let c = choose|c: int| 0 <= c < st.claimed.len() && st.claimed[c] == q;
                    assert(st2.claimed[c] == q);
                }
            } else {
                d.nodes.lemma_filter_contains(other_id(id), j);
                let old = d.nodes.filter(other_id(id));
                let b = choose|b: int| 0 <= b < old.len() && old[b] == d.nodes[j];
                assert(e.nodes[b] == d.nodes[j]);
                if d.nodes[j].step == st.step && !bump && !barrier {
                    let c = choose|c: int| 0 <= c < st.claimed.len() && st.claimed[c] == q;
                    assert(st2.claimed[c] == q);
                }
            }
        } else {
            let x = k - st.owners.len();
            assert(st2.owners[k] == (qs[x], id));
            if !barrier {
                if bump {
                    assert(st2.claimed[x] == qs[x]);
                } else {
                    assert(st2.claimed[st.claimed.len() + x] == qs[x]);
                }
            }
        }
    }
}

/// Reading goes on well over a noise annotation.
pub proof fn lemma_noise_keeps(d: DagView, st: ScanView, g: Seq<Option<Seq<char>>>)
    requires
        reading(d, st),
    ensures
        reading(noise_placed(d, st, g).0, noise_placed(d, st, g).1),
{
    let e = noise_placed(d, st, g).0;
    let st2 = noise_placed(d, st, g).1;
    let m = e.nodes[e.nodes.len() - 1];
    let target = m.target->0;
    let step = m.step;
    assert(e == d.add_node(m));
    lemma_last_owner(st.owners, target);
    assert forall|k: int| 0 <= k < m.dependencies.len() implies is_earlier(
        d,
        m,
        #[trigger] m.dependencies[k],
    ) by {
        let dep = m.dependencies[k];
        let o = choose|o: int| 0 <= o < st.owners.len() && st.owners[o] == (target, dep);
        assert(owner_ok(d, st, o));
        let j = choose|j: int|
            0 <= j < d.nodes.len() && d.nodes[j].id == st.owners[o].1 && (d.nodes[j].step
                < st.step || (d.nodes[j].step == st.step && st.claimed.contains(st.owners[o].0)));
        assert(comes_before(d.nodes[j], m));
    }
    lemma_insert_keeps_built(d, m);
    assert forall|k: int| 0 <= k < st2.owners.len() implies #[trigger] owner_ok(e, st2, k) by {
        let last = e.nodes.len() - 1;
        if k < st.owners.len() {
            assert(st2.owners[k] == st.owners[k]);
            assert(owner_ok(d, st, k));
            let j = choose|j: int|
                0 <= j < d.nodes.len() && d.nodes[j].id == st.owners[k].1 && (d.nodes[j].step
                    < st.step || (d.nodes[j].step == st.step && st.claimed.contains(
                    st.owners[k].0,
                )));
            if d.nodes[j].id == m.id {
                assert(e.nodes[last].id == st2.owners[k].1);
            } else {
                d.nodes.lemma_filter_contains(other_id(m.id), j);
                let old = d.nodes.filter(other_id(m.id));
                let b = choose|b: int| 0 <= b < old.len() && old[b] == d.nodes[j];
                assert(e.nodes[b] == d.nodes[j]);
            }
        } else {
            assert(st2.owners[k] == (target, m.id));
            assert(e.nodes[last].id == st2.owners[k].1);
        }
    }
}

/// Reading goes on well over any line.
pub proof fn lemma_line_keeps(d: DagView, st: ScanView, line: Seq<char>, next: Option<Seq<char>>)
    requires
        reading(d, st),
    ensures
        reading(line_effect(d, st, line, next).0, line_effect(d, st, line, next).1),
{
    let e = line_effect(d, st, line, next);
    if line.len() == 0 {
    } else if "//"@.is_prefix_of(line) {
        match crate::pattern::captures_in(crate::lines::NOISE_PATTERN@, line) {
            Some(g) => {
                lemma_noise_keeps(d, st, g);
            },
            None => {},
        }
    } else if "OPENQASM"@.is_prefix_of(line) || "include"@.is_prefix_of(line) {
    } else if "qreg"@.is_prefix_of(line) {
        assert(e.0.nodes == d.nodes);
        assert(e.1 == st);
        assert forall|k: int| 0 <= k < st.owners.len() implies #[trigger] owner_ok(e.0, e.1, k) by {
            assert(owner_ok(d, st, k));
        }
    } else if "creg"@.is_prefix_of(line) {
        assert(e.0 == d);
        assert forall|k: int| 0 <= k < e.1.owners.len() implies #[trigger] owner_ok(e.0, e.1, k) by {
            assert(owner_ok(d, st, k));
        }
    } else {
        match gate_of_line(line, next, st.cregs) {
            Some(x) => {
                assert(x.0.dependencies.len() == 0);
                lemma_placed_keeps(d, st, x.0);
            },
            None => {},
        }
    }
}

/// A circuit that is read from lines, from a state in which reading goes
/// well, is one that was built by adding and removing gates.
pub proof fn lemma_parse_lines_built(d: DagView, st: ScanView, lines: Seq<Seq<char>>, i: int)
    requires
        reading(d, st),
    ensures
        parse_lines(d, st, lines, i).built(),
    decreases lines.len() - i,
{
    if 0 <= i < lines.len() {
        let next = if i + 1 < lines.len() {
            Some(lines[i + 1])
        } else {
            None
        };
        let e = line_effect(d, st, lines[i], next);
        lemma_line_keeps(d, st, lines[i], next);
        lemma_parse_lines_built(
            e.0,
            e.1,
            lines,
            if e.2 {
                i + 2
            } else {
                i + 1
            },
        );
    }
}

/// A circuit that is read from text is one that was built by adding and
/// removing gates: every node depends only on nodes of earlier steps, and
/// the dependencies form no cycle.
pub proof fn lemma_parsed_built(text: Seq<char>)
    ensures
        DagView::parsed(text).built(),
        DagView::parsed(text).acyclic(),
{
    let start = DagView { nodes: Seq::empty(), num_qubits: 0, num_cbits: 0 };
    assert(reading(start, ScanView::start()));
    lemma_parse_lines_built(start, ScanView::start(), trimmed_lines(text), 0);
    lemma_step_ordered_acyclic(DagView::parsed(text));
}

} // verus!
