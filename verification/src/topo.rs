//! The order of the nodes in which every node comes after what it depends on.

use vstd::prelude::*;
use crate::dag::{roots_of, same_string, CircuitDAG, DagView};
use crate::node::{nodes_of, DAGNode, NodeView};
use crate::text::texts_of;

verus! {

/// Whether position `p` of `order` holds `j`.
pub open spec fn holds_at(order: Seq<usize>, p: int, j: int) -> bool {
    0 <= p < order.len() && order[p] == j
}

impl DagView {
    /// Whether `rank` grows along every dependency edge between nodes of the
    /// circuit: a node ranks above each node that it depends on.
    pub open spec fn ranked_by(self, rank: spec_fn(Seq<char>) -> int) -> bool {
        forall|i: int, k: int, j: int|
            0 <= i < self.nodes.len() && 0 <= k < self.nodes[i].dependencies.len() && 0 <= j
                < self.nodes.len() && #[trigger] self.nodes[i].dependencies[k]
                == #[trigger] self.nodes[j].id ==> rank(self.nodes[j].id) < rank(self.nodes[i].id)
    }

    /// Whether the dependencies among the nodes of the circuit form no
    /// cycle: some ranking grows along every edge.
    pub open spec fn acyclic(self) -> bool {
        exists|rank: spec_fn(Seq<char>) -> int| self.ranked_by(rank)
    }

    /// Whether `order` names every node exactly once.
    pub open spec fn is_ordering(self, order: Seq<usize>) -> bool {
        &&& order.len() == self.nodes.len()
        &&& order.no_duplicates()
        &&& forall|p: int| 0 <= p < order.len() ==> #[trigger] order[p] < self.nodes.len()
        &&& forall|j: usize| j < self.nodes.len() ==> #[trigger] order.contains(j)
    }

    /// Whether in the first `len` places of `order` every node stands after
    /// the nodes of the circuit that it depends on.
    pub open spec fn deps_first(self, order: Seq<usize>, len: int) -> bool {
        forall|p: int, k: int, j: int|
            0 <= p < len && 0 <= k < self.nodes[order[p] as int].dependencies.len() && 0 <= j
                < self.nodes.len() && #[trigger] self.nodes[order[p] as int].dependencies[k]
                == #[trigger] self.nodes[j].id ==> exists|q: int| q < p && holds_at(order, q, j)
    }

    /// Whether `order` is a topological order of the circuit: it names every
    /// node exactly once and, where the dependencies form no cycle, every
    /// node after the nodes that it depends on.
    pub open spec fn is_topological(self, order: Seq<usize>) -> bool {
        self.is_ordering(order) && (self.acyclic() ==> self.deps_first(order, order.len() as int))
    }
}

/// The place of the first node with the given id.
pub open spec fn place_of(nodes: Seq<NodeView>, id: Seq<char>) -> Option<int>
    decreases nodes.len(),
{
    if nodes.len() == 0 {
        None
    } else if nodes[0].id == id {
        Some(0)
    } else {
        match place_of(nodes.drop_first(), id) {
            Some(i) => Some(i + 1),
            None => None,
        }
    }
}

/// The marks and the order after a visit of node `i`: where `i` is not
/// marked yet, it is marked, the nodes that it depends on are visited in
/// the order of its dependencies, and `i` is appended to the order. The
/// visits below one another are at most `fuel` deep; as many as there are
/// nodes without a mark suffice.
pub open spec fn visit_node(
    nodes: Seq<NodeView>,
    i: int,
    visited: Seq<bool>,
    out: Seq<usize>,
    fuel: nat,
) -> (Seq<bool>, Seq<usize>)
    decreases fuel, 0int, 0int,
{
    if fuel == 0 || i < 0 || i >= visited.len() || visited[i] {
        (visited, out)
    } else {
        let r = visit_deps(nodes, i, 0, visited.update(i, true), out, (fuel - 1) as nat);
        (r.0, r.1.push(i as usize))
    }
}

/// The marks and the order after the visits of the nodes that node `i`
/// depends on, from its dependency `k` on. A dependency that is no node of
/// the circuit is passed over.
pub open spec fn visit_deps(
    nodes: Seq<NodeView>,
    i: int,
    k: int,
    visited: Seq<bool>,
    out: Seq<usize>,
    fuel: nat,
) -> (Seq<bool>, Seq<usize>)
    decreases fuel, 1int, nodes[i].dependencies.len() - k,
{
    if k < 0 || k >= nodes[i].dependencies.len() {
        (visited, out)
    } else {
        let r = match place_of(nodes, nodes[i].dependencies[k]) {
            Some(j) => visit_node(nodes, j, visited, out, fuel),
            None => (visited, out),
        };
        visit_deps(nodes, i, k + 1, r.0, r.1, fuel)
    }
}

/// The marks and the order after the visits of the nodes with the ids
/// `roots`, from root `k` on.
pub open spec fn visit_roots(
    nodes: Seq<NodeView>,
    roots: Seq<Seq<char>>,
    k: int,
    visited: Seq<bool>,
    out: Seq<usize>,
) -> (Seq<bool>, Seq<usize>)
    decreases roots.len() - k,
{
    if k < 0 || k >= roots.len() {
        (visited, out)
    } else {
        let r = match place_of(nodes, roots[k]) {
            Some(j) => visit_node(nodes, j, visited, out, nodes.len()),
            None => (visited, out),
        };
        visit_roots(nodes, roots, k + 1, r.0, r.1)
    }
}

/// The marks and the order after the visits of all nodes from node `i` on.
pub open spec fn visit_rest(nodes: Seq<NodeView>, i: int, visited: Seq<bool>, out: Seq<usize>)
    -> (Seq<bool>, Seq<usize>)
    decreases nodes.len() - i,
{
    if i < 0 || i >= nodes.len() {
        (visited, out)
    } else {
        let r = visit_node(nodes, i, visited, out, nodes.len());
        visit_rest(nodes, i + 1, r.0, r.1)
    }
}

/// The order in which a depth-first walk leaves the nodes: first from the
/// nodes without dependencies, in their order, then from every node that was
/// not reached, in the order of the nodes.
pub open spec fn topo_order(nodes: Seq<NodeView>) -> Seq<usize> {
    let a = visit_roots(
        nodes,
        roots_of(nodes),
        0,
        Seq::new(nodes.len(), |i: int| false),
        Seq::empty(),
    );
    visit_rest(nodes, 0, a.0, a.1).1
}

proof fn lemma_unset_bound(v: Seq<bool>)
    ensures
        unset(v) <= v.len(),
    decreases v.len(),
{
    if v.len() > 0 {
        lemma_unset_bound(v.drop_last());
    }
}

/// The number of entries of `v` that are not set.
pub open spec fn unset(v: Seq<bool>) -> nat
    decreases v.len(),
{
    if v.len() == 0 {
        0
    } else {
        unset(v.drop_last()) + if v.last() {
            0nat
        } else {
            1nat
        }
    }
}

proof fn lemma_unset_set(v: Seq<bool>, i: int)
    requires
        0 <= i < v.len(),
        !v[i],
    ensures
        unset(v.update(i, true)) + 1 == unset(v),
    decreases v.len(),
{
    if i == v.len() - 1 {
        assert(v.update(i, true).drop_last() =~= v.drop_last());
    } else {
        assert(v.update(i, true).drop_last() =~= v.drop_last().update(i, true));
        lemma_unset_set(v.drop_last(), i);
    }
}

proof fn lemma_unset_all(v: Seq<bool>)
    requires
        forall|i: int| 0 <= i < v.len() ==> v[i],
    ensures
        unset(v) == 0,
    decreases v.len(),
{
    if v.len() > 0 {
        assert forall|i: int| 0 <= i < v.drop_last().len() implies v.drop_last()[i] by {
            assert(v.drop_last()[i] == v[i]);
        }
        lemma_unset_all(v.drop_last());
    }
}

/// The place of the node with the given id.
fn find_index(nodes: &Vec<DAGNode>, id: &String) -> (r: Option<usize>)
    ensures
        match r {
            Some(j) => j < nodes.len() && nodes_of(nodes@)[j as int].id == id@,
            None => forall|j: int| 0 <= j < nodes.len() ==> nodes_of(nodes@)[j].id != id@,
        },
        place_of(nodes_of(nodes@), id@) == match r {
            Some(j) => Some(j as int),
            None => None,
        },
{
    let mut i: usize = 0;
    let ghost all = nodes_of(nodes@);
    assert(all.skip(0) =~= all);
    while i < nodes.len()
        invariant
            i <= nodes.len(),
            all == nodes_of(nodes@),
            forall|j: int| 0 <= j < i ==> all[j].id != id@,
            place_of(all, id@) == match place_of(all.skip(i as int), id@) {
                Some(k) => Some(k + i),
                None => None,
            },
        decreases nodes.len() - i,
    {
        assert(all.skip(i as int)[0] == all[i as int]);
        if same_string(&nodes[i].id, id) {
            return Some(i);
        }
        assert(all.skip(i as int).drop_first() =~= all.skip(i + 1));
        i += 1;
    }
    None
}

/// What holds of the marks and the order: `out` names nodes that are
/// marked, each once, and, where `ranked` holds, each behind the nodes that
/// it depends on.
spec fn visit_inv(d: DagView, visited: Seq<bool>, out: Seq<usize>, ranked: bool) -> bool {
    &&& visited.len() == d.nodes.len()
    &&& d.nodes.len() <= usize::MAX
    &&& out.no_duplicates()
    &&& forall|p: int|
        0 <= p < out.len() ==> #[trigger] out[p] < d.nodes.len() && visited[out[p] as int]
    &&& ranked ==> d.deps_first(out, out.len() as int)
}

/// The marks and the order after the walk has finished the nodes on the
/// stack, the top first: each goes on with its dependencies from where it
/// stands, and is appended to the order when they are done.
spec fn finish(
    nodes: Seq<NodeView>,
    stack: Seq<usize>,
    progress: Seq<usize>,
    fuels: Seq<nat>,
    visited: Seq<bool>,
    out: Seq<usize>,
) -> (Seq<bool>, Seq<usize>)
    decreases stack.len(),
{
    if stack.len() == 0 {
        (visited, out)
    } else {
        let r = visit_deps(
            nodes,
            stack.last() as int,
            progress.last() as int,
            visited,
            out,
            fuels.last(),
        );
        finish(
            nodes,
            stack.drop_last(),
            progress.drop_last(),
            fuels.drop_last(),
            r.0,
            r.1.push(stack.last()),
        )
    }
}

/// What holds of the stack of a walk: its nodes are marked, distinct and
/// not yet in the order; each but the last stands behind the dependency
/// that led to the node above it; and there is fuel for every node without
/// a mark.
spec fn frames_ok(
    d: DagView,
    stack: Seq<usize>,
    progress: Seq<usize>,
    fuels: Seq<nat>,
    visited: Seq<bool>,
    out: Seq<usize>,
) -> bool {
    &&& stack.len() == progress.len()
    &&& stack.len() == fuels.len()
    &&& stack.no_duplicates()
    &&& forall|f: int|
        0 <= f < stack.len() ==> (#[trigger] stack[f]) < d.nodes.len() && visited[stack[f] as int]
            && !out.contains(stack[f]) && progress[f] <= d.nodes[stack[f] as int].dependencies.len()
            && fuels[f] >= unset(visited)
    &&& forall|f: int|
        0 <= f < stack.len() - 1 ==> (#[trigger] progress[f]) >= 1
            && d.nodes[stack[f] as int].dependencies[progress[f] - 1] == d.nodes[stack[f
            + 1] as int].id && fuels[f + 1] + 1 == fuels[f]
}

/// Whether every node with a mark is in the order or on the stack.
spec fn all_found(visited: Seq<bool>, out: Seq<usize>, stack: Seq<usize>) -> bool {
    forall|u: int|
        0 <= u < visited.len() && #[trigger] visited[u] ==> out.contains(u as usize)
            || stack.contains(u as usize)
}

/// Whether the ranks fall strictly up the stack.
spec fn chain_ranked(d: DagView, stack: Seq<usize>, rank: spec_fn(Seq<char>) -> int) -> bool {
    forall|f: int, g: int|
        0 <= f < g < stack.len() ==> rank(d.nodes[#[trigger] stack[g] as int].id) < rank(
            d.nodes[#[trigger] stack[f] as int].id,
        )
}

/// Whether, of every node on the stack, the dependencies that the walk has
/// passed are in the order, but for the one that led to the node above.
spec fn passed_done(d: DagView, stack: Seq<usize>, progress: Seq<usize>, out: Seq<usize>) -> bool {
    forall|f: int, k: int, j: int|
        0 <= f < stack.len() && 0 <= k < progress[f] && 0 <= j < d.nodes.len()
            && #[trigger] d.nodes[stack[f] as int].dependencies[k] == #[trigger] d.nodes[j].id
            ==> out.contains(j as usize) || (f + 1 < stack.len() && k == progress[f] - 1 && j
            == stack[f + 1])
}

/// Walks from node `start` through all that it depends on and that has no
/// mark yet, and appends every node that it leaves to `out`: `start` last.
/// The nodes that are entered and not yet left wait on a stack.
fn walk(
    nodes: &Vec<DAGNode>,
    start: usize,
    visited: &mut Vec<bool>,
    out: &mut Vec<usize>,
    Ghost(rank): Ghost<spec_fn(Seq<char>) -> int>,
    Ghost(ranked): Ghost<bool>,
    Ghost(fuel): Ghost<nat>,
)
    requires
        start < nodes.len(),
        fuel >= unset(old(visited)@),
        nodes_view(nodes).unique_ids(),
        !old(visited)@[start as int],
        visit_inv(nodes_view(nodes), old(visited)@, old(out)@, ranked),
        ranked ==> nodes_view(nodes).ranked_by(rank),
        forall|u: int|
            0 <= u < nodes.len() && #[trigger] old(visited)@[u] ==> old(out)@.contains(u as usize),
    ensures
        (final(visited)@, final(out)@) == visit_node(
            nodes_of(nodes@),
            start as int,
            old(visited)@,
            old(out)@,
            fuel,
        ),
        visit_inv(nodes_view(nodes), final(visited)@, final(out)@, ranked),
        final(out)@.len() + unset(final(visited)@) == old(out)@.len() + unset(old(visited)@),
        final(visited)@[start as int],
        forall|u: int| 0 <= u < nodes.len() && old(visited)@[u] ==> final(visited)@[u],
        forall|u: int|
            0 <= u < nodes.len() && #[trigger] final(visited)@[u] ==> final(out)@.contains(
                u as usize,
            ),
{
    let ghost d = nodes_view(nodes);
    let ghost v0 = visited@;
    let ghost o0 = out@;
    let n = nodes.len();
    proof {
        lemma_unset_set(v0, start as int);
    }
    visited.set(start, true);
    let mut stack: Vec<usize> = Vec::new();
    let mut progress: Vec<usize> = Vec::new();
    stack.push(start);
    progress.push(0);
    let ghost mut fuels: Seq<nat> = seq![(fuel - 1) as nat];
    proof {
        assert(stack@ =~= seq![start]);
        assert(progress@ =~= seq![0usize]);
        assert(stack@.drop_last() =~= Seq::<usize>::empty());
        assert(!o0.contains(start)) by {
            if o0.contains(start) {
                let p = choose|p: int| 0 <= p < o0.len() && o0[p] == start;
                assert(v0[o0[p] as int]);
            }
        }
        let inner = visit_deps(d.nodes, start as int, 0, visited@, out@, (fuel - 1) as nat);
        assert(stack@.last() == start && progress@.last() == 0 && fuels.last() == fuel - 1);
        assert(progress@.drop_last() =~= Seq::<usize>::empty());
        assert(fuels.drop_last() =~= Seq::<nat>::empty());
        assert(finish(
            d.nodes,
            Seq::<usize>::empty(),
            Seq::<usize>::empty(),
            Seq::<nat>::empty(),
            inner.0,
            inner.1.push(start),
        ) == (inner.0, inner.1.push(start)));
        assert(finish(d.nodes, stack@, progress@, fuels, visited@, out@) == (
            inner.0,
            inner.1.push(start),
        ));
        assert(visit_node(d.nodes, start as int, v0, o0, fuel) == (inner.0, inner.1.push(start)));
        assert(all_found(visited@, out@, stack@)) by {
            assert forall|u: int| 0 <= u < visited@.len() && #[trigger] visited@[u] implies out@.contains(
                u as usize,
            ) || stack@.contains(u as usize) by {
                if u == start {
                    assert(stack@[0] == start);
                } else {
                    assert(v0[u]);
                }
            }
        }
    }
    while stack.len() > 0
        invariant
            n == nodes.len(),
            d == nodes_view(nodes),
            d.nodes == nodes_of(nodes@),
            d.unique_ids(),
            start < n,
            visited@[start as int],
            ranked ==> d.ranked_by(rank),
            visit_inv(d, visited@, out@, ranked),
            frames_ok(d, stack@, progress@, fuels, visited@, out@),
            ranked ==> chain_ranked(d, stack@, rank),
            ranked ==> passed_done(d, stack@, progress@, out@),
            visit_node(d.nodes, start as int, v0, o0, fuel) == finish(
                d.nodes,
                stack@,
                progress@,
                fuels,
                visited@,
                out@,
            ),
            out@.len() + stack@.len() + unset(visited@) == o0.len() + unset(v0),
            forall|u: int| 0 <= u < n && v0[u] ==> visited@[u],
            all_found(visited@, out@, stack@),
        decreases unset(visited@), stack@.len(), nodes_of(nodes@)[stack@.last() as int].dependencies.len()
                - progress@.last(),
    {
        let t = stack.len() - 1;
        let i = stack[t];
        let k = progress[t];
        let ghost sk = stack@;
        let ghost pk = progress@;
        let ghost fk = fuels;
        let ghost vk = visited@;
        let ghost ok = out@;
        assert(d.nodes[i as int] == nodes@[i as int]@);
        assert(sk.last() == i && pk.last() == k);
        if k < nodes[i].dependencies.len() {
            let ghost dep = d.nodes[i as int].dependencies[k as int];
            assert(dep == nodes@[i as int].dependencies@[k as int]@);
            progress.set(t, k + 1);
            let found = find_index(nodes, &nodes[i].dependencies[k]);
            let enter = match found {
                Some(j) => !visited[j],
                None => false,
            };
            if enter {
                let j = found.unwrap();
                proof {
                    lemma_unset_set(vk, j as int);
                    assert(!sk.contains(j));
                }
                visited.set(j, true);
                stack.push(j);
                progress.push(0);
                proof {
                    fuels = fk.push((fk[t as int] - 1) as nat);
                    lemma_enter(d, sk, pk, fk, vk, ok, rank, ranked, j);
                }
            } else {
                proof {
                    lemma_pass(d, sk, pk, fk, vk, ok, rank, ranked);
                }
            }
        } else {
            stack.pop();
            progress.pop();
            out.push(i);
            proof {
                fuels = fk.drop_last();
                lemma_leave(d, sk, pk, fk, vk, ok, rank, ranked);
            }
        }
    }
    proof {
        assert forall|u: int| 0 <= u < n && #[trigger] visited@[u] implies out@.contains(
            u as usize,
        ) by {
            assert(!stack@.contains(u as usize));
        }
        assert(finish(d.nodes, stack@, progress@, fuels, visited@, out@) == (visited@, out@));
    }
}

/// The walk goes on with the next dependency of the top of the stack
/// without entering a node: the dependency is no node, or has a mark.
proof fn lemma_pass(
    d: DagView,
    stack: Seq<usize>,
    progress: Seq<usize>,
    fuels: Seq<nat>,
    visited: Seq<bool>,
    out: Seq<usize>,
    rank: spec_fn(Seq<char>) -> int,
    ranked: bool,
)
    requires
        stack.len() > 0,
        d.unique_ids(),
        ranked ==> d.ranked_by(rank),
        visit_inv(d, visited, out, ranked),
        frames_ok(d, stack, progress, fuels, visited, out),
        ranked ==> chain_ranked(d, stack, rank),
        ranked ==> passed_done(d, stack, progress, out),
        progress.last() < d.nodes[stack.last() as int].dependencies.len(),
        progress.last() < usize::MAX,
        all_found(visited, out, stack),
        match place_of(d.nodes, d.nodes[stack.last() as int].dependencies[progress.last() as int]) {
            Some(j) => 0 <= j < visited.len() && visited[j],
            None => true,
        },
    ensures
        ({
            let stepped = progress.update(progress.len() - 1, (progress.last() + 1) as usize);
            &&& frames_ok(d, stack, stepped, fuels, visited, out)
            &&& ranked ==> passed_done(d, stack, stepped, out)
            &&& finish(d.nodes, stack, progress, fuels, visited, out) == finish(
                d.nodes,
                stack,
                stepped,
                fuels,
                visited,
                out,
            )
        }),
{
    let t = stack.len() - 1;
    let i = stack[t] as int;
    let k = progress[t] as int;
    let stepped = progress.update(t, (k + 1) as usize);
    let dep = d.nodes[i].dependencies[k];
    assert(stepped.drop_last() =~= progress.drop_last());
    assert(stepped.last() == k + 1);
    lemma_place_of(d.nodes, dep);
    let same = match place_of(d.nodes, dep) {
        Some(j) => visit_node(d.nodes, j, visited, out, fuels.last()),
        None => (visited, out),
    };
    assert(same == (visited, out));
    assert(visit_deps(d.nodes, i, k, visited, out, fuels.last()) == visit_deps(
        d.nodes,
        i,
        k + 1,
        visited,
        out,
        fuels.last(),
    ));
    assert(finish(d.nodes, stack, progress, fuels, visited, out) == finish(
        d.nodes,
        stack,
        stepped,
        fuels,
        visited,
        out,
    ));
    assert(frames_ok(d, stack, stepped, fuels, visited, out)) by {
        assert forall|f: int| 0 <= f < stack.len() - 1 implies (#[trigger] stepped[f]) >= 1
            && d.nodes[stack[f] as int].dependencies[stepped[f] - 1] == d.nodes[stack[f + 1] as int].id
            && fuels[f + 1] + 1 == fuels[f] by {
            assert(stepped[f] == progress[f]);
        }
    }
    if ranked {
        assert forall|f: int, k2: int, j: int|
            0 <= f < stack.len() && 0 <= k2 < stepped[f] && 0 <= j < d.nodes.len()
                && #[trigger] d.nodes[stack[f] as int].dependencies[k2]
                == #[trigger] d.nodes[j].id implies out.contains(j as usize) || (f + 1
            < stack.len() && k2 == stepped[f] - 1 && j == stack[f + 1]) by {
            if f == t && k2 == k {
                assert(place_of(d.nodes, dep) == Some(j));
                assert(visited[j]);
                assert(d.nodes[i].dependencies[k] == d.nodes[j].id);
                assert(rank(d.nodes[j].id) < rank(d.nodes[i].id));
                if stack.contains(j as usize) {
                    let g = choose|g: int| 0 <= g < stack.len() && stack[g] == j as usize;
                    if g < t {
                        assert(rank(d.nodes[stack[t] as int].id) < rank(d.nodes[stack[g] as int].id));
                    }
                    assert(false);
                }
            } else if f == t {
                assert(k2 < progress[f]);
                assert(d.nodes[stack[f] as int].dependencies[k2] == d.nodes[j].id);
            } else {
                assert(stepped[f] == progress[f]);
                assert(d.nodes[stack[f] as int].dependencies[k2] == d.nodes[j].id);
            }
        }
    }
}

/// The place of an id is that of the node with the id, where ids are
/// unique.
proof fn lemma_place_of(nodes: Seq<NodeView>, id: Seq<char>)
    ensures
        match place_of(nodes, id) {
            Some(j) => 0 <= j < nodes.len() && nodes[j].id == id,
            None => forall|j: int| 0 <= j < nodes.len() ==> nodes[j].id != id,
        },
    decreases nodes.len(),
{
    if nodes.len() > 0 && nodes[0].id != id {
        lemma_place_of(nodes.drop_first(), id);
        match place_of(nodes.drop_first(), id) {
            Some(j) => {
                assert(nodes.drop_first()[j] == nodes[j + 1]);
            },
            None => {
                assert forall|j: int| 0 <= j < nodes.len() implies nodes[j].id != id by {
                    if j > 0 {
                        assert(nodes.drop_first()[j - 1] == nodes[j]);
                    }
                }
            },
        }
    }
}

/// The walk enters node `j`, to which the next dependency of the top of
/// the stack leads and which has no mark.
proof fn lemma_enter(
    d: DagView,
    stack: Seq<usize>,
    progress: Seq<usize>,
    fuels: Seq<nat>,
    visited: Seq<bool>,
    out: Seq<usize>,
    rank: spec_fn(Seq<char>) -> int,
    ranked: bool,
    j: usize,
)
    requires
        stack.len() > 0,
        d.unique_ids(),
        ranked ==> d.ranked_by(rank),
        visit_inv(d, visited, out, ranked),
        frames_ok(d, stack, progress, fuels, visited, out),
        ranked ==> chain_ranked(d, stack, rank),
        ranked ==> passed_done(d, stack, progress, out),
        progress.last() < d.nodes[stack.last() as int].dependencies.len(),
        progress.last() < usize::MAX,
        j < d.nodes.len(),
        !visited[j as int],
        d.nodes[stack.last() as int].dependencies[progress.last() as int] == d.nodes[j as int].id,
        all_found(visited, out, stack),
    ensures
        all_found(visited.update(j as int, true), out, stack.push(j)),
        ({
            let stepped = progress.update(progress.len() - 1, (progress.last() + 1) as usize).push(0);
            let s2 = stack.push(j);
            let f2 = fuels.push((fuels.last() - 1) as nat);
            let v2 = visited.update(j as int, true);
            &&& visit_inv(d, v2, out, ranked)
            &&& frames_ok(d, s2, stepped, f2, v2, out)
            &&& ranked ==> chain_ranked(d, s2, rank)
            &&& ranked ==> passed_done(d, s2, stepped, out)
            &&& finish(d.nodes, stack, progress, fuels, visited, out) == finish(
                d.nodes,
                s2,
                stepped,
                f2,
                v2,
                out,
            )
        }),
{
    let t = stack.len() - 1;
    let i = stack[t] as int;
    let k = progress[t] as int;
    let moved = progress.update(t, (k + 1) as usize);
    let stepped = moved.push(0);
    let s2 = stack.push(j);
    let f2 = fuels.push((fuels.last() - 1) as nat);
    let v2 = visited.update(j as int, true);
    let dep = d.nodes[i].dependencies[k];
    lemma_unset_set(visited, j as int);
    lemma_place_of(d.nodes, dep);
    assert(place_of(d.nodes, dep) == Some(j as int));
    assert(!stack.contains(j));
    assert(!out.contains(j)) by {
        if out.contains(j) {
            let p = choose|p: int| 0 <= p < out.len() && out[p] == j;
            assert(visited[out[p] as int]);
        }
    }
    assert(s2.drop_last() =~= stack);
    assert(stepped.drop_last() =~= moved);
    assert(f2.drop_last() =~= fuels);
    assert(moved.drop_last() =~= progress.drop_last());
    assert(fuels.last() >= 1);
    // the walk as a whole comes to the same
    let inner = visit_deps(d.nodes, j as int, 0, v2, out, f2.last());
    assert(visit_node(d.nodes, j as int, visited, out, fuels.last()) == (inner.0, inner.1.push(j)));
    assert(finish(d.nodes, s2, stepped, f2, v2, out) == finish(
        d.nodes,
        stack,
        moved,
        fuels,
        inner.0,
        inner.1.push(j),
    ));
    assert(visit_deps(d.nodes, i, k, visited, out, fuels.last()) == visit_deps(
        d.nodes,
        i,
        k + 1,
        inner.0,
        inner.1.push(j),
        fuels.last(),
    ));
    assert(visit_inv(d, v2, out, ranked));
    assert(all_found(v2, out, s2)) by {
        assert forall|u: int| 0 <= u < v2.len() && #[trigger] v2[u] implies out.contains(u as usize)
            || s2.contains(u as usize) by {
            if u == j {
                assert(s2[stack.len() as int] == j);
            } else {
                assert(visited[u]);
                if stack.contains(u as usize) {
                    let g = choose|g: int| 0 <= g < stack.len() && stack[g] == u as usize;
                    assert(s2[g] == u as usize);
                }
            }
        }
    }
    assert(frames_ok(d, s2, stepped, f2, v2, out)) by {
        assert forall|f: int| 0 <= f < s2.len() implies (#[trigger] s2[f]) < d.nodes.len()
            && v2[s2[f] as int] && !out.contains(s2[f]) && stepped[f] <= d.nodes[s2[f] as int].dependencies.len()
            && f2[f] >= unset(v2) by {
            if f < stack.len() {
                assert(s2[f] == stack[f]);
                assert(f2[f] == fuels[f]);
                assert(stepped[f] == progress[f] || f == t);
            }
        }
        assert forall|f: int| 0 <= f < s2.len() - 1 implies (#[trigger] stepped[f]) >= 1
            && d.nodes[s2[f] as int].dependencies[stepped[f] - 1] == d.nodes[s2[f + 1] as int].id && f2[f
            + 1] + 1 == f2[f] by {
            if f < t {
                assert(stepped[f] == progress[f]);
                assert(s2[f] == stack[f] && s2[f + 1] == stack[f + 1]);
                assert(f2[f] == fuels[f] && f2[f + 1] == fuels[f + 1]);
            }
        }
    }
    if ranked {
        assert(rank(d.nodes[j as int].id) < rank(d.nodes[i].id));
        assert forall|f: int, g: int| 0 <= f < g < s2.len() implies rank(
            d.nodes[#[trigger] s2[g] as int].id,
        ) < rank(d.nodes[#[trigger] s2[f] as int].id) by {
            if g < stack.len() {
                assert(s2[f] == stack[f] && s2[g] == stack[g]);
            } else {
                assert(s2[f] == stack[f]);
                if f < t {
                    assert(rank(d.nodes[stack[t] as int].id) < rank(d.nodes[stack[f] as int].id));
                }
            }
        }
        assert forall|f: int, k2: int, x: int|
            0 <= f < s2.len() && 0 <= k2 < stepped[f] && 0 <= x < d.nodes.len()
                && #[trigger] d.nodes[s2[f] as int].dependencies[k2]
                == #[trigger] d.nodes[x].id implies out.contains(x as usize) || (f + 1 < s2.len()
            && k2 == stepped[f] - 1 && x == s2[f + 1]) by {
            if f < t {
                assert(s2[f] == stack[f] && stepped[f] == progress[f] && s2[f + 1] == stack[f + 1]);
            } else if f == t {
                assert(s2[f] == stack[f]);
                if k2 < k {
                } else {
                    assert(d.nodes[x].id == d.nodes[j as int].id);
                }
            }
        }
    }
}

/// The walk leaves the top of the stack, all of whose dependencies it has
/// passed, and appends it to the order.
proof fn lemma_leave(
    d: DagView,
    stack: Seq<usize>,
    progress: Seq<usize>,
    fuels: Seq<nat>,
    visited: Seq<bool>,
    out: Seq<usize>,
    rank: spec_fn(Seq<char>) -> int,
    ranked: bool,
)
    requires
        stack.len() > 0,
        d.unique_ids(),
        ranked ==> d.ranked_by(rank),
        visit_inv(d, visited, out, ranked),
        frames_ok(d, stack, progress, fuels, visited, out),
        ranked ==> chain_ranked(d, stack, rank),
        ranked ==> passed_done(d, stack, progress, out),
        progress.last() >= d.nodes[stack.last() as int].dependencies.len(),
        all_found(visited, out, stack),
    ensures
        all_found(visited, out.push(stack.last()), stack.drop_last()),
        ({
            let o2 = out.push(stack.last());
            let s2 = stack.drop_last();
            let stepped = progress.drop_last();
            let f2 = fuels.drop_last();
            &&& visit_inv(d, visited, o2, ranked)
            &&& frames_ok(d, s2, stepped, f2, visited, o2)
            &&& ranked ==> chain_ranked(d, s2, rank)
            &&& ranked ==> passed_done(d, s2, stepped, o2)
            &&& finish(d.nodes, stack, progress, fuels, visited, out) == finish(
                d.nodes,
                s2,
                stepped,
                f2,
                visited,
                o2,
            )
        }),
{
    let t = stack.len() - 1;
    let i = stack[t];
    let o2 = out.push(i);
    let s2 = stack.drop_last();
    let stepped = progress.drop_last();
    let f2 = fuels.drop_last();
    assert forall|x: usize| out.contains(x) implies o2.contains(x) by {
        let p = choose|p: int| 0 <= p < out.len() && out[p] == x;
        assert(o2[p] == x);
    }
    assert(o2[out.len() as int] == i);
    assert(all_found(visited, o2, s2)) by {
        assert forall|u: int| 0 <= u < visited.len() && #[trigger] visited[u] implies o2.contains(
            u as usize,
        ) || s2.contains(u as usize) by {
            if !out.contains(u as usize) {
                let g = choose|g: int| 0 <= g < stack.len() && stack[g] == u as usize;
                if g < t {
                    assert(s2[g] == u as usize);
                }
            }
        }
    }
    assert(visit_inv(d, visited, o2, ranked)) by {
        assert(o2.no_duplicates());
        if ranked {
            assert forall|p: int, k2: int, j: int|
                0 <= p < o2.len() && 0 <= k2 < d.nodes[o2[p] as int].dependencies.len() && 0 <= j
                    < d.nodes.len() && #[trigger] d.nodes[o2[p] as int].dependencies[k2]
                    == #[trigger] d.nodes[j].id implies exists|q: int|
                q < p && holds_at(o2, q, j) by {
                if p < out.len() {
                    assert(o2[p] == out[p]);
                    assert(d.nodes[out[p] as int].dependencies[k2] == d.nodes[j].id);
                    let q = choose|q: int| q < p && holds_at(out, q, j);
                    assert(holds_at(o2, q, j));
                } else {
                    assert(d.nodes[stack[t] as int].dependencies[k2] == d.nodes[j].id);
                    assert(out.contains(j as usize));
                    let q = choose|q: int| 0 <= q < out.len() && out[q] == j as usize;
                    assert(holds_at(o2, q, j));
                }
            }
        }
    }
    assert(frames_ok(d, s2, stepped, f2, visited, o2)) by {
        assert forall|f: int| 0 <= f < s2.len() implies (#[trigger] s2[f]) < d.nodes.len()
            && visited[s2[f] as int] && !o2.contains(s2[f]) && stepped[f] <= d.nodes[s2[f] as int].dependencies.len()
            && f2[f] >= unset(visited) by {
            assert(s2[f] == stack[f]);
            assert(stack[f] != stack[t]);
            if o2.contains(s2[f]) {
                let p = choose|p: int| 0 <= p < o2.len() && o2[p] == s2[f];
                if p < out.len() {
                    assert(out[p] == s2[f]);
                }
            }
        }
        assert forall|f: int| 0 <= f < s2.len() - 1 implies (#[trigger] stepped[f]) >= 1
            && d.nodes[s2[f] as int].dependencies[stepped[f] - 1] == d.nodes[s2[f + 1] as int].id && f2[f
            + 1] + 1 == f2[f] by {
            assert(stepped[f] == progress[f]);
            assert(s2[f] == stack[f] && s2[f + 1] == stack[f + 1]);
        }
    }
    if ranked {
        assert forall|f: int, g: int| 0 <= f < g < s2.len() implies rank(
            d.nodes[#[trigger] s2[g] as int].id,
        ) < rank(d.nodes[#[trigger] s2[f] as int].id) by {
            assert(s2[f] == stack[f] && s2[g] == stack[g]);
        }
        assert forall|f: int, k2: int, x: int|
            0 <= f < s2.len() && 0 <= k2 < stepped[f] && 0 <= x < d.nodes.len()
                && #[trigger] d.nodes[s2[f] as int].dependencies[k2]
                == #[trigger] d.nodes[x].id implies o2.contains(x as usize) || (f + 1 < s2.len()
            && k2 == stepped[f] - 1 && x == s2[f + 1]) by {
            assert(s2[f] == stack[f] && stepped[f] == progress[f]);
            assert(d.nodes[stack[f] as int].dependencies[k2] == d.nodes[x].id);
            if f + 1 < s2.len() {
                assert(s2[f + 1] == stack[f + 1]);
            }
        }
    }
}

/// The circuit that a vector of nodes holds, without its counts.
spec fn nodes_view(nodes: &Vec<DAGNode>) -> DagView {
    DagView { nodes: nodes_of(nodes@), num_qubits: 0, num_cbits: 0 }
}

/// The contents of a vector of borrowed nodes.
pub open spec fn listed(v: Seq<&DAGNode>) -> Seq<NodeView> {
    v.map_values(|n: &DAGNode| n@)
}

/// The nodes that `order` names, in its order.
pub open spec fn picked(nodes: Seq<NodeView>, order: Seq<usize>) -> Seq<NodeView> {
    order.map_values(|j: usize| nodes[j as int])
}

impl DagView {
    /// Whether `list` holds every node of the circuit exactly once and,
    /// where the dependencies form no cycle, every node after the nodes
    /// that it depends on.
    pub open spec fn is_sorted_listing(self, list: Seq<NodeView>) -> bool {
        &&& list.len() == self.nodes.len()
        &&& forall|j: int| 0 <= j < self.nodes.len() ==> list.contains(#[trigger] self.nodes[j])
        &&& forall|p: int, q: int| 0 <= p < q < list.len() ==> list[p].id != list[q].id
        &&& self.acyclic() ==> forall|p: int, k: int, q: int|
            0 <= p < list.len() && 0 <= k < list[p].dependencies.len() && 0 <= q < list.len()
                && #[trigger] list[p].dependencies[k] == #[trigger] list[q].id ==> q < p
    }
}

/// The nodes that a topological order names form a sorted listing.
pub proof fn lemma_order_listing(d: DagView, order: Seq<usize>)
    requires
        d.unique_ids(),
        d.is_topological(order),
        d.nodes.len() <= usize::MAX,
    ensures
        d.is_sorted_listing(picked(d.nodes, order)),
{
    let list = picked(d.nodes, order);
    assert forall|j: int| 0 <= j < d.nodes.len() implies list.contains(#[trigger] d.nodes[j]) by {
        assert(order.contains(j as usize));
        let p = choose|p: int| 0 <= p < order.len() && order[p] == j as usize;
        assert(list[p] == d.nodes[j]);
    }
    assert forall|p: int, q: int| 0 <= p < q < list.len() implies list[p].id != list[q].id by {
        assert(order[p] != order[q]);
    }
    if d.acyclic() {
        assert forall|p: int, k: int, q: int|
            0 <= p < list.len() && 0 <= k < list[p].dependencies.len() && 0 <= q < list.len()
                && #[trigger] list[p].dependencies[k] == #[trigger] list[q].id implies q < p by {
            let j = order[q] as int;
            assert(d.nodes[order[p] as int].dependencies[k] == d.nodes[j].id);
            let q2 = choose|q2: int| q2 < p && holds_at(order, q2, j);
            if q2 != q {
                assert(order[q2] != order[q]);
            }
        }
    }
}

impl CircuitDAG {
    /// The places of the nodes in a topological order: the roots are visited
    /// first, then every node that was not reached, each after the nodes
    /// that it depends on.
    pub fn topological_order(&self) -> (r: Vec<usize>)
        requires
            self.wf(),
        ensures
            r@ == topo_order(self@.nodes),
            self@.is_topological(r@),
    {
        let n = self.nodes.len();
        let ghost d = nodes_view(&self.nodes);
        let ghost ranked = self@.acyclic();
        let ghost rank = choose|rank: spec_fn(Seq<char>) -> int| self@.ranked_by(rank);
        assert(ranked ==> d.ranked_by(rank));
        let mut visited: Vec<bool> = Vec::new();
        let mut i: usize = 0;
        while i < n
            invariant
                i <= n,
                visited@.len() == i,
                forall|u: int| 0 <= u < i ==> !visited@[u],
            decreases n - i,
        {
            visited.push(false);
            i += 1;
        }
        let mut out: Vec<usize> = Vec::new();
        let ghost total = unset(visited@);
        let ghost all = self@.nodes;
        let ghost roots = roots_of(all);
        let ghost start = visit_roots(
            all,
            roots,
            0,
            Seq::new(all.len(), |i: int| false),
            Seq::<usize>::empty(),
        );
        assert(visited@ =~= Seq::new(all.len(), |i: int| false));
        assert(out@ =~= Seq::<usize>::empty());
        let mut k: usize = 0;
        while k < self.root_nodes.len()
            invariant
                k <= self.root_nodes.len(),
                n == self.nodes.len(),
                all == self@.nodes,
                all == nodes_of(self.nodes@),
                roots == crate::text::texts_of(self.root_nodes@),
                start == visit_roots(all, roots, k as int, visited@, out@),
                d == nodes_view(&self.nodes),
                d.unique_ids(),
                ranked ==> d.ranked_by(rank),
                visit_inv(d, visited@, out@, ranked),
                out@.len() + unset(visited@) == total,
                forall|u: int| 0 <= u < n && #[trigger] visited@[u] ==> out@.contains(u as usize),
            decreases self.root_nodes.len() - k,
        {
            if let Some(j) = find_index(&self.nodes, &self.root_nodes[k]) {
                if !visited[j] {
                    let ghost ok = out@;
                    let ghost vk = visited@;
                    proof {
                        lemma_unset_bound(visited@);
                    }
                    walk(
                        &self.nodes,
                        j,
                        &mut visited,
                        &mut out,
                        Ghost(rank),
                        Ghost(ranked),
                        Ghost(n as nat),
                    );
                }
            }
            k += 1;
        }
        let mut i: usize = 0;
        while i < n
            invariant
                i <= n,
                n == self.nodes.len(),
                all == self@.nodes,
                all == nodes_of(self.nodes@),
                visit_rest(all, 0, start.0, start.1) == visit_rest(all, i as int, visited@, out@),
                d == nodes_view(&self.nodes),
                d.unique_ids(),
                ranked ==> d.ranked_by(rank),
                visit_inv(d, visited@, out@, ranked),
                out@.len() + unset(visited@) == total,
                forall|u: int| 0 <= u < n && #[trigger] visited@[u] ==> out@.contains(u as usize),
                forall|u: int| 0 <= u < i ==> visited@[u],
            decreases n - i,
        {
            if !visited[i] {
                let ghost ok = out@;
                let ghost vk = visited@;
                proof {
                    lemma_unset_bound(visited@);
                }
                walk(
                    &self.nodes,
                    i,
                    &mut visited,
                    &mut out,
                    Ghost(rank),
                    Ghost(ranked),
                    Ghost(n as nat),
                );
            }
            i += 1;
        }
        proof {
            lemma_unset_all(visited@);
            assert forall|j: usize| j < self@.nodes.len() implies #[trigger] out@.contains(j) by {
                assert(visited@[j as int]);
            }
            lemma_count(n as nat, out@);
            assert(self@.nodes == d.nodes);
            if self@.acyclic() {
                assert(d.deps_first(out@, out@.len() as int));
                assert(self@.deps_first(out@, out@.len() as int));
            }
        }
        out
    }

    /// The nodes in a topological order: every node exactly once and, where
    /// the dependencies form no cycle, after the nodes that it depends on.
    pub fn topological_sort(&self) -> (r: Vec<&DAGNode>)
        requires
            self.wf(),
        ensures
            listed(r@) == picked(self@.nodes, topo_order(self@.nodes)),
            self@.is_sorted_listing(listed(r@)),
    {
        let order = self.topological_order();
        let mut r: Vec<&DAGNode> = Vec::new();
        let mut p: usize = 0;
        while p < order.len()
            invariant
                p <= order.len(),
                self@.is_topological(order@),
                listed(r@) == picked(self@.nodes, order@.take(p as int)),
            decreases order.len() - p,
        {
            let ghost r0 = r@;
            assert(order@[p as int] < self@.nodes.len());
            let n = &self.nodes[order[p]];
            r.push(n);
            assert(listed(r@) =~= listed(r0).push(n@));
            assert(order@.take(p + 1) =~= order@.take(p as int).push(order@[p as int]));
            assert(picked(self@.nodes, order@.take(p + 1)) =~= picked(
                self@.nodes,
                order@.take(p as int),
            ).push(self@.nodes[order@[p as int] as int]));
            p += 1;
        }
        proof {
            assert(order@.take(p as int) =~= order@);
            lemma_order_listing(self@, order@);
        }
        r
    }
}

/// A sequence without duplicates that holds every index below `n`, and only
/// such, has length `n`.
proof fn lemma_count(n: nat, out: Seq<usize>)
    requires
        n <= usize::MAX,
        out.no_duplicates(),
        forall|p: int| 0 <= p < out.len() ==> #[trigger] out[p] < n,
        forall|j: usize| j < n ==> #[trigger] out.contains(j),
    ensures
        out.len() == n,
    decreases n,
{
    if n == 0 {
        if out.len() > 0 {
            assert(out[0] < n);
        }
    } else {
        let last = (n - 1) as usize;
        assert(out.contains(last));
        let p = choose|p: int| 0 <= p < out.len() && out[p] == last;
        let rest = out.remove(p);
        assert forall|q: int| 0 <= q < rest.len() implies #[trigger] rest[q] < n - 1 by {
            if q < p {
                assert(rest[q] == out[q]);
            } else {
                assert(rest[q] == out[q + 1]);
            }
        }
        assert forall|j: usize| j < n - 1 implies #[trigger] rest.contains(j) by {
            assert(out.contains(j));
            let q = choose|q: int| 0 <= q < out.len() && out[q] == j;
            assert(q != p);
            if q < p {
                assert(rest[q] == j);
            } else {
                assert(rest[q - 1] == out[q]);
            }
        }
        assert(rest.no_duplicates());
        lemma_count((n - 1) as nat, rest);
    }
}

} // verus!
