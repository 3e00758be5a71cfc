//! Sorting by step: entries of equal step keep their order.

use vstd::prelude::*;

verus! {

/// The integers that a sequence of machine integers holds.
pub open spec fn ints_of(v: Seq<isize>) -> Seq<int> {
    v.map_values(|x: isize| x as int)
}

/// `sorted` with `x` put behind the last entry whose step is not larger than that of
/// `x`.
pub open spec fn insert_by_step(steps: Seq<int>, sorted: Seq<usize>, x: usize) -> Seq<usize>
    decreases sorted.len(),
{
    if sorted.len() == 0 {
        seq![x]
    } else if steps[sorted.last() as int] <= steps[x as int] {
        sorted.push(x)
    } else {
        insert_by_step(steps, sorted.drop_last(), x).push(sorted.last())
    }
}

/// `order` sorted by the steps of the entries it names; entries of equal step
/// keep their order.
pub open spec fn sorted_by_step(steps: Seq<int>, order: Seq<usize>) -> Seq<usize>
    decreases order.len(),
{
    if order.len() == 0 {
        Seq::empty()
    } else {
        insert_by_step(steps, sorted_by_step(steps, order.drop_last()), order.last())
    }
}

/// Whether the steps of the entries that `order` names never fall.
pub open spec fn steps_rise(steps: Seq<int>, order: Seq<usize>) -> bool {
    forall|i: int, j: int|
        0 <= i <= j < order.len() ==> steps[order[i] as int] <= steps[order[j] as int]
}

proof fn lemma_insert_by_step(steps: Seq<int>, sorted: Seq<usize>, x: usize)
    requires
        steps_rise(steps, sorted),
    ensures
        steps_rise(steps, insert_by_step(steps, sorted, x)),
        insert_by_step(steps, sorted, x).to_multiset() == sorted.to_multiset().insert(x),
        insert_by_step(steps, sorted, x).len() == sorted.len() + 1,
        forall|i: int|
            0 <= i < sorted.len() + 1 ==> (#[trigger] insert_by_step(steps, sorted, x)[i]) == x
                || sorted.contains(insert_by_step(steps, sorted, x)[i]),
    decreases sorted.len(),
{
    broadcast use vstd::seq_lib::group_to_multiset_ensures;

    let r = insert_by_step(steps, sorted, x);
    if sorted.len() == 0 {
        assert(sorted =~= Seq::empty());
        assert(r =~= Seq::<usize>::empty().push(x));
    } else if steps[sorted.last() as int] <= steps[x as int] {
        assert forall|i: int| 0 <= i < sorted.len() + 1 implies (#[trigger] r[i]) == x
            || sorted.contains(r[i]) by {
            if i < sorted.len() {
                assert(sorted[i] == r[i]);
            }
        }
    } else {
        let head = sorted.drop_last();
        assert(steps_rise(steps, head)) by {
            assert forall|i: int, j: int| 0 <= i <= j < head.len() implies steps[head[i] as int]
                <= steps[head[j] as int] by {
                assert(head[i] == sorted[i] && head[j] == sorted[j]);
            }
        }
        lemma_insert_by_step(steps, head, x);
        let mid = insert_by_step(steps, head, x);
        assert(r == mid.push(sorted.last()));
        assert(head.push(sorted.last()) =~= sorted);
        assert(r.to_multiset() =~= sorted.to_multiset().insert(x));
        assert forall|i: int| 0 <= i < sorted.len() + 1 implies (#[trigger] r[i]) == x
            || sorted.contains(r[i]) by {
            if i < mid.len() {
                assert(r[i] == mid[i]);
                if mid[i] != x {
                    assert(head.contains(mid[i]));
                    let k = choose|k: int| 0 <= k < head.len() && head[k] == mid[i];
                    assert(sorted[k] == mid[i]);
                }
            } else {
                assert(sorted[sorted.len() - 1] == r[i]);
            }
        }
        assert forall|i: int, j: int| 0 <= i <= j < r.len() implies steps[r[i] as int]
            <= steps[r[j] as int] by {
            if j < mid.len() {
                assert(r[i] == mid[i] && r[j] == mid[j]);
            } else {
                if i < mid.len() {
                    assert(r[i] == mid[i]);
                    if mid[i] != x {
                        assert(head.contains(mid[i]));
                        let k = choose|k: int| 0 <= k < head.len() && head[k] == mid[i];
                        assert(sorted[k] == mid[i]);
                        assert(steps[sorted[k] as int] <= steps[sorted[sorted.len() - 1] as int]);
                    }
                }
            }
        }
    }
}

/// Sorting by step gives the same entries, each as often as before, in an
/// order in which the steps never fall.
pub proof fn lemma_sorted_by_step(steps: Seq<int>, order: Seq<usize>)
    ensures
        steps_rise(steps, sorted_by_step(steps, order)),
        sorted_by_step(steps, order).to_multiset() == order.to_multiset(),
        sorted_by_step(steps, order).len() == order.len(),
    decreases order.len(),
{
    broadcast use vstd::seq_lib::group_to_multiset_ensures;

    if order.len() == 0 {
        assert(order =~= Seq::empty());
    } else {
        lemma_sorted_by_step(steps, order.drop_last());
        lemma_insert_by_step(steps, sorted_by_step(steps, order.drop_last()), order.last());
        assert(order.drop_last().push(order.last()) =~= order);
    }
}

/// `order` sorted by the steps of the entries it names; entries of equal
/// step keep their order.
pub fn sort_by_step(steps: &Vec<isize>, order: &Vec<usize>) -> (r: Vec<usize>)
    requires
        forall|i: int| 0 <= i < order@.len() ==> #[trigger] order@[i] < steps.len(),
    ensures
        r@ == sorted_by_step(ints_of(steps@), order@),
        forall|i: int| 0 <= i < r@.len() ==> #[trigger] r@[i] < steps.len(),
{
    let mut r: Vec<usize> = Vec::new();
    let mut i: usize = 0;
    let ghost sv = ints_of(steps@);
    while i < order.len()
        invariant
            i <= order.len(),
            sv == ints_of(steps@),
            forall|i: int| 0 <= i < order@.len() ==> #[trigger] order@[i] < steps.len(),
            r@ == sorted_by_step(sv, order@.take(i as int)),
            forall|k: int| 0 <= k < r@.len() ==> #[trigger] r@[k] < steps.len(),
        decreases order.len() - i,
    {
        let x = order[i];
        let step = steps[x];
        assert(order@.take(i + 1).drop_last() =~= order@.take(i as int));
        let ghost before = r@;
        let mut pos: usize = r.len();
        assert(before.take(pos as int) =~= before);
        assert(before.skip(pos as int) =~= Seq::<usize>::empty());
        while pos > 0 && steps[r[pos - 1]] > step
            invariant
                pos <= r.len(),
                r@ == before,
                sv == ints_of(steps@),
                x < steps.len(),
                step == sv[x as int],
                forall|k: int| 0 <= k < r@.len() ==> #[trigger] r@[k] < steps.len(),
                insert_by_step(sv, before, x) == insert_by_step(sv, before.take(pos as int), x)
                    + before.skip(pos as int),
            decreases pos,
        {
            let ghost head = before.take(pos as int);
            assert(head.last() == before[pos - 1]);
            assert(head.drop_last() =~= before.take(pos - 1));
            assert(insert_by_step(sv, before.take(pos - 1), x).push(head.last()) + before.skip(
                pos as int,
            ) =~= insert_by_step(sv, before.take(pos - 1), x) + before.skip(pos - 1));
            pos -= 1;
        }
        proof {
            let head = before.take(pos as int);
            if pos > 0 {
                assert(head.last() == before[pos - 1]);
            }
            assert(insert_by_step(sv, head, x) =~= head.push(x));
            assert(head.push(x) + before.skip(pos as int) =~= before.insert(pos as int, x));
        }
        r.insert(pos, x);
        i += 1;
    }
    assert(order@.take(i as int) =~= order@);
    r
}

} // verus!
