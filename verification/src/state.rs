//! The amplitudes of a register of qubits, and the gates that only move
//! amplitudes from one basis state to another. These are the same for
//! every kind of amplitude.

use vstd::prelude::*;

verus! {

/// Whether bit `q` of the basis state `i` is set.
pub open spec fn has_bit(i: u64, q: u64) -> bool {
    (i >> q) & 1 == 1
}

/// The basis state `i` with bit `q` turned over.
pub open spec fn flip_bit(i: u64, q: u64) -> u64 {
    i ^ (1u64 << q)
}

/// The basis state `i` with bits `a` and `b` exchanged.
pub open spec fn swap_bits(i: u64, a: u64, b: u64) -> u64 {
    if has_bit(i, a) == has_bit(i, b) {
        i
    } else {
        flip_bit(flip_bit(i, a), b)
    }
}

/// The amplitudes after an X on qubit `q`: each basis state has the
/// amplitude that the state with bit `q` turned over had.
pub open spec fn x_image<A>(s: Seq<A>, q: u64) -> Seq<A> {
    Seq::new(s.len(), |i: int| s[flip_bit(i as u64, q) as int])
}

/// The amplitudes after an X on `target` under control of `control`: where
/// the control bit is set, the amplitude of the state with the target bit
/// turned over; else the state's own. A qubit does not control itself.
pub open spec fn cx_image<A>(s: Seq<A>, control: u64, target: u64) -> Seq<A> {
    Seq::new(
        s.len(),
        |i: int|
            if control != target && has_bit(i as u64, control) {
                s[flip_bit(i as u64, target) as int]
            } else {
                s[i]
            },
    )
}

/// The amplitudes after qubits `a` and `b` were exchanged.
pub open spec fn swap_image<A>(s: Seq<A>, a: u64, b: u64) -> Seq<A> {
    Seq::new(s.len(), |i: int| s[swap_bits(i as u64, a, b) as int])
}

/// Whether the amplitudes of the states `a` and `b` are those of `s0`,
/// exchanged where `a` is below `bound`.
pub open spec fn pair_moved<A>(cur: Seq<A>, s0: Seq<A>, a: int, b: int, bound: int) -> bool {
    if a < bound {
        cur[a] == s0[b] && cur[b] == s0[a]
    } else {
        cur[a] == s0[a] && cur[b] == s0[b]
    }
}

/// The amplitudes of a register of qubits: one for each basis state, the
/// state `i` being that in which qubit `q` holds bit `q` of `i`.
#[derive(Debug)]
pub struct StateVector<A> {
    pub amplitudes: Vec<A>,
    pub num_qubits: usize,
}

/// Two amplitudes that change places leave the amplitudes as a whole what
/// they were, as a collection without order.
proof fn lemma_exchange<A>(s: Seq<A>, i: int, j: int)
    requires
        0 <= i < s.len(),
        0 <= j < s.len(),
    ensures
        s.update(i, s[j]).update(j, s[i]).to_multiset() == s.to_multiset(),
{
    broadcast use {
        vstd::seq_lib::to_multiset_update,
        vstd::seq_lib::group_to_multiset_ensures,
        vstd::multiset::group_multiset_axioms,
    };

    let a = s.update(i, s[j]);
    assert(a.to_multiset() == s.to_multiset().insert(s[j]).remove(s[i]));
    assert(a.update(j, s[i]).to_multiset() == a.to_multiset().insert(s[i]).remove(a[j]));
    assert(s.to_multiset().contains(s[i])) by {
        assert(s.contains(s[i]));
    }
    assert(s.to_multiset().contains(s[j])) by {
        assert(s.contains(s[j]));
    }
    if i == j {
        assert(s.update(i, s[j]).update(j, s[i]) =~= s);
    } else {
        assert(a[j] == s[j]);
        assert(s.to_multiset().insert(s[j]).remove(s[i]).insert(s[i]).remove(s[j])
            =~= s.to_multiset());
    }
}

proof fn lemma_flip_in_range(i: u64, q: u64, n: u64)
    requires
        n < 64,
        q < n,
        i < (1u64 << n),
    ensures
        flip_bit(i, q) < (1u64 << n),
        flip_bit(flip_bit(i, q), q) == i,
        has_bit(flip_bit(i, q), q) != has_bit(i, q),
        !has_bit(i, q) ==> flip_bit(i, q) == i | (1u64 << q),
        flip_bit(i, q) != i,
{
    assert((i ^ (1u64 << q)) < (1u64 << n)) by (bit_vector)
        requires
            n < 64,
            q < n,
            i < (1u64 << n),
    ;
    assert(((i ^ (1u64 << q)) ^ (1u64 << q)) == i) by (bit_vector);
    assert((((i ^ (1u64 << q)) >> q) & 1 == 1) != ((i >> q) & 1 == 1)) by (bit_vector)
        requires
            q < 64,
    ;
    assert(!((i >> q) & 1 == 1) ==> (i ^ (1u64 << q)) == i | (1u64 << q)) by (bit_vector)
        requires
            q < 64,
    ;
    assert((i ^ (1u64 << q)) != i) by (bit_vector)
        requires
            q < 64,
    ;
}

proof fn lemma_flip_keeps_other_bit(i: u64, q: u64, c: u64)
    requires
        q < 64,
        c < 64,
        c != q,
    ensures
        has_bit(flip_bit(i, q), c) == has_bit(i, c),
{
    assert((((i ^ (1u64 << q)) >> c) & 1 == 1) == ((i >> c) & 1 == 1)) by (bit_vector)
        requires
            q < 64,
            c < 64,
            c != q,
    ;
}

impl<A: Copy> StateVector<A> {
    /// The invariant of a register: it has fewer than 64 qubits, and one
    /// amplitude for each of the `2^n` basis states of its `n` qubits.
    pub open spec fn wf(&self) -> bool {
        self.num_qubits < 64 && self.amplitudes@.len() == (1u64 << (self.num_qubits as u64))
    }

    /// The register of `num_qubits` qubits in the basis state 0: `one` for
    /// that state, `zero` for every other.
    pub fn new(num_qubits: usize, zero: A, one: A) -> (r: Self)
        requires
            num_qubits < 64,
            (1u64 << (num_qubits as u64)) <= usize::MAX,
        ensures
            r.wf(),
            r.num_qubits == num_qubits,
            r.amplitudes@[0] == one,
            forall|i: int| 1 <= i < r.amplitudes@.len() ==> r.amplitudes@[i] == zero,
    {
        let n: u64 = 1u64 << (num_qubits as u64);
        assert((1u64 << (num_qubits as u64)) >= 1) by (bit_vector)
            requires
                num_qubits < 64,
        ;
        let mut amplitudes: Vec<A> = Vec::new();
        amplitudes.push(one);
        let mut i: u64 = 1;
        while i < n
            invariant
                1 <= i <= n,
                n <= usize::MAX,
                amplitudes@.len() == i,
                amplitudes@[0] == one,
                forall|k: int| 1 <= k < i ==> amplitudes@[k] == zero,
            decreases n - i,
        {
            amplitudes.push(zero);
            i += 1;
        }
        StateVector { amplitudes, num_qubits }
    }

    /// A copy of the register.
    pub fn clone_state(&self) -> (r: Self)
        ensures
            r.amplitudes@ == self.amplitudes@,
            r.num_qubits == self.num_qubits,
    {
        let mut amplitudes: Vec<A> = Vec::new();
        let mut i: usize = 0;
        while i < self.amplitudes.len()
            invariant
                i <= self.amplitudes.len(),
                amplitudes@ == self.amplitudes@.take(i as int),
            decreases self.amplitudes.len() - i,
        {
            amplitudes.push(self.amplitudes[i]);
            i += 1;
        }
        assert(self.amplitudes@.take(i as int) =~= self.amplitudes@);
        StateVector { amplitudes, num_qubits: self.num_qubits }
    }

    /// Applies an X to qubit `q`.
    pub fn apply_x(&mut self, q: usize)
        requires
            old(self).wf(),
            q < old(self).num_qubits,
        ensures
            final(self).wf(),
            final(self).num_qubits == old(self).num_qubits,
            final(self).amplitudes@ == x_image(old(self).amplitudes@, q as u64),
            final(self).amplitudes@.to_multiset() == old(self).amplitudes@.to_multiset(),
    {
        let n = self.amplitudes.len();
        let qq: u64 = q as u64;
        let nq: u64 = self.num_qubits as u64;
        let bit: u64 = 1u64 << qq;
        let ghost s0 = self.amplitudes@;
        let mut i: usize = 0;
        while i < n
            invariant
                i <= n,
                n == s0.len(),
                self.amplitudes@.len() == n,
                self.amplitudes@.to_multiset() == s0.to_multiset(),
                self.num_qubits == old(self).num_qubits,
                qq == q,
                nq == self.num_qubits,
                nq < 64,
                qq < nq,
                n == (1u64 << nq),
                bit == 1u64 << qq,
                forall|a: int|
                    0 <= a < n && !has_bit(a as u64, qq) ==> #[trigger] pair_moved(
                        self.amplitudes@,
                        s0,
                        a,
                        flip_bit(a as u64, qq) as int,
                        i as int,
                    ),
            decreases n - i,
        {
            let iu: u64 = i as u64;
            proof {
                lemma_flip_in_range(iu, qq, nq);
            }
            if (iu >> qq) & 1 != 1 {
                let j: usize = (iu | bit) as usize;
                let ghost before = self.amplitudes@;
                let x = self.amplitudes[i];
                let y = self.amplitudes[j];
                proof {
                    lemma_exchange(self.amplitudes@, i as int, j as int);
                }
                self.amplitudes.set(i, y);
                self.amplitudes.set(j, x);
                proof {
                    assert forall|a: int| 0 <= a < n && !has_bit(a as u64, qq) implies #[trigger] pair_moved(
                        self.amplitudes@,
                        s0,
                        a,
                        flip_bit(a as u64, qq) as int,
                        i + 1,
                    ) by {
                        lemma_flip_in_range(a as u64, qq, nq);
                        assert(pair_moved(before, s0, a, flip_bit(a as u64, qq) as int, i as int));
                        if a != i {
                            assert(before[a] == self.amplitudes@[a]);
                            let fa = flip_bit(a as u64, qq);
                            assert(fa != j) by {
                                if fa == j {
                                    assert(flip_bit(fa, qq) == a as u64);
                                    assert(flip_bit(j as u64, qq) == iu);
                                }
                            }
                            assert(before[fa as int] == self.amplitudes@[fa as int]);
                        }
                    }
                }
            } else {
                proof {
                    assert forall|a: int| 0 <= a < n && !has_bit(a as u64, qq) implies #[trigger] pair_moved(
                        self.amplitudes@,
                        s0,
                        a,
                        flip_bit(a as u64, qq) as int,
                        i + 1,
                    ) by {
                        assert(pair_moved(
                            self.amplitudes@,
                            s0,
                            a,
                            flip_bit(a as u64, qq) as int,
                            i as int,
                        ));
                    }
                }
            }
            i += 1;
        }
        proof {
            assert forall|a: int| 0 <= a < n implies self.amplitudes@[a] == s0[flip_bit(
                a as u64,
                qq,
            ) as int] by {
                lemma_flip_in_range(a as u64, qq, nq);
                if has_bit(a as u64, qq) {
                    let b = flip_bit(a as u64, qq);
                    lemma_flip_in_range(b, qq, nq);
                    assert(pair_moved(
                        self.amplitudes@,
                        s0,
                        b as int,
                        flip_bit(b, qq) as int,
                        i as int,
                    ));
                } else {
                    assert(pair_moved(
                        self.amplitudes@,
                        s0,
                        a,
                        flip_bit(a as u64, qq) as int,
                        i as int,
                    ));
                }
            }
            assert(self.amplitudes@ =~= x_image(s0, qq));
        }
    }
}

proof fn lemma_swap_bits(i: u64, a: u64, b: u64, n: u64)
    requires
        n < 64,
        a < n,
        b < n,
        a != b,
        i < (1u64 << n),
    ensures
        swap_bits(i, a, b) < (1u64 << n),
        swap_bits(swap_bits(i, a, b), a, b) == i,
        has_bit(swap_bits(i, a, b), a) == has_bit(i, b),
        has_bit(swap_bits(i, a, b), b) == has_bit(i, a),
        has_bit(i, a) && !has_bit(i, b) ==> swap_bits(i, a, b) == (i & !(1u64 << a)) | (1u64 << b),
        has_bit(i, a) != has_bit(i, b) ==> swap_bits(i, a, b) != i,
{
    lemma_flip_in_range(i, a, n);
    lemma_flip_in_range(flip_bit(i, a), b, n);
    lemma_flip_keeps_other_bit(i, a, b);
    lemma_flip_keeps_other_bit(flip_bit(i, a), b, a);
    let j = flip_bit(flip_bit(i, a), b);
    lemma_flip_in_range(j, a, n);
    lemma_flip_in_range(flip_bit(j, a), b, n);
    lemma_flip_keeps_other_bit(j, a, b);
    lemma_flip_keeps_other_bit(flip_bit(j, a), b, a);
    assert((((i ^ (1u64 << a)) ^ (1u64 << b)) ^ (1u64 << a)) ^ (1u64 << b) == i) by (bit_vector);
    assert(((i >> a) & 1 == 1) && !((i >> b) & 1 == 1) ==> ((i ^ (1u64 << a)) ^ (1u64 << b)) == (i
        & !(1u64 << a)) | (1u64 << b)) by (bit_vector)
        requires
            a < 64,
            b < 64,
            a != b,
    ;
    assert(((i ^ (1u64 << a)) ^ (1u64 << b)) != i) by (bit_vector)
        requires
            a < 64,
            b < 64,
            a != b,
    ;
}

impl<A: Copy> StateVector<A> {
    /// Applies an X to `target` where `control` is set. Does nothing where
    /// the two are the same qubit.
    pub fn apply_cx(&mut self, control: usize, target: usize)
        requires
            old(self).wf(),
            control < old(self).num_qubits,
            target < old(self).num_qubits,
        ensures
            final(self).wf(),
            final(self).num_qubits == old(self).num_qubits,
            final(self).amplitudes@ == cx_image(
                old(self).amplitudes@,
                control as u64,
                target as u64,
            ),
            final(self).amplitudes@.to_multiset() == old(self).amplitudes@.to_multiset(),
    {
        let n = self.amplitudes.len();
        let c: u64 = control as u64;
        let t: u64 = target as u64;
        let nq: u64 = self.num_qubits as u64;
        let bit: u64 = 1u64 << t;
        let ghost s0 = self.amplitudes@;
        if control == target {
            assert(self.amplitudes@ =~= cx_image(s0, c, t));
            return ;
        }
        let mut i: usize = 0;
        while i < n
            invariant
                i <= n,
                n == s0.len(),
                self.amplitudes@.len() == n,
                self.amplitudes@.to_multiset() == s0.to_multiset(),
                self.num_qubits == old(self).num_qubits,
                nq == self.num_qubits,
                nq < 64,
                c < nq,
                t < nq,
                c != t,
                n == (1u64 << nq),
                bit == 1u64 << t,
                forall|a: int|
                    0 <= a < n && has_bit(a as u64, c) && !has_bit(a as u64, t)
                        ==> #[trigger] pair_moved(
                        self.amplitudes@,
                        s0,
                        a,
                        flip_bit(a as u64, t) as int,
                        i as int,
                    ),
                forall|a: int|
                    0 <= a < n && !has_bit(a as u64, c) ==> #[trigger] self.amplitudes@[a] == s0[a],
            decreases n - i,
        {
            let iu: u64 = i as u64;
            proof {
                lemma_flip_in_range(iu, t, nq);
                lemma_flip_keeps_other_bit(iu, t, c);
            }
            let ghost before = self.amplitudes@;
            if (iu >> c) & 1 == 1 && (iu >> t) & 1 != 1 {
                let j: usize = (iu | bit) as usize;
                let x = self.amplitudes[i];
                let y = self.amplitudes[j];
                proof {
                    lemma_exchange(self.amplitudes@, i as int, j as int);
                }
                self.amplitudes.set(i, y);
                self.amplitudes.set(j, x);
            }
            proof {
                let swapped = has_bit(iu, c) && !has_bit(iu, t);
                let j = flip_bit(iu, t) as int;
                assert forall|a: int|
                    0 <= a < n && has_bit(a as u64, c) && !has_bit(
                        a as u64,
                        t,
                    ) implies #[trigger] pair_moved(
                    self.amplitudes@,
                    s0,
                    a,
                    flip_bit(a as u64, t) as int,
                    i + 1,
                ) by {
                    lemma_flip_in_range(a as u64, t, nq);
                    assert(pair_moved(before, s0, a, flip_bit(a as u64, t) as int, i as int));
                    if a != i && swapped {
                        let fa = flip_bit(a as u64, t);
                        assert(fa != j) by {
                            if fa == j {
                                assert(flip_bit(fa, t) == a as u64);
                            }
                        }
                        assert(before[a] == self.amplitudes@[a]);
                        assert(before[fa as int] == self.amplitudes@[fa as int]);
                    }
                }
                assert forall|a: int| 0 <= a < n && !has_bit(a as u64, c) implies (
                #[trigger] self.amplitudes@[a]) == s0[a] by {
                    assert(before[a] == s0[a]);
                }
            }
            i += 1;
        }
        proof {
            assert forall|a: int| 0 <= a < n implies self.amplitudes@[a] == cx_image(s0, c, t)[a] by {
                lemma_flip_in_range(a as u64, t, nq);
                lemma_flip_keeps_other_bit(a as u64, t, c);
                if has_bit(a as u64, c) {
                    if has_bit(a as u64, t) {
                        let b = flip_bit(a as u64, t);
                        lemma_flip_in_range(b, t, nq);
                        assert(pair_moved(
                            self.amplitudes@,
                            s0,
                            b as int,
                            flip_bit(b, t) as int,
                            i as int,
                        ));
                    } else {
                        assert(pair_moved(
                            self.amplitudes@,
                            s0,
                            a,
                            flip_bit(a as u64, t) as int,
                            i as int,
                        ));
                    }
                }
            }
            assert(self.amplitudes@ =~= cx_image(s0, c, t));
        }
    }

    /// Exchanges qubits `q1` and `q2`.
    pub fn apply_swap(&mut self, q1: usize, q2: usize)
        requires
            old(self).wf(),
            q1 < old(self).num_qubits,
            q2 < old(self).num_qubits,
        ensures
            final(self).wf(),
            final(self).num_qubits == old(self).num_qubits,
            final(self).amplitudes@ == swap_image(old(self).amplitudes@, q1 as u64, q2 as u64),
            final(self).amplitudes@.to_multiset() == old(self).amplitudes@.to_multiset(),
    {
        let n = self.amplitudes.len();
        let a1: u64 = q1 as u64;
        let a2: u64 = q2 as u64;
        let nq: u64 = self.num_qubits as u64;
        let bit1: u64 = 1u64 << a1;
        let bit2: u64 = 1u64 << a2;
        let ghost s0 = self.amplitudes@;
        if q1 == q2 {
            assert(self.amplitudes@ =~= swap_image(s0, a1, a2));
            return ;
        }
        let mut i: usize = 0;
        while i < n
            invariant
                i <= n,
                n == s0.len(),
                self.amplitudes@.len() == n,
                self.amplitudes@.to_multiset() == s0.to_multiset(),
                self.num_qubits == old(self).num_qubits,
                nq == self.num_qubits,
                nq < 64,
                a1 < nq,
                a2 < nq,
                a1 != a2,
                n == (1u64 << nq),
                bit1 == 1u64 << a1,
                bit2 == 1u64 << a2,
                forall|a: int|
                    0 <= a < n && has_bit(a as u64, a1) && !has_bit(a as u64, a2)
                        ==> #[trigger] pair_moved(
                        self.amplitudes@,
                        s0,
                        a,
                        swap_bits(a as u64, a1, a2) as int,
                        i as int,
                    ),
                forall|a: int|
                    0 <= a < n && has_bit(a as u64, a1) == has_bit(a as u64, a2)
                        ==> #[trigger] self.amplitudes@[a] == s0[a],
            decreases n - i,
        {
            let iu: u64 = i as u64;
            proof {
                lemma_swap_bits(iu, a1, a2, nq);
            }
            let ghost before = self.amplitudes@;
            if (iu >> a1) & 1 == 1 && (iu >> a2) & 1 != 1 {
                let j: usize = ((iu & !bit1) | bit2) as usize;
                let x = self.amplitudes[i];
                let y = self.amplitudes[j];
                proof {
                    lemma_exchange(self.amplitudes@, i as int, j as int);
                }
                self.amplitudes.set(i, y);
                self.amplitudes.set(j, x);
            }
            proof {
                let swapped = has_bit(iu, a1) && !has_bit(iu, a2);
                let j = swap_bits(iu, a1, a2) as int;
                assert forall|a: int|
                    0 <= a < n && has_bit(a as u64, a1) && !has_bit(
                        a as u64,
                        a2,
                    ) implies #[trigger] pair_moved(
                    self.amplitudes@,
                    s0,
                    a,
                    swap_bits(a as u64, a1, a2) as int,
                    i + 1,
                ) by {
                    lemma_swap_bits(a as u64, a1, a2, nq);
                    assert(pair_moved(before, s0, a, swap_bits(a as u64, a1, a2) as int, i as int));
                    if a != i && swapped {
                        let fa = swap_bits(a as u64, a1, a2);
                        lemma_swap_bits(fa, a1, a2, nq);
                        assert(fa != j) by {
                            if fa == j {
                                assert(swap_bits(fa, a1, a2) == a as u64);
                            }
                        }
                        assert(before[a] == self.amplitudes@[a]);
                        assert(before[fa as int] == self.amplitudes@[fa as int]);
                    }
                }
                assert forall|a: int|
                    0 <= a < n && has_bit(a as u64, a1) == has_bit(a as u64, a2) implies (
                #[trigger] self.amplitudes@[a]) == s0[a] by {
                    assert(before[a] == s0[a]);
                }
            }
            i += 1;
        }
        proof {
            assert forall|a: int| 0 <= a < n implies self.amplitudes@[a] == swap_image(s0, a1, a2)[a] by {
                lemma_swap_bits(a as u64, a1, a2, nq);
                if has_bit(a as u64, a1) != has_bit(a as u64, a2) {
                    if has_bit(a as u64, a1) {
                        assert(pair_moved(
                            self.amplitudes@,
                            s0,
                            a,
                            swap_bits(a as u64, a1, a2) as int,
                            i as int,
                        ));
                    } else {
                        let b = swap_bits(a as u64, a1, a2);
                        lemma_swap_bits(b, a1, a2, nq);
                        assert(pair_moved(
                            self.amplitudes@,
                            s0,
                            b as int,
                            swap_bits(b, a1, a2) as int,
                            i as int,
                        ));
                    }
                }
            }
            assert(self.amplitudes@ =~= swap_image(s0, a1, a2));
        }
    }
}

/// An X applied twice to one qubit leaves every amplitude where it was.
pub proof fn lemma_x_twice<A>(s: Seq<A>, q: u64, n: u64)
    requires
        n < 64,
        q < n,
        s.len() == (1u64 << n),
    ensures
        x_image(x_image(s, q), q) == s,
{
    assert forall|i: int| 0 <= i < s.len() implies x_image(x_image(s, q), q)[i] == s[i] by {
        lemma_flip_in_range(i as u64, q, n);
    }
    assert(x_image(x_image(s, q), q) =~= s);
}

/// A controlled X applied twice leaves every amplitude where it was.
pub proof fn lemma_cx_twice<A>(s: Seq<A>, control: u64, target: u64, n: u64)
    requires
        n < 64,
        control < n,
        target < n,
        s.len() == (1u64 << n),
    ensures
        cx_image(cx_image(s, control, target), control, target) == s,
{
    let once = cx_image(s, control, target);
    assert forall|i: int| 0 <= i < s.len() implies cx_image(once, control, target)[i] == s[i] by {
        lemma_flip_in_range(i as u64, target, n);
        if control != target {
            lemma_flip_keeps_other_bit(i as u64, target, control);
        }
    }
    assert(cx_image(once, control, target) =~= s);
}

/// A controlled X leaves the state as it is where every basis state with
/// the control set has the same amplitude, as where the control is
/// entirely on 0 and all those amplitudes are zero.
pub proof fn lemma_cx_idle<A>(s: Seq<A>, control: u64, target: u64, n: u64, zero: A)
    requires
        n < 64,
        control < n,
        target < n,
        s.len() == (1u64 << n),
        forall|i: int| 0 <= i < s.len() && has_bit(i as u64, control) ==> s[i] == zero,
    ensures
        cx_image(s, control, target) == s,
{
    assert forall|i: int| 0 <= i < s.len() implies cx_image(s, control, target)[i] == s[i] by {
        lemma_flip_in_range(i as u64, target, n);
        if control != target {
            lemma_flip_keeps_other_bit(i as u64, target, control);
        }
    }
    assert(cx_image(s, control, target) =~= s);
}

/// Two qubits exchanged twice leave every amplitude where it was.
pub proof fn lemma_swap_twice<A>(s: Seq<A>, a: u64, b: u64, n: u64)
    requires
        n < 64,
        a < n,
        b < n,
        s.len() == (1u64 << n),
    ensures
        swap_image(swap_image(s, a, b), a, b) == s,
{
    assert forall|i: int| 0 <= i < s.len() implies swap_image(swap_image(s, a, b), a, b)[i]
        == s[i] by {
        if a != b {
            lemma_swap_bits(i as u64, a, b, n);
        }
    }
    assert(swap_image(swap_image(s, a, b), a, b) =~= s);
}

/// On a basis state, an X on `target` under control of `control` moves the
/// one amplitude to the state with the target turned over where the control
/// is set, and leaves it where the control is not set.
pub proof fn lemma_cx_on_basis<A>(s: Seq<A>, control: u64, target: u64, n: u64, k: u64)
    requires
        n < 64,
        control < n,
        target < n,
        control != target,
        s.len() == (1u64 << n),
        k < (1u64 << n),
    ensures
        cx_image(s, control, target)[(if has_bit(k, control) {
            flip_bit(k, target)
        } else {
            k
        }) as int] == s[k as int],
{
    lemma_flip_in_range(k, target, n);
    lemma_flip_keeps_other_bit(k, target, control);
}

} // verus!
