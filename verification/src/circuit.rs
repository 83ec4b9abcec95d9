//! The circuit engine: a qubit register with gate application, probability
//! inspection and projective measurement.

use vstd::prelude::*;

verus! {

use vstd::arithmetic::power2::lemma2_to64;
use vstd::arithmetic::power2::lemma2_to64_rest;
use vstd::arithmetic::power2::lemma_pow2_pos;
use vstd::arithmetic::power2::lemma_pow2_strictly_increases;
use vstd::arithmetic::power2::pow2;
use crate::amplitude::Amplitude;
use crate::amplitude::half_i64;
use crate::amplitude::is_even_i64;
use crate::gate::Gate;
use crate::gate::apply_gate_spec;
use crate::index::bit;
use crate::index::flipped;
use crate::index::lemma_flip_props;
use crate::index::pow2_u128;
use crate::index::pow2_usize;
use crate::laws::lemma_cx_step_props;
use crate::laws::lemma_h_step_sum;
use crate::laws::lemma_x_step_props;
use crate::model::QState;
use crate::model::all_even;
use crate::model::amps_view;
use crate::model::basis;
use crate::model::canon;
use crate::model::cum;
use crate::model::cx_step;
use crate::model::excited_index;
use crate::model::h_step;
use crate::model::halve;
use crate::model::norm_sum;
use crate::model::nsq;
use crate::model::outcome_at;
use crate::model::sum_range;
use crate::model::total64;
use crate::model::x_step;
use crate::sums::lemma_basis_sum_range;
use crate::sums::lemma_coord_bound;
use crate::sums::lemma_halve_sum;
use crate::sums::lemma_pow2_div4;
use crate::sums::lemma_sum_concat;
use crate::sums::lemma_sum_element;
use crate::sums::lemma_sum_nonneg;

/// Largest register this engine will allocate: `2^30` amplitudes.
pub const MAX_QUBITS: usize = 30;

/// Largest scaling exponent the representation accepts; squared norms and
/// their sums then fit comfortably in 64 bits.
pub const MAX_SHIFT: u32 = 62;

/// A register of `num_qubits` qubits held as `2^num_qubits` exact
/// amplitudes with one shared scaling exponent.
pub struct QuantumCircuit {
    num_qubits: usize,
    amps: Vec<Amplitude>,
    shift: u32,
}

impl View for QuantumCircuit {
    type V = QState;

    closed spec fn view(&self) -> QState {
        QState {
            qubits: self.num_qubits as nat,
            amps: amps_view(self.amps@),
            shift: self.shift as nat,
        }
    }
}

impl QuantumCircuit {
    /// Validity of the representation: the model invariant, plus the two
    /// machine bounds of this representation.
    pub open spec fn wf(self) -> bool {
        &&& self@.wf()
        &&& self@.qubits <= MAX_QUBITS as nat
        &&& self@.shift <= MAX_SHIFT as nat
    }

    /// Build an engine of `num_qubits` qubits in the classical basis state
    /// in which exactly the listed qubits read one.  Listing a qubit twice
    /// is the same as listing it once.
    pub fn from_states(num_qubits: usize, initial_states: Vec<usize>) -> (r: QuantumCircuit)
        requires
            1 <= num_qubits <= MAX_QUBITS,
            forall|j: int|
                0 <= j < initial_states@.len() ==> #[trigger] initial_states@[j] < num_qubits,
        ensures
            r.wf(),
            r@.qubits == num_qubits,
            r@.shift == 0,
            r@.amps == basis(pow2(num_qubits as nat), excited_index(initial_states@)),
            0 <= excited_index(initial_states@) < pow2(num_qubits as nat),
            forall|q: usize|
                q < num_qubits ==> (#[trigger] bit(excited_index(initial_states@), q as nat) == 1
                    <==> initial_states@.contains(q)),
    {
        proof {
            lemma2_to64();
            if (num_qubits as nat) < 30 {
                lemma_pow2_strictly_increases(num_qubits as nat, 30);
            }
            assert(usize::MAX >= 0xffff_ffff);
        }
        let size = pow2_usize(num_qubits);
        let mut amps: Vec<Amplitude> = Vec::new();
        let mut i: usize = 0;
        while i < size
            invariant
                amps@.len() == i,
                i <= size,
                forall|k: int| 0 <= k < i ==> #[trigger] amps@[k] == (Amplitude { re: 0, im: 0 }),
            decreases size - i,
        {
            amps.push(Amplitude::new(0, 0));
            i = i + 1;
        }
        let mut idx: usize = 0;
        let mut j: usize = 0;
        proof {
            assert(initial_states@.subrange(0, 0) =~= Seq::<usize>::empty());
            lemma_pow2_pos(num_qubits as nat);
        }
        while j < initial_states.len()
            invariant
                j <= initial_states@.len(),
                forall|jj: int|
                    0 <= jj < initial_states@.len() ==> #[trigger] initial_states@[jj]
                        < num_qubits,
                num_qubits <= MAX_QUBITS,
                0 <= idx < pow2(num_qubits as nat),
                idx as int == excited_index(initial_states@.subrange(0, j as int)),
                size == pow2(num_qubits as nat),
            decreases initial_states@.len() - j,
        {
            let q = initial_states[j];
            proof {
                lemma2_to64();
                if (q as nat) < 30 {
                    lemma_pow2_strictly_increases(q as nat, 30);
                }
                assert(usize::MAX >= 0xffff_ffff);
            }
            let m = pow2_usize(q);
            proof {
                lemma_flip_props(idx as int, q as nat, num_qubits as nat);
            }
            if (idx / m) % 2 == 0 {
                idx = idx + m;
            }
            proof {
                let sub1 = initial_states@.subrange(0, j + 1);
                assert(sub1.drop_last() =~= initial_states@.subrange(0, j as int));
                assert(sub1.last() == initial_states@[j as int]);
            }
            j = j + 1;
        }
        proof {
            assert(initial_states@.subrange(0, initial_states@.len() as int) =~= initial_states@);
            crate::laws::lemma_excited_index_props(initial_states@, num_qubits as nat);
        }
        amps[idx] = Amplitude::new(1, 0);
        let r = QuantumCircuit { num_qubits, amps, shift: 0 };
        proof {
            let b = basis(pow2(num_qubits as nat), idx as int);
            assert(r@.amps =~= b);
            lemma_basis_sum_range(pow2(num_qubits as nat), idx as int, 0, pow2(num_qubits as nat) as int);
            assert(norm_sum(r@.amps) == 1);
            lemma2_to64();
            assert(r@.amps[idx as int] == (1int, 0int));
            assert(!(r@.amps[idx as int].0 % 2 == 0));
            assert(!crate::model::all_even(r@.amps));
        }
        r
    }

    /// Number of qubits in the register.
    pub fn num_qubits(&self) -> (r: usize)
        ensures
            r == self@.qubits,
    {
        self.num_qubits
    }

    /// The shared scaling exponent: entry `(re, im)` of `state()` denotes
    /// the complex number `(re + im*i) / sqrt(2)^shift`, and each value of
    /// `probabilities()` is a numerator over `2^shift`.
    pub fn shift(&self) -> (r: u32)
        ensures
            r == self@.shift,
    {
        self.shift
    }

    /// The raw amplitudes, for diagnostic display.
    pub fn state(&self) -> (r: &Vec<Amplitude>)
        ensures
            amps_view(r@) == self@.amps,
    {
        &self.amps
    }

    /// The probability distribution over basis states, as exact numerators:
    /// the probability of outcome `i` is `r[i] / 2^shift`.  The entries sum
    /// to exactly `2^shift`, i.e. the probabilities sum to exactly one.
    pub fn probabilities(&self) -> (r: Vec<u64>)
        requires
            self.wf(),
        ensures
            r@.len() == self@.amps.len(),
            forall|i: int| 0 <= i < r@.len() ==> #[trigger] r@[i] == nsq(self@.amps[i]),
            total64(r@) == pow2(self@.shift),
    {
        let len = self.amps.len();
        let mut r: Vec<u64> = Vec::new();
        let mut i: usize = 0;
        proof {
            lemma2_to64();
            lemma2_to64_rest();
            if self@.shift < 62 {
                lemma_pow2_strictly_increases(self@.shift, 62);
            }
        }
        while i < len
            invariant
                self.wf(),
                i <= len,
                len == self@.amps.len(),
                r@.len() == i,
                forall|j: int| 0 <= j < i ==> #[trigger] r@[j] == nsq(self@.amps[j]),
                total64(r@) == cum(self@.amps, i as int),
                pow2(self@.shift) <= pow2(62),
                pow2(62) == 0x4000_0000_0000_0000,
            decreases len - i,
        {
            let p = self.amps[i].norm_sqr();
            proof {
                lemma_sum_element(self@.amps, 0, len as int, i as int);
                assert(self@.amps[i as int] == (self.amps@[i as int].re as int,
                self.amps@[i as int].im as int));
                assert(p as int == nsq(self@.amps[i as int]));
                lemma_sum_concat(self@.amps, 0, i as int, i + 1);
                assert(sum_range(self@.amps, i + 1, i + 1) == 0);
                assert(sum_range(self@.amps, i as int, i + 1) == nsq(self@.amps[i as int]));
                assert(cum(self@.amps, i + 1) == cum(self@.amps, i as int) + nsq(
                    self@.amps[i as int],
                ));
            }
            let p64: u64 = p as u64;
            let ghost prev = r@;
            r.push(p64);
            proof {
                assert(r@.drop_last() =~= prev);
                assert(r@.last() == p64);
                assert(total64(r@) == total64(prev) + p64);
            }
            i = i + 1;
        }
        proof {
            assert(cum(self@.amps, len as int) == norm_sum(self@.amps));
        }
        r
    }

    /// Pauli-X on qubit `q`, in place: swap each pair of amplitudes whose
    /// indices differ in exactly bit `q`.
    fn apply_x_exec(&mut self, q: usize)
        requires
            old(self).wf(),
            (q as nat) < old(self)@.qubits,
        ensures
            final(self).wf(),
            final(self)@ == crate::model::apply_x(old(self)@, q as nat),
    {
        let ghost n = old(self)@.qubits;
        let ghost orig = old(self)@.amps;
        let ghost target = x_step(orig, q as nat);
        let size = self.amps.len();
        proof {
            lemma2_to64();
            if (q as nat) < 30 {
                lemma_pow2_strictly_increases(q as nat, 30);
            }
            assert(usize::MAX >= 0xffff_ffff);
        }
        let m = pow2_usize(q);
        let mut i: usize = 0;
        proof {
            assert forall|k: int| 0 <= k < size implies flipped(k, q as nat) >= 0 by {
                lemma_flip_props(k, q as nat, n);
            }
        }
        while i < size
            invariant
                self.num_qubits == old(self).num_qubits,
                self.shift == old(self).shift,
                self.amps@.len() == size,
                size == pow2(n),
                n == old(self)@.qubits,
                (q as nat) < n,
                m == pow2(q as nat),
                i <= size,
                orig == old(self)@.amps,
                orig.len() == size,
                target == x_step(orig, q as nat),
                target.len() == size,
                forall|k: int|
                    0 <= k < size ==> #[trigger] amps_view(self.amps@)[k] == (if bit(k, q as nat)
                        == 0 {
                        if k < i {
                            target[k]
                        } else {
                            orig[k]
                        }
                    } else {
                        if flipped(k, q as nat) < i {
                            target[k]
                        } else {
                            orig[k]
                        }
                    }),
            decreases size - i,
        {
            let ghost pre = self.amps@;
            proof {
                lemma_flip_props(i as int, q as nat, n);
            }
            if (i / m) % 2 == 0 {
                let j = i + m;
                let a = self.amps[i];
                let b = self.amps[j];
                proof {
                    assert(amps_view(pre)[i as int] == orig[i as int]);
                    assert(amps_view(pre)[j as int] == orig[j as int]);
                }
                self.amps[i] = b;
                self.amps[j] = a;
                proof {
                    assert(amps_view(self.amps@)[i as int] == orig[j as int]);
                    assert(amps_view(self.amps@)[j as int] == orig[i as int]);
                    assert(target[i as int] == orig[j as int]);
                    assert(target[j as int] == orig[i as int]);
                }
            }
            proof {
                assert forall|k: int| 0 <= k < size implies #[trigger] amps_view(self.amps@)[k]
                    == (if bit(k, q as nat) == 0 {
                    if k < i + 1 {
                        target[k]
                    } else {
                        orig[k]
                    }
                } else {
                    if flipped(k, q as nat) < i + 1 {
                        target[k]
                    } else {
                        orig[k]
                    }
                }) by {
                    lemma_flip_props(k, q as nat, n);
                    assert(amps_view(pre)[k] == (if bit(k, q as nat) == 0 {
                        if k < i {
                            target[k]
                        } else {
                            orig[k]
                        }
                    } else {
                        if flipped(k, q as nat) < i {
                            target[k]
                        } else {
                            orig[k]
                        }
                    }));
                    if self.amps@[k] == pre[k] {
                        assert(amps_view(self.amps@)[k] == amps_view(pre)[k]);
                    }
                }
            }
            i = i + 1;
        }
        proof {
            assert forall|k: int| 0 <= k < size implies #[trigger] amps_view(self.amps@)[k]
                == target[k] by {
                lemma_flip_props(k, q as nat, n);
            }
            assert(amps_view(self.amps@) =~= target);
            lemma_x_step_props(orig, q as nat, n);
            assert(self@ == crate::model::apply_x(old(self)@, q as nat));
        }
    }

    /// Controlled-X in place: where bit `c` of the index is set, swap the
    /// pair of amplitudes whose indices differ in exactly bit `t`.
    fn apply_cx_exec(&mut self, c: usize, t: usize)
        requires
            old(self).wf(),
            (c as nat) < old(self)@.qubits,
            (t as nat) < old(self)@.qubits,
            c != t,
        ensures
            final(self).wf(),
            final(self)@ == crate::model::apply_cx(old(self)@, c as nat, t as nat),
    {
        let ghost n = old(self)@.qubits;
        let ghost orig = old(self)@.amps;
        let ghost target = cx_step(orig, c as nat, t as nat);
        let size = self.amps.len();
        proof {
            lemma2_to64();
            if (t as nat) < 30 {
                lemma_pow2_strictly_increases(t as nat, 30);
            }
            if (c as nat) < 30 {
                lemma_pow2_strictly_increases(c as nat, 30);
            }
            assert(usize::MAX >= 0xffff_ffff);
        }
        let m = pow2_usize(t);
        let mc = pow2_usize(c);
        let mut i: usize = 0;
        proof {
            assert forall|k: int| 0 <= k < size implies flipped(k, t as nat) >= 0 by {
                lemma_flip_props(k, t as nat, n);
            }
        }
        while i < size
            invariant
                self.num_qubits == old(self).num_qubits,
                self.shift == old(self).shift,
                self.amps@.len() == size,
                size == pow2(n),
                n == old(self)@.qubits,
                (c as nat) < n,
                (t as nat) < n,
                c != t,
                m == pow2(t as nat),
                mc == pow2(c as nat),
                i <= size,
                orig == old(self)@.amps,
                orig.len() == size,
                target == cx_step(orig, c as nat, t as nat),
                target.len() == size,
                forall|k: int|
                    0 <= k < size ==> #[trigger] amps_view(self.amps@)[k] == (if bit(k, t as nat)
                        == 0 {
                        if k < i {
                            target[k]
                        } else {
                            orig[k]
                        }
                    } else {
                        if flipped(k, t as nat) < i {
                            target[k]
                        } else {
                            orig[k]
                        }
                    }),
            decreases size - i,
        {
            let ghost pre = self.amps@;
            proof {
                lemma_flip_props(i as int, t as nat, n);
                lemma_pow2_pos(c as nat);
                lemma_pow2_pos(t as nat);
            }
            if (i / m) % 2 == 0 {
                let j = i + m;
                if (i / mc) % 2 == 1 {
                    let a = self.amps[i];
                    let b = self.amps[j];
                    proof {
                        assert(amps_view(pre)[i as int] == orig[i as int]);
                        assert(amps_view(pre)[j as int] == orig[j as int]);
                    }
                    self.amps[i] = b;
                    self.amps[j] = a;
                    proof {
                        assert(bit(j as int, c as nat) == bit(i as int, c as nat));
                        assert(amps_view(self.amps@)[i as int] == orig[j as int]);
                        assert(amps_view(self.amps@)[j as int] == orig[i as int]);
                        assert(target[i as int] == orig[j as int]);
                        assert(target[j as int] == orig[i as int]);
                    }
                } else {
                    proof {
                        assert(bit(j as int, c as nat) == bit(i as int, c as nat));
                        assert(amps_view(pre)[i as int] == orig[i as int]);
                        assert(amps_view(pre)[j as int] == orig[j as int]);
                        assert(target[i as int] == orig[i as int]);
                        assert(target[j as int] == orig[j as int]);
                    }
                }
            }
            proof {
                assert forall|k: int| 0 <= k < size implies #[trigger] amps_view(self.amps@)[k]
                    == (if bit(k, t as nat) == 0 {
                    if k < i + 1 {
                        target[k]
                    } else {
                        orig[k]
                    }
                } else {
                    if flipped(k, t as nat) < i + 1 {
                        target[k]
                    } else {
                        orig[k]
                    }
                }) by {
                    lemma_flip_props(k, t as nat, n);
                    assert(amps_view(pre)[k] == (if bit(k, t as nat) == 0 {
                        if k < i {
                            target[k]
                        } else {
                            orig[k]
                        }
                    } else {
                        if flipped(k, t as nat) < i {
                            target[k]
                        } else {
                            orig[k]
                        }
                    }));
                    if self.amps@[k] == pre[k] {
                        assert(amps_view(self.amps@)[k] == amps_view(pre)[k]);
                    }
                }
            }
            i = i + 1;
        }
        proof {
            assert forall|k: int| 0 <= k < size implies #[trigger] amps_view(self.amps@)[k]
                == target[k] by {
                lemma_flip_props(k, t as nat, n);
            }
            assert(amps_view(self.amps@) =~= target);
            lemma_cx_step_props(orig, c as nat, t as nat, n);
            assert(self@ == crate::model::apply_cx(old(self)@, c as nat, t as nat));
        }
    }

    /// Hadamard in place: each pair of amplitudes whose indices differ in
    /// exactly bit `q` becomes `(a0 + a1, a0 - a1)`, the exponent grows by
    /// one, and the register is brought back to reduced form.
    fn apply_h_exec(&mut self, q: usize)
        requires
            old(self).wf(),
            (q as nat) < old(self)@.qubits,
            old(self)@.shift < MAX_SHIFT,
        ensures
            final(self).wf(),
            final(self)@ == crate::model::apply_h(old(self)@, q as nat),
            final(self)@.shift <= old(self)@.shift + 1,
    {
        let ghost n = old(self)@.qubits;
        let ghost orig = old(self)@.amps;
        let ghost target = h_step(orig, q as nat);
        let ghost k0 = old(self)@.shift;
        let size = self.amps.len();
        proof {
            lemma2_to64();
            lemma2_to64_rest();
            if (q as nat) < 30 {
                lemma_pow2_strictly_increases(q as nat, 30);
            }
            assert(usize::MAX >= 0xffff_ffff);
            if k0 < 61 {
                lemma_pow2_strictly_increases(k0, 61);
            }
            assert(pow2(k0) <= pow2(61));
        }
        let m = pow2_usize(q);
        let mut i: usize = 0;
        proof {
            assert forall|k: int| 0 <= k < size implies flipped(k, q as nat) >= 0 by {
                lemma_flip_props(k, q as nat, n);
            }
        }
        while i < size
            invariant
                self.num_qubits == old(self).num_qubits,
                self.shift == old(self).shift,
                self.amps@.len() == size,
                size == pow2(n),
                n == old(self)@.qubits,
                (q as nat) < n,
                m == pow2(q as nat),
                i <= size,
                orig == old(self)@.amps,
                orig.len() == size,
                norm_sum(orig) == pow2(k0),
                pow2(k0) <= pow2(61),
                pow2(61) == 0x2000_0000_0000_0000,
                target == h_step(orig, q as nat),
                target.len() == size,
                forall|k: int|
                    0 <= k < size ==> #[trigger] amps_view(self.amps@)[k] == (if bit(k, q as nat)
                        == 0 {
                        if k < i {
                            target[k]
                        } else {
                            orig[k]
                        }
                    } else {
                        if flipped(k, q as nat) < i {
                            target[k]
                        } else {
                            orig[k]
                        }
                    }),
            decreases size - i,
        {
            let ghost pre = self.amps@;
            proof {
                lemma_flip_props(i as int, q as nat, n);
            }
            if (i / m) % 2 == 0 {
                let j = i + m;
                let a = self.amps[i];
                let b = self.amps[j];
                proof {
                    assert(amps_view(pre)[i as int] == orig[i as int]);
                    assert(amps_view(pre)[j as int] == orig[j as int]);
                    lemma_sum_element(orig, 0, size as int, i as int);
                    lemma_sum_element(orig, 0, size as int, j as int);
                    lemma_coord_bound(orig[i as int], 0x1_0000_0000);
                    lemma_coord_bound(orig[j as int], 0x1_0000_0000);
                }
                let na = a.add(b);
                let nb = a.sub(b);
                self.amps[i] = na;
                self.amps[j] = nb;
                proof {
                    assert(amps_view(self.amps@)[i as int] == (orig[i as int].0
                        + orig[j as int].0, orig[i as int].1 + orig[j as int].1));
                    assert(amps_view(self.amps@)[j as int] == (orig[i as int].0
                        - orig[j as int].0, orig[i as int].1 - orig[j as int].1));
                    assert(target[i as int] == (orig[i as int].0 + orig[j as int].0,
                    orig[i as int].1 + orig[j as int].1));
                    assert(target[j as int] == (orig[i as int].0 - orig[j as int].0,
                    orig[i as int].1 - orig[j as int].1));
                }
            }
            proof {
                assert forall|k: int| 0 <= k < size implies #[trigger] amps_view(self.amps@)[k]
                    == (if bit(k, q as nat) == 0 {
                    if k < i + 1 {
                        target[k]
                    } else {
                        orig[k]
                    }
                } else {
                    if flipped(k, q as nat) < i + 1 {
                        target[k]
                    } else {
                        orig[k]
                    }
                }) by {
                    lemma_flip_props(k, q as nat, n);
                    assert(amps_view(pre)[k] == (if bit(k, q as nat) == 0 {
                        if k < i {
                            target[k]
                        } else {
                            orig[k]
                        }
                    } else {
                        if flipped(k, q as nat) < i {
                            target[k]
                        } else {
                            orig[k]
                        }
                    }));
                    if self.amps@[k] == pre[k] {
                        assert(amps_view(self.amps@)[k] == amps_view(pre)[k]);
                    }
                }
            }
            i = i + 1;
        }
        proof {
            assert forall|k: int| 0 <= k < size implies #[trigger] amps_view(self.amps@)[k]
                == target[k] by {
                lemma_flip_props(k, q as nat, n);
            }
            assert(amps_view(self.amps@) =~= target);
            lemma_h_step_sum(orig, q as nat, n);
            vstd::arithmetic::power2::lemma_pow2_unfold(k0 + 1);
            assert(norm_sum(amps_view(self.amps@)) == pow2(k0 + 1));
        }
        self.shift = self.shift + 1;
        self.reduce();
        proof {
            assert(self@ == crate::model::apply_h(old(self)@, q as nat));
        }
    }

    /// Bring the representation back to reduced form: halve every
    /// coordinate while all of them are even, lowering the exponent by two
    /// each time.  The complex amplitudes the register denotes never
    /// change.
    fn reduce(&mut self)
        requires
            norm_sum(old(self)@.amps) == pow2(old(self)@.shift),
            old(self)@.shift <= MAX_SHIFT as nat,
        ensures
            final(self)@.qubits == old(self)@.qubits,
            final(self)@.shift <= old(self)@.shift,
            (final(self)@.amps, final(self)@.shift) == canon(old(self)@.amps, old(self)@.shift),
            norm_sum(final(self)@.amps) == pow2(final(self)@.shift),
            !all_even(final(self)@.amps),
            final(self)@.amps.len() == old(self)@.amps.len(),
    {
        proof {
            lemma2_to64();
            lemma2_to64_rest();
        }
        loop
            invariant
                self.num_qubits == old(self).num_qubits,
                norm_sum(self@.amps) == pow2(self@.shift),
                self@.amps.len() == old(self)@.amps.len(),
                canon(self@.amps, self@.shift) == canon(old(self)@.amps, old(self)@.shift),
                self@.shift <= old(self)@.shift,
                old(self)@.shift <= MAX_SHIFT as nat,
                pow2(62) == 0x4000_0000_0000_0000,
            ensures
                self.num_qubits == old(self).num_qubits,
                norm_sum(self@.amps) == pow2(self@.shift),
                self@.amps.len() == old(self)@.amps.len(),
                canon(self@.amps, self@.shift) == canon(old(self)@.amps, old(self)@.shift),
                self@.shift <= old(self)@.shift,
                !all_even(self@.amps),
            decreases self.shift,
        {
            let even = all_even_exec(&self.amps);
            if !even {
                break ;
            }
            let ghost cur0 = self@.amps;
            let ghost k = self@.shift;
            proof {
                lemma_halve_sum(cur0, 0, cur0.len() as int);
                lemma_pow2_div4(k, norm_sum(halve(cur0)));
                assert(k >= 2);
                vstd::arithmetic::power2::lemma_pow2_unfold(k);
                vstd::arithmetic::power2::lemma_pow2_unfold((k - 1) as nat);
                assert(pow2(k) == 4 * pow2((k - 2) as nat));
                if self@.shift < 62 {
                    lemma_pow2_strictly_increases(self@.shift, 62);
                }
                assert(pow2(k) <= pow2(62));
            }
            let len = self.amps.len();
            let mut i: usize = 0;
            while i < len
                invariant
                    self.num_qubits == old(self).num_qubits,
                    self.shift == k,
                    self@.shift == k,
                    self.amps@.len() == len,
                    cur0.len() == len,
                    all_even(cur0),
                    norm_sum(cur0) == pow2(k),
                    pow2(k) <= pow2(62),
                    pow2(62) == 0x4000_0000_0000_0000,
                    i <= len,
                    forall|kk: int|
                        0 <= kk < len ==> #[trigger] amps_view(self.amps@)[kk] == (if kk < i {
                            halve(cur0)[kk]
                        } else {
                            cur0[kk]
                        }),
                decreases len - i,
            {
                let ghost pre = self.amps@;
                let a = self.amps[i];
                proof {
                    assert(amps_view(pre)[i as int] == cur0[i as int]);
                    lemma_sum_element(cur0, 0, len as int, i as int);
                    lemma_coord_bound(cur0[i as int], 0x1_0000_0000);
                    assert(cur0[i as int].0 % 2 == 0 && cur0[i as int].1 % 2 == 0);
                }
                let na = Amplitude::new(half_i64(a.re), half_i64(a.im));
                self.amps[i] = na;
                proof {
                    assert(amps_view(self.amps@)[i as int] == halve(cur0)[i as int]);
                    assert forall|kk: int| 0 <= kk < len implies #[trigger] amps_view(
                        self.amps@,
                    )[kk] == (if kk < i + 1 {
                        halve(cur0)[kk]
                    } else {
                        cur0[kk]
                    }) by {
                        if kk != i {
                            assert(self.amps@[kk] == pre[kk]);
                            assert(amps_view(self.amps@)[kk] == amps_view(pre)[kk]);
                        }
                    }
                }
                i = i + 1;
            }
            proof {
                assert(amps_view(self.amps@) =~= halve(cur0));
                assert(canon(cur0, k) == canon(halve(cur0), (k - 2) as nat));
                assert(norm_sum(halve(cur0)) == pow2((k - 2) as nat));
            }
            self.shift = self.shift - 2;
        }
        proof {
            assert(!all_even(self@.amps));
            assert(canon(self@.amps, self@.shift) == (self@.amps, self@.shift));
        }
    }

    /// Collapse the register to the classical basis state `outcome`.
    fn collapse_to(&mut self, outcome: usize)
        requires
            outcome < old(self)@.amps.len(),
        ensures
            final(self)@.qubits == old(self)@.qubits,
            final(self)@.shift == 0,
            final(self)@.amps == basis(old(self)@.amps.len(), outcome as int),
    {
        let len = self.amps.len();
        let mut i: usize = 0;
        while i < len
            invariant
                self.num_qubits == old(self).num_qubits,
                self.amps@.len() == len,
                i <= len,
                outcome < len,
                forall|k: int|
                    0 <= k < i ==> #[trigger] self.amps@[k] == (Amplitude { re: 0, im: 0 }),
            decreases len - i,
        {
            self.amps[i] = Amplitude::new(0, 0);
            i = i + 1;
        }
        self.amps[outcome] = Amplitude::new(1, 0);
        self.shift = 0;
        proof {
            assert(self@.amps =~= basis(len as nat, outcome as int));
        }
    }

    /// Projective measurement of all qubits, driven by an injected 64-bit
    /// sample standing for the real number `sample / 2^64` in `[0, 1)`.
    /// The outcome is the smallest basis index whose cumulative probability
    /// exceeds that number (inverse-CDF sampling); the register then
    /// collapses to exactly that basis state, so reading `probabilities()`
    /// right after gives one at the outcome and zero everywhere else.  With
    /// the sample fixed, the outcome is fully determined by the state.
    pub fn measure_with_sample(&mut self, sample: u64) -> (r: usize)
        requires
            old(self).wf(),
        ensures
            final(self).wf(),
            r < old(self)@.amps.len(),
            outcome_at(old(self)@.amps, old(self)@.shift, sample, r as int),
            nsq(old(self)@.amps[r as int]) > 0,
            final(self)@.qubits == old(self)@.qubits,
            final(self)@.shift == 0,
            final(self)@.amps == basis(old(self)@.amps.len(), r as int),
    {
        let ghost orig = old(self)@.amps;
        let ghost k0 = old(self)@.shift;
        let ghost sc = pow2((64 - k0) as nat) as int;
        let len = self.amps.len();
        proof {
            lemma2_to64();
            lemma2_to64_rest();
            if k0 < 62 {
                lemma_pow2_strictly_increases(k0, 62);
            }
            if ((64 - k0) as nat) < 64 {
                lemma_pow2_strictly_increases((64 - k0) as nat, 64);
            }
            assert(pow2((64 - k0) as nat) <= pow2(64));
        }
        let scale_exp: u32 = 64 - self.shift;
        let scale = pow2_u128(scale_exp);
        let mut acc: u64 = 0;
        let mut i: usize = 0;
        while i < len
            invariant
                old(self).wf(),
                self == old(self),
                orig == old(self)@.amps,
                k0 == old(self)@.shift,
                len == orig.len(),
                i <= len,
                acc == cum(orig, i as int),
                0 <= acc <= pow2(k0),
                scale == pow2((64 - k0) as nat),
                scale <= 0x1_0000_0000_0000_0000u128,
                sc == pow2((64 - k0) as nat) as int,
                pow2(k0) <= pow2(62),
                pow2(62) == 0x4000_0000_0000_0000,
                pow2(64) == 0x1_0000_0000_0000_0000,
                forall|j: int| 1 <= j <= i ==> #[trigger] cum(orig, j) * sc <= sample,
            decreases len - i,
        {
            let p = self.amps[i].norm_sqr();
            proof {
                lemma_sum_element(orig, 0, len as int, i as int);
                lemma_sum_concat(orig, 0, i as int, i + 1);
                assert(sum_range(orig, i + 1, i + 1) == 0);
                assert(sum_range(orig, i as int, i + 1) == nsq(orig[i as int]));
                assert(cum(orig, i + 1) == cum(orig, i as int) + nsq(orig[i as int]));
                lemma_sum_concat(orig, 0, i + 1, len as int);
                lemma_sum_nonneg(orig, i + 1, len as int);
                assert(cum(orig, i + 1) <= norm_sum(orig));
                assert(p as int == nsq(orig[i as int]));
            }
            let p64 = p as u64;
            let newacc = acc + p64;
            proof {
                assert((newacc as u128) * scale <= u128::MAX) by (nonlinear_arith)
                    requires
                        newacc <= 0x4000_0000_0000_0000u128,
                        scale <= 0x1_0000_0000_0000_0000u128,
                ;
            }
            if (newacc as u128) * scale > sample as u128 {
                proof {
                    assert(cum(orig, i + 1) * sc > sample);
                    if i > 0 {
                        assert(cum(orig, i as int) * sc <= sample);
                        assert(cum(orig, i + 1) > cum(orig, i as int));
                        assert(nsq(orig[i as int]) > 0);
                    } else {
                        assert(cum(orig, 0) == 0);
                        assert(cum(orig, 1) * sc > sample >= 0);
                        assert(nsq(orig[i as int]) > 0);
                    }
                    assert(outcome_at(orig, k0, sample, i as int));
                }
                let outcome = i;
                self.collapse_to(outcome);
                proof {
                    lemma_basis_sum_range(len as nat, outcome as int, 0, len as int);
                    lemma2_to64();
                    assert(self@.amps[outcome as int] == (1int, 0int));
                    assert(!all_even(self@.amps));
                }
                return outcome;
            }
            acc = newacc;
            i = i + 1;
        }
        proof {
            vstd::arithmetic::power2::lemma_pow2_adds(k0, (64 - k0) as nat);
            assert(cum(orig, len as int) == norm_sum(orig));
            assert(cum(orig, len as int) * sc <= sample);
            assert(pow2(k0) * sc == pow2(64));
            assert(sample < pow2(64));
            assert(false);
        }
        vstd::pervasive::unreached()
    }

    /// Projective measurement of all qubits with a fresh random draw.  The
    /// outcome is an index of positive probability; the register collapses
    /// to exactly that basis state.
    pub fn measure(&mut self) -> (r: usize)
        requires
            old(self).wf(),
        ensures
            final(self).wf(),
            r < old(self)@.amps.len(),
            nsq(old(self)@.amps[r as int]) > 0,
            final(self)@.qubits == old(self)@.qubits,
            final(self)@.shift == 0,
            final(self)@.amps == basis(old(self)@.amps.len(), r as int),
    {
        let sample = crate::rng::draw_u64();
        self.measure_with_sample(sample)
    }

    /// Apply one gate, mutating the register in place.  The action on the
    /// model is exactly `apply_gate_spec`; in particular the squared norms
    /// still sum to `2^shift` afterwards, so every gate preserves the total
    /// probability (unitarity).
    ///
    /// A Hadamard asks for `shift < MAX_SHIFT` so that the grown exponent
    /// still fits the representation; `shift` never exceeds the number of
    /// qubits in practice, and callers can check `shift()` beforehand.
    pub fn apply_gate(&mut self, gate: Gate)
        requires
            old(self).wf(),
            gate.wf(old(self)@.qubits),
            (gate matches Gate::H(_)) ==> old(self)@.shift < MAX_SHIFT,
        ensures
            final(self).wf(),
            final(self)@ == apply_gate_spec(old(self)@, gate),
            final(self)@.qubits == old(self)@.qubits,
            final(self)@.shift <= old(self)@.shift + 1,
    {
        match gate {
            Gate::H(q) => self.apply_h_exec(q),
            Gate::X(q) => self.apply_x_exec(q),
            Gate::CX(c, t) => self.apply_cx_exec(c, t),
        }
    }
}

/// Whether every coordinate of every amplitude is even.
fn all_even_exec(v: &Vec<Amplitude>) -> (b: bool)
    ensures
        b == all_even(amps_view(v@)),
{
    let len = v.len();
    let mut i: usize = 0;
    while i < len
        invariant
            i <= len,
            len == v@.len(),
            forall|k: int|
                0 <= k < i ==> (#[trigger] amps_view(v@)[k]).0 % 2 == 0 && amps_view(v@)[k].1 % 2
                    == 0,
        decreases len - i,
    {
        let a = v[i];
        let re_even = is_even_i64(a.re);
        let im_even = is_even_i64(a.im);
        if !re_even || !im_even {
            proof {
                assert(amps_view(v@)[i as int] == (a.re as int, a.im as int));
                assert(!all_even(amps_view(v@)));
            }
            return false;
        }
        i = i + 1;
    }
    true
}

} // verus!
