//! The mathematical model of a qubit register.
//!
//! A register of `n` qubits is a sequence of `2^n` complex amplitudes.
//! Under the gates of this simulator every amplitude keeps the shape
//! `(a + b*i) / sqrt(2)^k` with integer `a`, `b` and one exponent `k` shared
//! by the whole register, so the model is a sequence of integer pairs plus
//! that exponent.  The representation is kept reduced: whenever every
//! coordinate is even the whole register is halved and the exponent drops by
//! two.  A reduced representation of a given complex vector is unique, so
//! the involution of each gate holds as an exact equality.

use vstd::prelude::*;

verus! {

use vstd::arithmetic::power2::pow2;
use crate::amplitude::Amplitude;
use crate::index::bit;
use crate::index::flipped;

/// Abstract state of a register.
pub ghost struct QState {
    /// Number of qubits; the register has `pow2(qubits)` entries.
    pub qubits: nat,
    /// Integer coordinates of the amplitudes, indexed by basis state.
    pub amps: Seq<(int, int)>,
    /// The shared scaling exponent: entry `v` denotes `v / sqrt(2)^shift`.
    pub shift: nat,
}

/// Squared norm of one amplitude.
pub open spec fn nsq(v: (int, int)) -> int {
    v.0 * v.0 + v.1 * v.1
}

/// Sum of the squared norms of `s[lo..hi]`.
pub open spec fn sum_range(s: Seq<(int, int)>, lo: int, hi: int) -> int
    decreases hi - lo,
{
    if lo >= hi {
        0
    } else {
        nsq(s[lo]) + sum_range(s, lo + 1, hi)
    }
}

/// Sum of the squared norms of the whole register.
pub open spec fn norm_sum(s: Seq<(int, int)>) -> int {
    sum_range(s, 0, s.len() as int)
}

/// Every coordinate of every entry is even.
pub open spec fn all_even(s: Seq<(int, int)>) -> bool {
    forall|i: int| 0 <= i < s.len() ==> (#[trigger] s[i]).0 % 2 == 0 && s[i].1 % 2 == 0
}

/// Every coordinate halved.
pub open spec fn halve(s: Seq<(int, int)>) -> Seq<(int, int)> {
    Seq::new(s.len(), |i: int| (s[i].0 / 2, s[i].1 / 2))
}

/// Every coordinate doubled.
pub open spec fn doubled(s: Seq<(int, int)>) -> Seq<(int, int)> {
    Seq::new(s.len(), |i: int| (2 * s[i].0, 2 * s[i].1))
}

/// Every coordinate multiplied by `2^m`.
pub open spec fn scaled(s: Seq<(int, int)>, m: nat) -> Seq<(int, int)>
    decreases m,
{
    if m == 0 {
        s
    } else {
        doubled(scaled(s, (m - 1) as nat))
    }
}

/// The reduced form of a register: halve while every coordinate is even.
/// Each halving lowers the exponent by two, since halving every coordinate
/// divides the squared norm by four.
pub open spec fn canon(s: Seq<(int, int)>, k: nat) -> (Seq<(int, int)>, nat)
    decreases k,
{
    if all_even(s) && k >= 2 {
        canon(halve(s), (k - 2) as nat)
    } else {
        (s, k)
    }
}

/// Hadamard on qubit `q`: each pair of indices differing in bit `q` turns
/// `(a0, a1)` into `(a0 + a1, a0 - a1)`, and the register-wide exponent
/// grows by one (the common factor `1/sqrt(2)`).
pub open spec fn h_step(s: Seq<(int, int)>, q: nat) -> Seq<(int, int)> {
    Seq::new(
        s.len(),
        |i: int|
            if bit(i, q) == 0 {
                (s[i].0 + s[flipped(i, q)].0, s[i].1 + s[flipped(i, q)].1)
            } else {
                (s[flipped(i, q)].0 - s[i].0, s[flipped(i, q)].1 - s[i].1)
            },
    )
}

/// Pauli-X on qubit `q`: each pair of indices differing in bit `q` swaps.
pub open spec fn x_step(s: Seq<(int, int)>, q: nat) -> Seq<(int, int)> {
    Seq::new(s.len(), |i: int| s[flipped(i, q)])
}

/// Controlled-X: where bit `c` is set, the amplitudes of the pair of
/// indices differing in bit `t` swap; everywhere else nothing moves.
pub open spec fn cx_step(s: Seq<(int, int)>, c: nat, t: nat) -> Seq<(int, int)> {
    Seq::new(s.len(), |i: int| if bit(i, c) == 1 {
        s[flipped(i, t)]
    } else {
        s[i]
    })
}

/// The classical basis state `idx`: amplitude one there, zero elsewhere.
pub open spec fn basis(len: nat, idx: int) -> Seq<(int, int)> {
    Seq::new(len, |i: int| if i == idx {
        (1int, 0int)
    } else {
        (0int, 0int)
    })
}

impl QState {
    /// Well-formedness: the register has `2^qubits` entries, its squared
    /// norms sum to exactly `2^shift` (so the probabilities sum to one),
    /// and the representation is reduced.
    pub open spec fn wf(self) -> bool {
        &&& self.qubits >= 1
        &&& self.amps.len() == pow2(self.qubits)
        &&& norm_sum(self.amps) == pow2(self.shift)
        &&& !all_even(self.amps)
    }
}

/// Hadamard on qubit `q`, followed by reduction.
pub open spec fn apply_h(st: QState, q: nat) -> QState {
    QState {
        qubits: st.qubits,
        amps: canon(h_step(st.amps, q), st.shift + 1).0,
        shift: canon(h_step(st.amps, q), st.shift + 1).1,
    }
}

/// Pauli-X on qubit `q`.  A permutation: the exponent is unchanged and no
/// reduction can become possible.
pub open spec fn apply_x(st: QState, q: nat) -> QState {
    QState { qubits: st.qubits, amps: x_step(st.amps, q), shift: st.shift }
}

/// Controlled-X with control `c` and target `t`.
pub open spec fn apply_cx(st: QState, c: nat, t: nat) -> QState {
    QState { qubits: st.qubits, amps: cx_step(st.amps, c, t), shift: st.shift }
}

/// Cumulative squared norm of the first `i` entries, used by measurement.
pub open spec fn cum(s: Seq<(int, int)>, i: int) -> int {
    sum_range(s, 0, i)
}

/// `sample` is a 64-bit draw standing for the real number `sample / 2^64`
/// in `[0, 1)`.  Index `i` is the measurement outcome exactly when it is
/// the smallest index whose cumulative probability exceeds that number,
/// i.e. `cum(i+1) / 2^shift > sample / 2^64`, compared here with both
/// sides multiplied by `2^64`.
pub open spec fn outcome_at(s: Seq<(int, int)>, shift: nat, sample: u64, i: int) -> bool {
    &&& cum(s, i + 1) * pow2((64 - shift) as nat) > sample
    &&& forall|j: int| 0 <= j < i ==> #[trigger] cum(s, j + 1) * pow2((64 - shift) as nat)
        <= sample
}

/// The basis index whose set bits are exactly the listed qubits.  Each
/// listed qubit's bit is set once; naming a qubit twice changes nothing.
pub open spec fn excited_index(states: Seq<usize>) -> int
    decreases states.len(),
{
    if states.len() == 0 {
        0
    } else {
        let rest = excited_index(states.drop_last());
        let q = states.last() as nat;
        if bit(rest, q) == 0 {
            rest + pow2(q)
        } else {
            rest
        }
    }
}

/// Sum of a sequence of probability numerators.
pub open spec fn total64(s: Seq<u64>) -> int
    decreases s.len(),
{
    if s.len() == 0 {
        0
    } else {
        total64(s.drop_last()) + s.last()
    }
}

/// The integer coordinates of a vector of concrete amplitudes.
pub open spec fn amps_view(s: Seq<Amplitude>) -> Seq<(int, int)> {
    Seq::new(s.len(), |i: int| (s[i].re as int, s[i].im as int))
}

} // verus!
