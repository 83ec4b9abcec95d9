//! Laws of the simulator, as public proof functions: every gate keeps the
//! squared norm of the register (unitarity) and each of the three gates is
//! its own inverse.

use vstd::prelude::*;

verus! {

use vstd::arithmetic::power2::pow2;
use vstd::arithmetic::power2::lemma_pow2_pos;
use vstd::arithmetic::power2::lemma_pow2_unfold;
use vstd::arithmetic::div_mod::lemma_div_of0;
use vstd::arithmetic::div_mod::lemma_fundamental_div_mod;
use vstd::arithmetic::div_mod::lemma_fundamental_div_mod_converse;
use crate::gate::Gate;
use crate::gate::apply_gate_spec;
use crate::index::bit;
use crate::index::flipped;
use crate::index::lemma_bit01;
use crate::index::lemma_flip_props;
use crate::model::QState;
use crate::model::all_even;
use crate::model::apply_cx;
use crate::model::apply_h;
use crate::model::apply_x;
use crate::model::basis;
use crate::model::canon;
use crate::model::cx_step;
use crate::model::doubled;
use crate::model::excited_index;
use crate::model::h_step;
use crate::model::halve;
use crate::model::norm_sum;
use crate::model::nsq;
use crate::model::scaled;
use crate::model::x_step;
use crate::sums::lemma_canon_props_basic;
use crate::sums::lemma_paired_sum;

/// Pauli-X on any qubit is a permutation of the amplitudes: the squared
/// norm is untouched and an odd coordinate stays somewhere in the register.
pub proof fn lemma_x_step_props(s: Seq<(int, int)>, q: nat, n: nat)
    requires
        q < n,
        s.len() == pow2(n),
    ensures
        norm_sum(x_step(s, q)) == norm_sum(s),
        !all_even(s) ==> !all_even(x_step(s, q)),
{
    let t = x_step(s, q);
    let m = pow2(q) as int;
    assert forall|i: int| 0 <= i < s.len() && bit(i, q) == 0 && i + pow2(q) < s.len() implies nsq(
        t[i],
    ) + nsq(t[i + pow2(q)]) == 1 * (nsq(#[trigger] s[i]) + nsq(s[i + pow2(q)])) by {
        lemma_flip_props(i, q, n);
        assert(t[i] == s[i + m]);
        assert(t[i + m] == s[i]);
    }
    lemma_paired_sum(s, t, q, n, 1);
    assert(1 * norm_sum(s) == norm_sum(s));
    if !all_even(s) {
        assert(exists|i: int|
            0 <= i < s.len() && !((#[trigger] s[i]).0 % 2 == 0 && s[i].1 % 2 == 0));
        let i = choose|i: int|
            0 <= i < s.len() && !((#[trigger] s[i]).0 % 2 == 0 && s[i].1 % 2 == 0);
        lemma_flip_props(i, q, n);
        let f = flipped(i, q);
        assert(t[f] == s[i]);
        assert(!((t[f]).0 % 2 == 0 && (t[f]).1 % 2 == 0));
        assert(!all_even(t));
    }
}

/// Controlled-X permutes amplitudes within the half of the register where
/// the control bit is set: squared norm and reducedness are untouched.
pub proof fn lemma_cx_step_props(s: Seq<(int, int)>, c: nat, t: nat, n: nat)
    requires
        c < n,
        t < n,
        c != t,
        s.len() == pow2(n),
    ensures
        norm_sum(cx_step(s, c, t)) == norm_sum(s),
        !all_even(s) ==> !all_even(cx_step(s, c, t)),
{
    let u = cx_step(s, c, t);
    let m = pow2(t) as int;
    assert forall|i: int| 0 <= i < s.len() && bit(i, t) == 0 && i + pow2(t) < s.len() implies nsq(
        u[i],
    ) + nsq(u[i + pow2(t)]) == 1 * (nsq(#[trigger] s[i]) + nsq(s[i + pow2(t)])) by {
        lemma_flip_props(i, t, n);
        lemma_bit01(i, c);
        assert(bit(i + m, c) == bit(i, c));
        if bit(i, c) == 1 {
            assert(u[i] == s[i + m]);
            assert(u[i + m] == s[i]);
        } else {
            assert(u[i] == s[i]);
            assert(u[i + m] == s[i + m]);
        }
    }
    lemma_paired_sum(s, u, t, n, 1);
    assert(1 * norm_sum(s) == norm_sum(s));
    if !all_even(s) {
        assert(exists|i: int|
            0 <= i < s.len() && !((#[trigger] s[i]).0 % 2 == 0 && s[i].1 % 2 == 0));
        let i = choose|i: int|
            0 <= i < s.len() && !((#[trigger] s[i]).0 % 2 == 0 && s[i].1 % 2 == 0);
        lemma_bit01(i, c);
        if bit(i, c) == 0 {
            assert(u[i] == s[i]);
            assert(!all_even(u));
        } else {
            lemma_flip_props(i, t, n);
            let f = flipped(i, t);
            assert(bit(f, c) == 1);
            assert(u[f] == s[i]);
            assert(!all_even(u));
        }
    }
}

/// One Hadamard pass doubles the squared norm of the register: together
/// with the exponent growing by one, the probabilities are untouched.
pub proof fn lemma_h_step_sum(s: Seq<(int, int)>, q: nat, n: nat)
    requires
        q < n,
        s.len() == pow2(n),
    ensures
        norm_sum(h_step(s, q)) == 2 * norm_sum(s),
{
    let t = h_step(s, q);
    let m = pow2(q) as int;
    assert forall|i: int| 0 <= i < s.len() && bit(i, q) == 0 && i + pow2(q) < s.len() implies nsq(
        t[i],
    ) + nsq(t[i + pow2(q)]) == 2 * (nsq(#[trigger] s[i]) + nsq(s[i + pow2(q)])) by {
        lemma_flip_props(i, q, n);
        assert(t[i] == (s[i].0 + s[i + m].0, s[i].1 + s[i + m].1));
        assert(t[i + m] == (s[i].0 - s[i + m].0, s[i].1 - s[i + m].1));
        let a = s[i].0;
        let b = s[i].1;
        let x = s[i + m].0;
        let y = s[i + m].1;
        assert((a + x) * (a + x) + (b + y) * (b + y) + ((a - x) * (a - x) + (b - y) * (b - y))
            == 2 * ((a * a + b * b) + (x * x + y * y))) by (nonlinear_arith);
    }
    lemma_paired_sum(s, t, q, n, 2);
}

/// Pauli-X twice on the same qubit is the identity, entry for entry.
pub proof fn lemma_x_step_twice(s: Seq<(int, int)>, q: nat, n: nat)
    requires
        q < n,
        s.len() == pow2(n),
    ensures
        x_step(x_step(s, q), q) == s,
{
    let t = x_step(s, q);
    let t2 = x_step(t, q);
    assert forall|i: int| 0 <= i < s.len() implies #[trigger] t2[i] == s[i] by {
        lemma_flip_props(i, q, n);
        assert(t2[i] == t[flipped(i, q)]);
        assert(t[flipped(i, q)] == s[i]);
    }
    assert(t2 =~= s);
}

/// Controlled-X twice with the same control and target is the identity.
pub proof fn lemma_cx_step_twice(s: Seq<(int, int)>, c: nat, t: nat, n: nat)
    requires
        c < n,
        t < n,
        c != t,
        s.len() == pow2(n),
    ensures
        cx_step(cx_step(s, c, t), c, t) == s,
{
    let u = cx_step(s, c, t);
    let u2 = cx_step(u, c, t);
    assert forall|i: int| 0 <= i < s.len() implies #[trigger] u2[i] == s[i] by {
        lemma_flip_props(i, t, n);
        if bit(i, c) == 1 {
            assert(bit(flipped(i, t), c) == 1);
            assert(u2[i] == u[flipped(i, t)]);
            assert(u[flipped(i, t)] == s[i]);
        } else {
            assert(u2[i] == u[i]);
            assert(u[i] == s[i]);
        }
    }
    assert(u2 =~= s);
}

/// Hadamard twice, before any reduction, doubles every entry.
proof fn lemma_h_step_twice(s: Seq<(int, int)>, q: nat, n: nat)
    requires
        q < n,
        s.len() == pow2(n),
    ensures
        h_step(h_step(s, q), q) == doubled(s),
{
    let t = h_step(s, q);
    let t2 = h_step(t, q);
    assert forall|i: int| 0 <= i < s.len() implies #[trigger] t2[i] == doubled(s)[i] by {
        lemma_flip_props(i, q, n);
        lemma_bit01(i, q);
        let f = flipped(i, q);
        if bit(i, q) == 0 {
            assert(t[i] == (s[i].0 + s[f].0, s[i].1 + s[f].1));
            assert(t[f] == (s[i].0 - s[f].0, s[i].1 - s[f].1));
            assert(t2[i] == (t[i].0 + t[f].0, t[i].1 + t[f].1));
        } else {
            assert(t[f] == (s[f].0 + s[i].0, s[f].1 + s[i].1));
            assert(t[i] == (s[f].0 - s[i].0, s[f].1 - s[i].1));
            assert(t2[i] == (t[f].0 - t[i].0, t[f].1 - t[i].1));
        }
    }
    assert(t2 =~= doubled(s));
}

/// The Hadamard pass commutes with doubling every entry.
proof fn lemma_h_step_doubled(s: Seq<(int, int)>, q: nat, n: nat)
    requires
        q < n,
        s.len() == pow2(n),
    ensures
        h_step(doubled(s), q) == doubled(h_step(s, q)),
{
    let d = doubled(s);
    assert forall|i: int| 0 <= i < s.len() implies #[trigger] h_step(d, q)[i] == doubled(
        h_step(s, q),
    )[i] by {
        lemma_flip_props(i, q, n);
    }
    assert(h_step(d, q) =~= doubled(h_step(s, q)));
}

proof fn lemma_scaled_len(s: Seq<(int, int)>, m: nat)
    ensures
        scaled(s, m).len() == s.len(),
    decreases m,
{
    if m > 0 {
        lemma_scaled_len(s, (m - 1) as nat);
    }
}

/// The Hadamard pass commutes with scaling by any power of two.
proof fn lemma_h_step_scaled(s: Seq<(int, int)>, q: nat, n: nat, m: nat)
    requires
        q < n,
        s.len() == pow2(n),
    ensures
        h_step(scaled(s, m), q) == scaled(h_step(s, q), m),
    decreases m,
{
    if m > 0 {
        lemma_h_step_scaled(s, q, n, (m - 1) as nat);
        lemma_scaled_len(s, (m - 1) as nat);
        lemma_h_step_doubled(scaled(s, (m - 1) as nat), q, n);
    }
}

/// Doubling makes every coordinate even.
proof fn lemma_doubled_even(s: Seq<(int, int)>)
    ensures
        all_even(doubled(s)),
{
    assert forall|i: int| 0 <= i < doubled(s).len() implies (#[trigger] doubled(s)[i]).0 % 2 == 0
        && doubled(s)[i].1 % 2 == 0 by {
        lemma_fundamental_div_mod_converse(2 * s[i].0, 2, s[i].0, 0);
        lemma_fundamental_div_mod_converse(2 * s[i].1, 2, s[i].1, 0);
    }
}

/// Halving undoes doubling.
proof fn lemma_halve_doubled(s: Seq<(int, int)>)
    ensures
        halve(doubled(s)) == s,
{
    assert forall|i: int| 0 <= i < s.len() implies #[trigger] halve(doubled(s))[i] == s[i] by {
        lemma_fundamental_div_mod_converse(2 * s[i].0, 2, s[i].0, 0);
        lemma_fundamental_div_mod_converse(2 * s[i].1, 2, s[i].1, 0);
    }
    assert(halve(doubled(s)) =~= s);
}

/// Doubling an all-even register back from its halves.
proof fn lemma_doubled_halve(s: Seq<(int, int)>)
    requires
        all_even(s),
    ensures
        doubled(halve(s)) == s,
{
    assert forall|i: int| 0 <= i < s.len() implies #[trigger] doubled(halve(s))[i] == s[i] by {
        lemma_fundamental_div_mod(s[i].0, 2);
        lemma_fundamental_div_mod(s[i].1, 2);
    }
    assert(doubled(halve(s)) =~= s);
}

/// Doubling is injective.
proof fn lemma_doubled_inj(a: Seq<(int, int)>, b: Seq<(int, int)>)
    requires
        doubled(a) == doubled(b),
        a.len() == b.len(),
    ensures
        a == b,
{
    assert forall|i: int| 0 <= i < a.len() implies #[trigger] a[i] == b[i] by {
        assert(doubled(a)[i] == doubled(b)[i]);
    }
    assert(a =~= b);
}

/// A register scaled by at least one power of two is all even.
proof fn lemma_scaled_even(s: Seq<(int, int)>, m: nat)
    requires
        m >= 1,
    ensures
        all_even(scaled(s, m)),
{
    lemma_doubled_even(scaled(s, (m - 1) as nat));
}

/// What reduction does, structurally: the input is the reduced form scaled
/// by some power of two, and the exponent dropped by twice that power.
proof fn lemma_canon_rep(s: Seq<(int, int)>, k: nat) -> (m: nat)
    ensures
        s == scaled(canon(s, k).0, m),
        k == canon(s, k).1 + 2 * m,
        canon(s, k).0.len() == s.len(),
    decreases k,
{
    if all_even(s) && k >= 2 {
        let m0 = lemma_canon_rep(halve(s), (k - 2) as nat);
        lemma_doubled_halve(s);
        assert(scaled(canon(s, k).0, m0 + 1) == doubled(scaled(canon(s, k).0, m0)));
        m0 + 1
    } else {
        assert(scaled(canon(s, k).0, 0) == s);
        0
    }
}

/// Hadamard on the same qubit twice is the identity on well-formed states:
/// the interleaved reductions bring the register back to exactly its
/// original representation.
pub proof fn lemma_h_involution(st: QState, q: nat)
    requires
        st.wf(),
        q < st.qubits,
    ensures
        apply_h(apply_h(st, q), q) == st,
{
    let n = st.qubits;
    let v = st.amps;
    let k = st.shift;
    let t1 = h_step(v, q);
    let m = lemma_canon_rep(t1, k + 1);
    let w = canon(t1, k + 1).0;
    let j = canon(t1, k + 1).1;
    assert(w.len() == pow2(n));
    let t2 = h_step(w, q);
    lemma_h_step_twice(v, q, n);
    lemma_h_step_scaled(w, q, n, m);
    assert(h_step(t1, q) == doubled(v));
    assert(scaled(t2, m) == doubled(v));
    lemma_scaled_len(t2, m);
    if m == 0 {
        assert(t2 == doubled(v));
        assert(j == k + 1);
        lemma_doubled_even(v);
        lemma_halve_doubled(v);
        assert(canon(t2, j + 1) == canon(v, k));
        assert(!(all_even(v) && k >= 2));
        assert(canon(v, k) == (v, k));
    } else if m == 1 {
        assert(scaled(t2, 1) == doubled(scaled(t2, 0)));
        lemma_doubled_inj(t2, v);
        assert(t2 == v);
        assert(j + 1 == k);
        assert(!(all_even(v) && k >= 2));
        assert(canon(t2, j + 1) == (v, k));
    } else {
        assert(scaled(t2, m) == doubled(scaled(t2, (m - 1) as nat)));
        lemma_scaled_len(t2, (m - 1) as nat);
        lemma_doubled_inj(scaled(t2, (m - 1) as nat), v);
        assert(v == scaled(t2, (m - 1) as nat));
        lemma_scaled_even(t2, (m - 1) as nat);
        assert(false);
    }
    assert(apply_h(apply_h(st, q), q) == st);
}

/// Pauli-X on the same qubit twice is the identity.
pub proof fn lemma_x_involution(st: QState, q: nat)
    requires
        q < st.qubits,
        st.amps.len() == pow2(st.qubits),
    ensures
        apply_x(apply_x(st, q), q) == st,
{
    lemma_x_step_twice(st.amps, q, st.qubits);
}

/// Controlled-X with the same control and target twice is the identity.
pub proof fn lemma_cx_involution(st: QState, c: nat, t: nat)
    requires
        c < st.qubits,
        t < st.qubits,
        c != t,
        st.amps.len() == pow2(st.qubits),
    ensures
        apply_cx(apply_cx(st, c, t), c, t) == st,
{
    lemma_cx_step_twice(st.amps, c, t, st.qubits);
}

/// Unitarity, stated of the model: every well-formed gate applied to a
/// well-formed state yields a well-formed state — in particular the squared
/// norms still sum to exactly `2^shift`, so the probabilities still sum to
/// exactly one.
pub proof fn lemma_gate_preserves_wf(st: QState, g: Gate)
    requires
        st.wf(),
        g.wf(st.qubits),
    ensures
        apply_gate_spec(st, g).wf(),
        apply_gate_spec(st, g).qubits == st.qubits,
{
    match g {
        Gate::H(q) => {
            lemma_h_step_sum(st.amps, q as nat, st.qubits);
            lemma_pow2_unfold(st.shift + 1);
            lemma_canon_props_basic(h_step(st.amps, q as nat), st.shift + 1);
        },
        Gate::X(q) => {
            lemma_x_step_props(st.amps, q as nat, st.qubits);
        },
        Gate::CX(c, t) => {
            lemma_cx_step_props(st.amps, c as nat, t as nat, st.qubits);
        },
    }
}

/// The basis index built by `from_states` reads back as promised: bit `q`
/// of `excited_index(states)` is one exactly when `q` is listed in
/// `states`, and the index lies in `[0, 2^n)`.
pub proof fn lemma_excited_index_props(states: Seq<usize>, n: nat)
    requires
        forall|j: int| 0 <= j < states.len() ==> (#[trigger] states[j] as nat) < n,
        n >= 1,
    ensures
        0 <= excited_index(states) < pow2(n),
        forall|q: usize|
            (q as nat) < n ==> (#[trigger] bit(excited_index(states), q as nat) == 1
                <==> states.contains(q)),
    decreases states.len(),
{
    lemma_pow2_pos(n);
    if states.len() == 0 {
        assert forall|q: usize| (q as nat) < n implies #[trigger] bit(0, q as nat) == 0 by {
            lemma_pow2_pos(q as nat);
            lemma_div_of0(pow2(q as nat) as int);
        }
    } else {
        let prefix = states.drop_last();
        let q0 = states.last() as nat;
        let rest = excited_index(prefix);
        let idx = excited_index(states);
        lemma_excited_index_props(prefix, n);
        lemma_bit01(rest, q0);
        lemma_flip_props(rest, q0, n);
        if bit(rest, q0) == 0 {
            assert(idx == flipped(rest, q0));
        } else {
            assert(idx == rest);
            assert(prefix.contains(q0 as usize));
        }
        assert(0 <= idx < pow2(n));
        assert forall|q: usize| (q as nat) < n implies (#[trigger] bit(idx, q as nat) == 1
            <==> states.contains(q)) by {
            assert(states[states.len() - 1] == states.last());
            if (q as nat) == q0 {
                assert(bit(idx, q0) == 1);
                assert(states.contains(q));
            } else {
                assert(bit(idx, q as nat) == bit(rest, q as nat));
                if prefix.contains(q) {
                    let w = choose|w: int| 0 <= w < prefix.len() && prefix[w] == q;
                    assert(states[w] == q);
                    assert(states.contains(q));
                }
                if states.contains(q) {
                    let w = choose|w: int| 0 <= w < states.len() && states[w] == q;
                    assert(w < states.len() - 1);
                    assert(prefix[w] == q);
                    assert(prefix.contains(q));
                }
            }
        }
    }
}

/// After a collapse to basis state `idx`, the probability of `idx` is one
/// and every other probability is zero.
pub proof fn lemma_basis_probabilities(len: nat, idx: int)
    ensures
        forall|j: int|
            0 <= j < len ==> nsq(#[trigger] basis(len, idx)[j]) == if j == idx {
                1int
            } else {
                0int
            },
{
}

} // verus!
