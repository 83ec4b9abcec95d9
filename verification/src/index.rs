//! Arithmetic on basis-state indices.
//!
//! A basis index `i` in `[0, 2^n)` encodes the classical value of every
//! qubit: bit `q` of `i` (qubit 0 is the least significant bit) is the value
//! of qubit `q`.  Gates pair up indices that differ in exactly one bit, so
//! this module defines reading one bit of an index and flipping it, and
//! proves how the two interact, purely with `/` and `%` so that no
//! bit-vector reasoning is needed elsewhere.

use vstd::prelude::*;

verus! {

use vstd::arithmetic::power2::pow2;
use vstd::arithmetic::power2::lemma_pow2_adds;
use vstd::arithmetic::power2::lemma_pow2_pos;
use vstd::arithmetic::power2::lemma_pow2_unfold;
use vstd::arithmetic::div_mod::lemma_fundamental_div_mod;
use vstd::arithmetic::div_mod::lemma_fundamental_div_mod_converse;
use vstd::arithmetic::div_mod::lemma_div_denominator;
use vstd::arithmetic::div_mod::lemma_mod_bound;
use vstd::arithmetic::div_mod::lemma_div_pos_is_pos;
use vstd::arithmetic::div_mod::lemma_hoist_over_denominator;
use vstd::arithmetic::div_mod::lemma_mod_multiples_vanish;
use vstd::arithmetic::div_mod::lemma_multiply_divide_lt;
use vstd::arithmetic::mul::lemma_mul_inequality;

/// Value (0 or 1) of bit `q` of the basis index `i`.
pub open spec fn bit(i: int, q: nat) -> int {
    (i / (pow2(q) as int)) % 2
}

/// The index that differs from `i` in exactly bit `q`.
pub open spec fn flipped(i: int, q: nat) -> int {
    if bit(i, q) == 1 {
        i - pow2(q)
    } else {
        i + pow2(q)
    }
}

pub proof fn lemma_bit01(i: int, q: nat)
    requires
        i >= 0,
    ensures
        bit(i, q) == 0 || bit(i, q) == 1,
{
    lemma_pow2_pos(q);
    lemma_div_pos_is_pos(i, pow2(q) as int);
    lemma_mod_bound(i / (pow2(q) as int), 2);
}

/// Building an index from its pieces around bit `q`: high part, the bit, low
/// part.
pub proof fn lemma_compose(g: int, b: int, j: int, q: nat)
    requires
        g >= 0,
        0 <= b <= 1,
        0 <= j < pow2(q),
    ensures
        ({
            let m = pow2(q) as int;
            let i = g * (2 * m) + b * m + j;
            i >= 0 && i / (2 * m) == g && i % (2 * m) == b * m + j && bit(i, q) == b && i % m == j
        }),
{
    let m = pow2(q) as int;
    let i = g * (2 * m) + b * m + j;
    lemma_pow2_pos(q);
    assert(0 <= b * m + j < 2 * m) by (nonlinear_arith)
        requires
            0 <= b <= 1,
            0 <= j < m,
            m >= 1,
    ;
    assert(i >= 0) by (nonlinear_arith)
        requires
            g >= 0,
            m >= 1,
            0 <= b * m + j,
            i == g * (2 * m) + b * m + j,
    ;
    lemma_fundamental_div_mod_converse(i, 2 * m, g, b * m + j);
    assert(i == (2 * g + b) * m + j) by (nonlinear_arith)
        requires
            i == g * (2 * m) + b * m + j,
    ;
    lemma_fundamental_div_mod_converse(i, m, 2 * g + b, j);
    lemma_fundamental_div_mod_converse(2 * g + b, 2, g, b);
}

/// Splitting an index into the same pieces.
pub proof fn lemma_decompose(i: int, q: nat)
    requires
        i >= 0,
    ensures
        ({
            let m = pow2(q) as int;
            let g = i / (2 * m);
            let b = bit(i, q);
            let j = i % m;
            i == g * (2 * m) + b * m + j && 0 <= j < m && 0 <= b <= 1 && 0 <= g
        }),
{
    let m = pow2(q) as int;
    lemma_pow2_pos(q);
    let g = i / (2 * m);
    let b = bit(i, q);
    let j = i % m;
    lemma_bit01(i, q);
    lemma_fundamental_div_mod(i, m);
    lemma_mod_bound(i, m);
    lemma_fundamental_div_mod(i / m, 2);
    lemma_div_denominator(i, m, 2);
    lemma_div_pos_is_pos(i, 2 * m);
    assert((2 * g + b) * m == g * (2 * m) + b * m) by (nonlinear_arith);
    assert(i == (2 * g + b) * m + j) by (nonlinear_arith)
        requires
            i == (i / m) * m + j,
            i / m == 2 * g + b,
    ;
}

/// Everything gate application needs about flipping bit `q` of an in-range
/// index: the result stays in range, has the opposite bit `q`, the same
/// every other bit, and flipping twice is the identity.
pub proof fn lemma_flip_props(i: int, q: nat, n: nat)
    requires
        q < n,
        0 <= i < pow2(n),
    ensures
        0 <= flipped(i, q) < pow2(n),
        bit(flipped(i, q), q) == 1 - bit(i, q),
        flipped(flipped(i, q), q) == i,
        bit(i, q) == 0 ==> flipped(i, q) == i + pow2(q),
        bit(i, q) == 1 ==> flipped(i, q) == i - pow2(q),
        forall|r: nat| r < n && r != q ==> #[trigger] bit(flipped(i, q), r) == bit(i, r),
{
    let m = pow2(q) as int;
    lemma_pow2_pos(q);
    lemma_decompose(i, q);
    let g = i / (2 * m);
    let b = bit(i, q);
    let j = i % m;
    let ii = flipped(i, q);
    assert(ii == g * (2 * m) + (1 - b) * m + j) by (nonlinear_arith)
        requires
            i == g * (2 * m) + b * m + j,
            0 <= b <= 1,
            (b == 1 ==> ii == i - m) && (b == 0 ==> ii == i + m),
    ;
    lemma_compose(g, 1 - b, j, q);
    assert(bit(ii, q) == 1 - b);
    // flipping back
    assert(flipped(ii, q) == i);
    // range: the high part is bounded because i < 2^n
    lemma_pow2_adds((n - q - 1) as nat, q + 1);
    lemma_pow2_unfold(q + 1);
    let hi = pow2((n - q - 1) as nat) as int;
    assert(pow2(n) as int == hi * (2 * m));
    assert(hi * (2 * m) == (2 * m) * hi) by (nonlinear_arith);
    lemma_multiply_divide_lt(i, 2 * m, hi);
    assert(g + 1 <= hi);
    lemma_mul_inequality(g + 1, hi, 2 * m);
    assert(ii < (g + 1) * (2 * m)) by (nonlinear_arith)
        requires
            ii == g * (2 * m) + (1 - b) * m + j,
            0 <= b <= 1,
            0 <= j < m,
            m >= 1,
    ;
    assert(ii >= 0);
    // other bits are untouched
    assert forall|r: nat| r < n && r != q implies #[trigger] bit(ii, r) == bit(i, r) by {
        lemma_other_bit(i, q, r, n);
    }
}

/// Flipping bit `q` leaves bit `r` unchanged when `r != q`.
proof fn lemma_other_bit(i: int, q: nat, r: nat, n: nat)
    requires
        q < n,
        r < n,
        r != q,
        0 <= i < pow2(n),
    ensures
        bit(flipped(i, q), r) == bit(i, r),
{
    let m = pow2(q) as int;
    let mr = pow2(r) as int;
    lemma_pow2_pos(q);
    lemma_pow2_pos(r);
    lemma_decompose(i, q);
    let b = bit(i, q);
    let ii = flipped(i, q);
    let s: int = if b == 1 {
        -1
    } else {
        1
    };
    assert(ii == i + s * m) by (nonlinear_arith)
        requires
            0 <= b <= 1,
            (b == 1 ==> ii == i - m) && (b == 0 ==> ii == i + m),
            (b == 1 ==> s == -1) && (b == 0 ==> s == 1),
    ;
    if r < q {
        // i +- 2^q shifts the quotient by an even amount: bit r unchanged.
        let e = pow2((q - r) as nat) as int;
        lemma_pow2_adds((q - r) as nat, r);
        assert(m == e * mr);
        lemma_hoist_over_denominator(i, s * e, pow2(r));
        assert(i / mr + s * e == (i + (s * e) * mr) / mr);
        assert((s * e) * mr == s * m) by (nonlinear_arith)
            requires
                m == e * mr,
        ;
        assert(ii / mr == i / mr + s * e);
        lemma_pow2_unfold((q - r) as nat);
        let e2 = pow2((q - r - 1) as nat) as int;
        assert(e == 2 * e2);
        lemma_mod_multiples_vanish(s * e2, i / mr, 2);
        assert(2 * (s * e2) + i / mr == i / mr + s * e) by (nonlinear_arith)
            requires
                e == 2 * e2,
    ;
        assert(bit(ii, r) == bit(i, r));
    } else {
        // r > q: the change happens inside the low r bits.
        let big_g = i / mr;
        let big_r = i % mr;
        lemma_fundamental_div_mod(i, mr);
        lemma_mod_bound(i, mr);
        lemma_div_pos_is_pos(i, mr);
        // bit q of i equals bit q of i % 2^r
        let f = pow2((r - q) as nat) as int;
        lemma_pow2_adds((r - q) as nat, q);
        assert(mr == f * m);
        lemma_hoist_over_denominator(big_r, big_g * f, pow2(q));
        assert(big_r / m + big_g * f == (big_r + (big_g * f) * m) / m);
        assert((big_g * f) * m == big_g * mr) by (nonlinear_arith)
            requires
                mr == f * m,
        ;
        assert(mr * big_g == big_g * mr) by (nonlinear_arith);
        assert(i == big_g * mr + big_r);
        assert(i / m == big_r / m + big_g * f);
        lemma_pow2_unfold((r - q) as nat);
        let f2 = pow2((r - q - 1) as nat) as int;
        assert(f == 2 * f2);
        lemma_mod_multiples_vanish(big_g * f2, big_r / m, 2);
        assert(2 * (big_g * f2) + big_r / m == big_r / m + big_g * f) by (nonlinear_arith)
            requires
                f == 2 * f2,
        ;
        assert(bit(i, q) == bit(big_r, q));
        // flipping bit q keeps the low part inside [0, 2^r)
        lemma_decompose(big_r, q);
        let gg = big_r / (2 * m);
        let b = bit(big_r, q);
        let jj = big_r % m;
        lemma_bit01(i, q);
        let rr = flipped(big_r, q);
        assert(rr == gg * (2 * m) + (1 - b) * m + jj) by (nonlinear_arith)
            requires
                big_r == gg * (2 * m) + b * m + jj,
                0 <= b <= 1,
                (b == 1 ==> rr == big_r - m) && (b == 0 ==> rr == big_r + m),
        ;
        lemma_compose(gg, 1 - b, jj, q);
        let hf = pow2((r - q - 1) as nat) as int;
        lemma_pow2_adds((r - q - 1) as nat, q + 1);
        lemma_pow2_unfold(q + 1);
        assert(mr == hf * (2 * m));
        assert(hf * (2 * m) == (2 * m) * hf) by (nonlinear_arith);
        lemma_multiply_divide_lt(big_r, 2 * m, hf);
        lemma_mul_inequality(gg + 1, hf, 2 * m);
        assert(rr < (gg + 1) * (2 * m)) by (nonlinear_arith)
            requires
                rr == gg * (2 * m) + (1 - b) * m + jj,
                0 <= b <= 1,
                0 <= jj < m,
                m >= 1,
        ;
        assert(0 <= rr < mr);
        // so the flipped index splits as (big_g, rr) at 2^r
        assert(bit(big_r, q) == bit(i, q));
        assert(ii == big_g * mr + rr) by (nonlinear_arith)
            requires
                i == big_g * mr + big_r,
                ii == i + s * m,
                (b == 1 ==> s == -1 && rr == big_r - m) && (b == 0 ==> s == 1 && rr == big_r
                    + m),
                0 <= b <= 1,
                bit(i, q) == b,
        ;
        lemma_fundamental_div_mod_converse(ii, mr, big_g, rr);
        assert(ii / mr == big_g);
        assert(bit(ii, r) == bit(i, r));
    }
}

/// `2^e`, computed without shifts so its contract is stated over `pow2`.
pub fn pow2_usize(e: usize) -> (r: usize)
    requires
        pow2(e as nat) <= usize::MAX,
    ensures
        r == pow2(e as nat),
{
    let mut r: usize = 1;
    let mut k: usize = 0;
    proof {
        vstd::arithmetic::power2::lemma2_to64();
    }
    while k < e
        invariant
            k <= e,
            r == pow2(k as nat),
            pow2(e as nat) <= usize::MAX,
        decreases e - k,
    {
        proof {
            lemma_pow2_adds(k as nat, (e - k) as nat);
            lemma_pow2_pos((e - k) as nat);
            assert(pow2(k as nat) * 1 <= pow2(k as nat) * pow2((e - k) as nat)) by (
            nonlinear_arith)
                requires
                    pow2((e - k) as nat) >= 1,
                    pow2(k as nat) >= 0,
            ;
            lemma_pow2_unfold((k + 1) as nat);
            lemma_pow2_adds((k + 1) as nat, (e - k - 1) as nat);
            lemma_pow2_pos((e - k - 1) as nat);
            assert(pow2((k + 1) as nat) * 1 <= pow2((k + 1) as nat) * pow2((e - k - 1) as nat))
                by (nonlinear_arith)
                requires
                    pow2((e - k - 1) as nat) >= 1,
                    pow2((k + 1) as nat) >= 0,
            ;
        }
        r = r * 2;
        k = k + 1;
    }
    r
}

/// `2^e` in 128 bits, for the scaled comparisons of measurement.
pub fn pow2_u128(e: u32) -> (r: u128)
    requires
        pow2(e as nat) <= u128::MAX,
    ensures
        r == pow2(e as nat),
{
    let mut r: u128 = 1;
    let mut k: u32 = 0;
    proof {
        vstd::arithmetic::power2::lemma2_to64();
    }
    while k < e
        invariant
            k <= e,
            r == pow2(k as nat),
            pow2(e as nat) <= u128::MAX,
        decreases e - k,
    {
        proof {
            lemma_pow2_adds(k as nat, (e - k) as nat);
            lemma_pow2_pos((e - k) as nat);
            assert(pow2(k as nat) * 1 <= pow2(k as nat) * pow2((e - k) as nat)) by (
            nonlinear_arith)
                requires
                    pow2((e - k) as nat) >= 1,
                    pow2(k as nat) >= 0,
            ;
            lemma_pow2_unfold((k + 1) as nat);
            lemma_pow2_adds((k + 1) as nat, (e - k - 1) as nat);
            lemma_pow2_pos((e - k - 1) as nat);
            assert(pow2((k + 1) as nat) * 1 <= pow2((k + 1) as nat) * pow2((e - k - 1) as nat))
                by (nonlinear_arith)
                requires
                    pow2((e - k - 1) as nat) >= 1,
                    pow2((k + 1) as nat) >= 0,
            ;
        }
        r = r * 2;
        k = k + 1;
    }
    r
}

} // verus!
