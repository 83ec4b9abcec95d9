//! Lemmas about sums of squared norms.
//!
//! Every gate acts on complementary pairs of basis indices, so the central
//! lemma here (`lemma_paired_sum`) turns a per-pair fact about squared
//! norms into a fact about the whole register's squared norm.  The other
//! lemmas cover the reduction step (halving an all-even register divides
//! the squared norm by four) and basis states.

use vstd::prelude::*;

verus! {

use vstd::arithmetic::power2::pow2;
use vstd::arithmetic::power2::lemma_pow2_adds;
use vstd::arithmetic::power2::lemma_pow2_pos;
use vstd::arithmetic::power2::lemma_pow2_unfold;
use vstd::arithmetic::div_mod::lemma_fundamental_div_mod;
use crate::index::bit;
use crate::index::lemma_compose;
use crate::model::all_even;
use crate::model::basis;
use crate::model::canon;
use crate::model::halve;
use crate::model::norm_sum;
use crate::model::nsq;
use crate::model::sum_range;

pub proof fn lemma_nsq_nonneg(v: (int, int))
    ensures
        nsq(v) >= 0,
{
    assert(v.0 * v.0 + v.1 * v.1 >= 0) by (nonlinear_arith);
}

pub proof fn lemma_sum_nonneg(s: Seq<(int, int)>, lo: int, hi: int)
    ensures
        sum_range(s, lo, hi) >= 0,
    decreases hi - lo,
{
    if lo < hi {
        lemma_nsq_nonneg(s[lo]);
        lemma_sum_nonneg(s, lo + 1, hi);
    }
}

pub proof fn lemma_sum_concat(s: Seq<(int, int)>, lo: int, mid: int, hi: int)
    requires
        lo <= mid <= hi,
    ensures
        sum_range(s, lo, hi) == sum_range(s, lo, mid) + sum_range(s, mid, hi),
    decreases mid - lo,
{
    if lo < mid {
        lemma_sum_concat(s, lo + 1, mid, hi);
    }
}

/// One entry's squared norm never exceeds the sum over a range holding it.
pub proof fn lemma_sum_element(s: Seq<(int, int)>, lo: int, hi: int, i: int)
    requires
        lo <= i < hi,
    ensures
        nsq(s[i]) <= sum_range(s, lo, hi),
{
    lemma_sum_concat(s, lo, i, hi);
    lemma_sum_concat(s, i, i + 1, hi);
    lemma_sum_nonneg(s, lo, i);
    lemma_sum_nonneg(s, i + 1, hi);
}

/// If the squared norm of an entry is at most `b*b`, each coordinate lies
/// in `[-b, b]`.
pub proof fn lemma_coord_bound(v: (int, int), b: int)
    requires
        b >= 0,
        nsq(v) <= b * b,
    ensures
        -b <= v.0 <= b,
        -b <= v.1 <= b,
{
    assert(-b <= v.0 <= b && -b <= v.1 <= b) by (nonlinear_arith)
        requires
            b >= 0,
            v.0 * v.0 + v.1 * v.1 <= b * b,
    ;
}

/// Two-pointer walk over one aligned block of `2^(q+1)` entries: if every
/// pair `(i, i + 2^q)` of `t` has `c` times the paired squared norm of `s`,
/// the block's two halves together sum to `c` times those of `s`.
proof fn lemma_pair_block(s: Seq<(int, int)>, t: Seq<(int, int)>, b: int, q: nat, j: int, c: int)
    requires
        s.len() == t.len(),
        0 <= b,
        b + 2 * pow2(q) <= s.len(),
        0 <= j <= pow2(q),
        forall|jj: int|
            j <= jj < pow2(q) ==> nsq(t[b + jj]) + nsq(t[b + jj + pow2(q)]) == c * (nsq(
                #[trigger] s[b + jj],
            ) + nsq(s[b + jj + pow2(q)])),
    ensures
        sum_range(t, b + j, b + pow2(q)) + sum_range(t, b + pow2(q) + j, b + 2 * pow2(q)) == c * (
        sum_range(s, b + j, b + pow2(q)) + sum_range(s, b + pow2(q) + j, b + 2 * pow2(q))),
    decreases pow2(q) - j,
{
    let m = pow2(q) as int;
    if j == m {
        assert(sum_range(t, b + m, b + m) == 0);
        assert(sum_range(t, b + m + m, b + 2 * m) == 0);
        assert(c * (0int + 0int) == 0) by (nonlinear_arith);
    } else {
        lemma_pair_block(s, t, b, q, j + 1, c);
        let pt = nsq(t[b + j]) + nsq(t[b + j + m]);
        let ps = nsq(s[b + j]) + nsq(s[b + j + m]);
        assert(pt == c * ps);
        let ta = sum_range(t, b + j + 1, b + m);
        let tb = sum_range(t, b + m + j + 1, b + 2 * m);
        let sa = sum_range(s, b + j + 1, b + m);
        let sb = sum_range(s, b + m + j + 1, b + 2 * m);
        assert(ta + tb == c * (sa + sb));
        assert(sum_range(t, b + j, b + m) == nsq(t[b + j]) + ta);
        assert(sum_range(t, b + m + j, b + 2 * m) == nsq(t[b + m + j]) + tb);
        assert(sum_range(s, b + j, b + m) == nsq(s[b + j]) + sa);
        assert(sum_range(s, b + m + j, b + 2 * m) == nsq(s[b + m + j]) + sb);
        assert(c * ps + c * (sa + sb) == c * (ps + sa + sb)) by (nonlinear_arith);
        assert(c * (ps + sa + sb) == c * ((nsq(s[b + j]) + sa) + (nsq(s[b + m + j]) + sb)));
    }
}

/// The first `g` aligned blocks.
proof fn lemma_blocks(s: Seq<(int, int)>, t: Seq<(int, int)>, q: nat, c: int, g: int)
    requires
        s.len() == t.len(),
        0 <= g,
        g * (2 * pow2(q)) <= s.len(),
        forall|i: int|
            0 <= i < s.len() && bit(i, q) == 0 && i + pow2(q) < s.len() ==> nsq(t[i]) + nsq(
                t[i + pow2(q)],
            ) == c * (nsq(#[trigger] s[i]) + nsq(s[i + pow2(q)])),
    ensures
        sum_range(t, 0, g * (2 * pow2(q))) == c * sum_range(s, 0, g * (2 * pow2(q))),
    decreases g,
{
    let m = pow2(q) as int;
    let gm = 2 * m;
    lemma_pow2_pos(q);
    if g == 0 {
        assert(g * (2 * pow2(q)) == 0) by (nonlinear_arith)
            requires
                g == 0,
        ;
        assert(sum_range(t, 0, 0) == 0);
        assert(c * 0 == 0) by (nonlinear_arith);
    } else {
        assert((g - 1) * gm <= g * gm) by (nonlinear_arith)
            requires
                gm >= 2,
                g >= 1,
        ;
        lemma_blocks(s, t, q, c, g - 1);
        let b = (g - 1) * gm;
        assert(b + gm == g * gm) by (nonlinear_arith)
            requires
                b == (g - 1) * gm,
        ;
        assert(b >= 0) by (nonlinear_arith)
            requires
                g >= 1,
                gm >= 2,
                b == (g - 1) * gm,
        ;
        assert forall|jj: int| 0 <= jj < m implies nsq(t[b + jj]) + nsq(t[b + jj + m]) == c * (nsq(
            #[trigger] s[b + jj],
        ) + nsq(s[b + jj + m])) by {
            lemma_compose(g - 1, 0, jj, q);
            assert((g - 1) * (2 * m) + 0 * m + jj == b + jj) by (nonlinear_arith)
                requires
                    b == (g - 1) * (2 * m),
            ;
            assert(bit(b + jj, q) == 0);
        }
        lemma_pair_block(s, t, b, q, 0, c);
        let total = g * gm;
        assert(total == b + 2 * m);
        lemma_sum_concat(t, 0, b, total);
        lemma_sum_concat(t, b, b + m, total);
        lemma_sum_concat(s, 0, b, total);
        lemma_sum_concat(s, b, b + m, total);
        let s0 = sum_range(s, 0, b);
        let sblk = sum_range(s, b, b + m) + sum_range(s, b + m, b + 2 * m);
        assert(sum_range(t, 0, total) == c * s0 + (sum_range(t, b, b + m) + sum_range(
            t,
            b + m,
            b + 2 * m,
        )));
        assert(sum_range(t, 0, total) == c * s0 + c * sblk);
        assert(c * s0 + c * sblk == c * (s0 + sblk)) by (nonlinear_arith);
        assert(sum_range(s, 0, total) == s0 + sblk);
        assert(sum_range(t, 0, total) == c * sum_range(s, 0, total));
        assert(total == g * (2 * pow2(q)));
        assert(sum_range(t, 0, g * (2 * pow2(q))) == c * sum_range(s, 0, g * (2 * pow2(q))));
    }
}

/// The paired-sum workhorse: a per-pair relation between `t` and `s`
/// becomes `norm_sum(t) == c * norm_sum(s)`.
pub proof fn lemma_paired_sum(s: Seq<(int, int)>, t: Seq<(int, int)>, q: nat, n: nat, c: int)
    requires
        s.len() == t.len(),
        s.len() == pow2(n),
        q < n,
        forall|i: int|
            0 <= i < s.len() && bit(i, q) == 0 && i + pow2(q) < s.len() ==> nsq(t[i]) + nsq(
                t[i + pow2(q)],
            ) == c * (nsq(#[trigger] s[i]) + nsq(s[i + pow2(q)])),
    ensures
        norm_sum(t) == c * norm_sum(s),
{
    let g = pow2((n - q - 1) as nat) as int;
    lemma_pow2_adds((n - q - 1) as nat, q + 1);
    lemma_pow2_unfold(q + 1);
    assert(g * (2 * pow2(q)) == pow2(n)) by (nonlinear_arith)
        requires
            pow2((n - q - 1) as nat) * pow2(q + 1) == pow2(n),
            pow2(q + 1) == 2 * pow2(q),
            g == pow2((n - q - 1) as nat),
    ;
    lemma_pow2_pos((n - q - 1) as nat);
    lemma_blocks(s, t, q, c, g);
}

/// Halving an all-even range divides the sum of squared norms by four.
pub proof fn lemma_halve_sum(s: Seq<(int, int)>, lo: int, hi: int)
    requires
        all_even(s),
        0 <= lo,
        hi <= s.len(),
    ensures
        sum_range(s, lo, hi) == 4 * sum_range(halve(s), lo, hi),
    decreases hi - lo,
{
    if lo < hi {
        lemma_halve_sum(s, lo + 1, hi);
        let v = s[lo];
        let h = halve(s)[lo];
        lemma_fundamental_div_mod(v.0, 2);
        lemma_fundamental_div_mod(v.1, 2);
        assert(v.0 == 2 * h.0 && v.1 == 2 * h.1);
        assert(nsq(v) == 4 * nsq(h)) by (nonlinear_arith)
            requires
                v.0 == 2 * h.0 && v.1 == 2 * h.1,
        ;
    }
}

/// A power of two that is four times an integer has exponent at least two.
pub proof fn lemma_pow2_div4(k: nat, x: int)
    requires
        pow2(k) == 4 * x,
    ensures
        k >= 2,
{
    if k < 2 {
        vstd::arithmetic::power2::lemma2_to64();
    }
}

/// A register whose squared norms sum to a power of two cannot be all even
/// when that power is below four; together with reduction this means every
/// well-formed register has an odd coordinate somewhere.
pub proof fn lemma_small_shift_odd(s: Seq<(int, int)>, k: nat)
    requires
        norm_sum(s) == pow2(k),
        k < 2,
    ensures
        !all_even(s),
{
    if all_even(s) {
        lemma_halve_sum(s, 0, s.len() as int);
        lemma_pow2_div4(k, norm_sum(halve(s)));
    }
}

/// Reduction keeps the squared norm equal to `2^shift`, never raises the
/// exponent, and ends with an odd coordinate somewhere.
pub proof fn lemma_canon_props_basic(s: Seq<(int, int)>, k: nat)
    requires
        norm_sum(s) == pow2(k),
    ensures
        ({
            let c = canon(s, k);
            norm_sum(c.0) == pow2(c.1) && !all_even(c.0) && c.1 <= k && c.0.len() == s.len()
        }),
    decreases k,
{
    if all_even(s) && k >= 2 {
        lemma_halve_sum(s, 0, s.len() as int);
        lemma_pow2_unfold(k);
        lemma_pow2_unfold((k - 1) as nat);
        lemma_canon_props_basic(halve(s), (k - 2) as nat);
    } else if all_even(s) {
        lemma_small_shift_odd(s, k);
    }
}

/// The squared norms of a basis state sum to one.
pub proof fn lemma_basis_sum_range(len: nat, idx: int, lo: int, hi: int)
    requires
        0 <= lo <= hi <= len,
    ensures
        sum_range(basis(len, idx), lo, hi) == if lo <= idx < hi {
            1int
        } else {
            0int
        },
    decreases hi - lo,
{
    if lo < hi {
        lemma_basis_sum_range(len, idx, lo + 1, hi);
    }
}

} // verus!
