//! Complex amplitudes with exact integer coordinates.

use vstd::prelude::*;

verus! {

use vstd::math::abs;
use vstd::arithmetic::div_mod::lemma_fundamental_div_mod;
use vstd::arithmetic::div_mod::lemma_fundamental_div_mod_converse;

/// One complex amplitude, held as exact integer coordinates.
///
/// The complex value an `Amplitude` denotes also depends on the
/// register-wide scaling exponent kept by `QuantumCircuit`: an entry
/// `(re, im)` of a register with exponent `shift` stands for the complex
/// number `(re + im*i) / sqrt(2)^shift`.
#[derive(Clone, Copy, PartialEq, Eq, Structural, Debug)]
pub struct Amplitude {
    pub re: i64,
    pub im: i64,
}

impl View for Amplitude {
    type V = (int, int);

    open spec fn view(&self) -> (int, int) {
        (self.re as int, self.im as int)
    }
}

impl Amplitude {
    pub fn new(re: i64, im: i64) -> (r: Amplitude)
        ensures
            r.re == re,
            r.im == im,
    {
        Amplitude { re, im }
    }

    /// Componentwise sum.
    pub fn add(self, o: Amplitude) -> (r: Amplitude)
        requires
            i64::MIN <= self.re + o.re <= i64::MAX,
            i64::MIN <= self.im + o.im <= i64::MAX,
        ensures
            r.re == self.re + o.re,
            r.im == self.im + o.im,
    {
        Amplitude { re: self.re + o.re, im: self.im + o.im }
    }

    /// Componentwise difference.
    pub fn sub(self, o: Amplitude) -> (r: Amplitude)
        requires
            i64::MIN <= self.re - o.re <= i64::MAX,
            i64::MIN <= self.im - o.im <= i64::MAX,
        ensures
            r.re == self.re - o.re,
            r.im == self.im - o.im,
    {
        Amplitude { re: self.re - o.re, im: self.im - o.im }
    }

    /// Multiplication by an integer scalar.
    pub fn scale(self, k: i64) -> (r: Amplitude)
        requires
            i64::MIN <= self.re * k <= i64::MAX,
            i64::MIN <= self.im * k <= i64::MAX,
        ensures
            r.re == self.re * k,
            r.im == self.im * k,
    {
        Amplitude { re: self.re * k, im: self.im * k }
    }

    /// Squared norm `re^2 + im^2`, exact for every representable amplitude.
    pub fn norm_sqr(&self) -> (r: u128)
        ensures
            r == self.re * self.re + self.im * self.im,
    {
        let a = abs_u128(self.re);
        let b = abs_u128(self.im);
        proof {
            assert(a * a == self.re * self.re && b * b == self.im * self.im) by (nonlinear_arith)
                requires
                    a == abs(self.re as int),
                    b == abs(self.im as int),
            ;
            assert(a * a <= 0x8000_0000_0000_0000u128 * 0x8000_0000_0000_0000u128 && b * b
                <= 0x8000_0000_0000_0000u128 * 0x8000_0000_0000_0000u128) by (nonlinear_arith)
                requires
                    0 <= a <= 0x8000_0000_0000_0000u128,
                    0 <= b <= 0x8000_0000_0000_0000u128,
            ;
        }
        a * a + b * b
    }
}

/// Whether an integer coordinate is even, decided on the magnitude so that
/// no signed division is needed.
pub(crate) fn is_even_i64(x: i64) -> (b: bool)
    ensures
        b == (x as int % 2 == 0),
{
    let y = abs_u128(x);
    let b = y % 2 == 0;
    proof {
        lemma_signed_parity(x as int, y as int);
    }
    b
}

/// Exact half of an even coordinate.
pub(crate) fn half_i64(x: i64) -> (r: i64)
    requires
        x as int % 2 == 0,
        -0x4000_0000_0000_0000 <= x <= 0x4000_0000_0000_0000,
    ensures
        r == x as int / 2,
        2 * (r as int) == x,
{
    let y = abs_u128(x);
    let h = y / 2;
    proof {
        lemma_signed_parity(x as int, y as int);
        lemma_fundamental_div_mod(y as int, 2);
    }
    if x < 0 {
        proof {
            lemma_fundamental_div_mod_converse(x as int, 2, -(h as int), 0);
        }
        -(h as i64)
    } else {
        proof {
            lemma_fundamental_div_mod_converse(x as int, 2, h as int, 0);
        }
        h as i64
    }
}

/// `x` and its absolute value have the same parity.
proof fn lemma_signed_parity(x: int, y: int)
    requires
        y == abs(x),
    ensures
        (x % 2 == 0) == (y % 2 == 0),
        x % 2 == 0 ==> x == 2 * (y / 2) || x == -2 * (y / 2),
{
    lemma_fundamental_div_mod(y, 2);
    let h = y / 2;
    let rr = y % 2;
    if x >= 0 {
    } else {
        if rr == 0 {
            lemma_fundamental_div_mod_converse(x, 2, -h, 0);
        } else {
            assert(x == 2 * (-h - 1) + 1);
            lemma_fundamental_div_mod_converse(x, 2, -h - 1, 1);
        }
    }
}

/// Absolute value of an `i64`, widened so that it is total.
pub(crate) fn abs_u128(x: i64) -> (r: u128)
    ensures
        r == abs(x as int),
        r <= 0x8000_0000_0000_0000u128,
{
    if x < 0 {
        (-(x as i128)) as u128
    } else {
        x as u128
    }
}

} // verus!
