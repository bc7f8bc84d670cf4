//! Halves of counts: their sums and means are exact as long as they are small.
use crate::double::{
    fadd, fcount, fdiv, fone, fsub, fzero, lemma_exact_magnitude, unit, Double, UNIT_EXPONENT,
};
use crate::exact::{
    lemma_count_exact, lemma_exact_ratio, lemma_magnitude_sign, lemma_one, lemma_power_magnitude,
};
use crate::laws::units::lemma_shifted;
use crate::precision::exact;
use crate::rounding::{lemma_magnitude_increases, magnitude, FRACTION};
use vstd::arithmetic::power2::{lemma2_to64, lemma_pow2_pos, pow2};
use vstd::prelude::*;

verus! {

/// So many halves.
pub open spec fn halves(k: int) -> Double {
    fdiv(fcount(k), fcount(2))
}

/// Halves are exact.
pub proof fn lemma_halves(k: int)
    requires
        0 <= k <= 0x20_0000_0000_0000,
    ensures
        halves(k).finite(),
        !halves(k).negative(),
        2 * magnitude(halves(k).unsigned()) == k * unit(),
        2 * halves(k).value() == k * unit(),
        exact(halves(k)) == (k as real) / (2 as real),
{
    let u = unit();
    lemma_pow2_pos(UNIT_EXPONENT as nat);
    lemma_count_exact(k);
    lemma_count_exact(2);
    lemma_magnitude_sign(0);
    lemma_magnitude_sign(fcount(k).unsigned());
    reveal(fdiv);
    assert(2 * u > 0);
    let den = magnitude(fcount(2).unsigned());
    if k == 0 {
        assert(0 * u == 0);
        assert(magnitude(fcount(0).unsigned()) == 0);
        lemma_exact_ratio(0, den, 0);
    } else {
        let c = fcount(k).unsigned();
        lemma_power_magnitude(UNIT_EXPONENT as int);
        let low = 1023 * FRACTION;
        assert(k * u >= u) by (nonlinear_arith)
            requires
                k >= 1,
                u > 0,
        ;
        if c < low {
            lemma_magnitude_increases(c, low);
        }
        let a = c - FRACTION;
        lemma2_to64();
        assert(pow2(1) == 2);
        lemma_shifted(a, 1);
        let b = a + 1 * FRACTION;
        assert(b == c);
        let q = pow2(1) as int;
        let half = magnitude(a);
        assert(half * q == 2 * half) by (nonlinear_arith)
            requires
                q == 2,
        ;
        assert(magnitude(c) == 2 * magnitude(a));
        let num = magnitude(c) * u;
        let m = magnitude(a);
        assert(num == m * den) by (nonlinear_arith)
            requires
                num == (2 * m) * u,
                den == 2 * u,
        ;
        lemma_exact_ratio(num, den, a);
    }
    let v = halves(k).value();
    assert(2 * v == k * u);
    let vr = v as real;
    let ur = u as real;
    let kr = k as real;
    let two = 2 as real;
    assert((k * u) as real == kr * ur) by (nonlinear_arith)
        requires
            kr == k as real,
            ur == u as real,
    ;
    assert((2 * v) as real == two * vr);
    crate::reals::lemma_quotient_back(vr, ur);
    let x = exact(halves(k));
    crate::reals::lemma_associate(two, x, ur);
    crate::reals::lemma_cancel(two * x, kr, ur);
}

/// Halves add up exactly.
pub proof fn lemma_halves_add(j: int, k: int)
    requires
        0 <= j,
        0 <= k,
        j + k <= 0x20_0000_0000_0000,
    ensures
        fadd(halves(j), halves(k)) == halves(j + k),
{
    let u = unit();
    lemma_pow2_pos(UNIT_EXPONENT as nat);
    lemma_halves(j);
    lemma_halves(k);
    lemma_halves(j + k);
    assert(j * u + k * u == (j + k) * u) by (nonlinear_arith);
    assert(j * u >= 0 && k * u >= 0) by (nonlinear_arith)
        requires
            j >= 0,
            k >= 0,
            u > 0,
    ;
    let x = halves(j);
    let y = halves(k);
    let z = halves(j + k);
    reveal(fadd);
    lemma_magnitude_sign(z.unsigned());
    lemma_magnitude_sign(0);
    assert(x.value() + y.value() == z.value());
    lemma_exact_magnitude(z.unsigned());
}

/// A whole multiple of halves, divided, is exact.
pub proof fn lemma_halves_shared(k: int, n: int)
    requires
        0 <= k,
        0 < n <= 0x20_0000_0000_0000,
        n * k <= 0x20_0000_0000_0000,
    ensures
        fdiv(halves(n * k), fcount(n)) == halves(k),
{
    let u = unit();
    lemma_pow2_pos(UNIT_EXPONENT as nat);
    assert(k <= n * k && 0 <= n * k) by (nonlinear_arith)
        requires
            0 <= k,
            1 <= n,
    ;
    lemma_halves(n * k);
    lemma_halves(k);
    lemma_count_exact(n);
    lemma_magnitude_sign(fcount(n).unsigned());
    assert(n * u > 0) by (nonlinear_arith)
        requires
            n > 0,
            u > 0,
    ;
    let x = halves(n * k);
    let y = halves(k);
    let m = magnitude(x.unsigned());
    let p = magnitude(y.unsigned());
    let num = m * u;
    let den = magnitude(fcount(n).unsigned());
    assert(num == p * den) by (nonlinear_arith)
        requires
            2 * m == n * k * u,
            2 * p == k * u,
            num == m * u,
            den == n * u,
    ;
    reveal(fdiv);
    lemma_exact_ratio(num, den, y.unsigned());
}

/// One is two halves.
pub proof fn lemma_two_halves()
    ensures
        halves(2) == fone(),
{
    lemma_halves(2);
    lemma_one();
    lemma_count_exact(1);
    crate::double::lemma_small_counts();
    let x = halves(2).unsigned();
    let y = fcount(1).unsigned();
    lemma_magnitude_sign(x);
    lemma_magnitude_sign(y);
    if x < y {
        lemma_magnitude_increases(x, y);
    }
    if y < x {
        lemma_magnitude_increases(y, x);
    }
}

/// A number less itself is nought.
pub proof fn lemma_less_itself(x: Double)
    requires
        x.finite(),
    ensures
        fsub(x, x) == fzero(),
{
    reveal(fadd);
    lemma_one();
}

} // verus!
