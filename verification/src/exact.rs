//! Where the rounded operations are exact, and what they keep.
use crate::double::{
    fadd, fcount, fdiv, fle, flt, fmul, fneg, fone, fratio, froot, fsub, fzero,
    lemma_exact_magnitude, lemma_round_range, lemma_small_counts, unit, Double, UNIT_EXPONENT,
};
use crate::rounding::{
    lemma_magnitude_increases, lemma_magnitude_of, lemma_round_is, lemma_round_monotone,
    lemma_round_root_is, lemma_step, magnitude, round, spacing, FRACTION, INF_BITS,
};
use vstd::arithmetic::power2::{lemma_pow2_adds, lemma_pow2_pos, lemma_pow2_unfold, pow2};
use vstd::prelude::*;

verus! {

/// Not below zero, where it is a number.
pub open spec fn unsigned_or_nan(x: Double) -> bool {
    x.nan() || x.rank() >= 0
}

/// A ratio that is a multiple of its denominator rounds to that multiple.
pub proof fn lemma_exact_ratio(num: int, den: int, a: int)
    requires
        den > 0,
        0 <= a < INF_BITS,
        num == magnitude(a) * den,
    ensures
        round(num, den) == a,
{
    lemma_magnitude_increases(a, a + 1);
    let m = magnitude(a);
    let m1 = magnitude(a + 1);
    assert(2 * num < (m + m1) * den) by (nonlinear_arith)
        requires
            num == m * den,
            m < m1,
            den > 0,
    ;
    if a > 0 {
        lemma_magnitude_increases(a - 1, a);
        let m0 = magnitude(a - 1);
        assert((m0 + m) * den < 2 * num) by (nonlinear_arith)
            requires
                num == m * den,
                m0 < m,
                den > 0,
        ;
    }
    lemma_round_is(num, den, a);
}

/// A magnitude is not negative, and zero only for zero.
pub proof fn lemma_magnitude_sign(a: int)
    requires
        0 <= a,
    ensures
        magnitude(a) >= 0,
        magnitude(a) == 0 <==> a == 0,
        magnitude(0) == 0,
{
    assert(magnitude(0) == 0);
    if a > 0 {
        lemma_magnitude_increases(0, a);
    }
}

/// Two to the power of `k` is represented where its exponent is in range.
pub proof fn lemma_power_magnitude(k: int)
    requires
        52 <= k <= 2097,
    ensures
        magnitude((k - 51) * FRACTION) == pow2(k as nat),
        0 <= (k - 51) * FRACTION < INF_BITS,
{
    vstd::arithmetic::power2::lemma2_to64_rest();
    lemma_magnitude_of(k - 52, FRACTION as int);
    lemma_pow2_adds(52, (k - 52) as nat);
    assert((k - 52) * FRACTION + FRACTION == (k - 51) * FRACTION);
}

/// The value of one, and of the numbers next to it.
pub proof fn lemma_one()
    ensures
        fone().unsigned() == 1023 * FRACTION,
        magnitude(1023 * FRACTION) == unit(),
        unit() == 0x20_0000_0000_0000 * pow2(1021),
        magnitude(1023 * FRACTION + 1) == unit() + 2 * pow2(1021),
        magnitude(1023 * FRACTION - 1) == unit() - pow2(1021),
        pow2(1021) > 0x20_0000_0000_0000,
        fone().finite(),
        !fone().negative(),
        fone().rank() == 1023 * FRACTION,
{
    vstd::arithmetic::power2::lemma2_to64_rest();
    lemma_power_magnitude(1074);
    lemma_pow2_adds(53, 1021);
    lemma_pow2_unfold(1022);
    lemma_step(1023 * FRACTION);
    lemma_step(1023 * FRACTION - 1);
    assert((1023 * FRACTION) / (FRACTION as int) == 1023);
    assert((1023 * FRACTION - 1) / (FRACTION as int) == 1022);
    assert(spacing(1023 * FRACTION) == pow2(1022));
    assert(spacing(1023 * FRACTION - 1) == pow2(1021));
    vstd::arithmetic::power2::lemma_pow2_strictly_increases(53, 1021);
}

/// The value of one half, and of the numbers next to it.
pub proof fn lemma_half()
    ensures
        fratio(1, 2) == (Double { bits: (1022 * FRACTION) as u64 }),
        2 * magnitude(1022 * FRACTION) == unit(),
        magnitude(1022 * FRACTION) == 0x20_0000_0000_0000 * pow2(1020),
        magnitude(1022 * FRACTION + 1) == magnitude(1022 * FRACTION) + 2 * pow2(1020),
        magnitude(1022 * FRACTION - 1) == magnitude(1022 * FRACTION) - pow2(1020),
        pow2(1021) == 2 * pow2(1020),
        pow2(1020) > 0x20_0000_0000_0000,
{
    vstd::arithmetic::power2::lemma2_to64_rest();
    lemma_small_counts();
    lemma_one();
    lemma_power_magnitude(1073);
    lemma_pow2_adds(53, 1020);
    lemma_pow2_unfold(1021);
    lemma_pow2_unfold(1074);
    lemma_step(1022 * FRACTION);
    lemma_step(1022 * FRACTION - 1);
    assert((1022 * FRACTION) / (FRACTION as int) == 1022);
    assert((1022 * FRACTION - 1) / (FRACTION as int) == 1021);
    vstd::arithmetic::power2::lemma_pow2_strictly_increases(53, 1020);
    lemma_count_exact(2);
    reveal(fdiv);
    let two = fcount(2);
    let h = magnitude(1022 * FRACTION);
    let u = unit();
    assert(two.value() == 2 * u);
    assert(u * u == h * (2 * u)) by (nonlinear_arith)
        requires
            2 * h == u,
    ;
    lemma_magnitude_sign(two.unsigned());
    lemma_exact_ratio(u * u, 2 * u, 1022 * FRACTION);
}

/// A whole number of up to fifty-three bits has a magnitude of its own.
pub proof fn lemma_representable(k: int) -> (a: int)
    requires
        0 < k <= 0x20_0000_0000_0000,
    ensures
        0 < a < INF_BITS,
        magnitude(a) == k * unit(),
{
    vstd::arithmetic::power2::lemma2_to64_rest();
    lemma_representable_from(k, 53)
}

proof fn lemma_representable_from(k: int, n: int) -> (a: int)
    requires
        0 < k <= pow2(n as nat),
        0 <= n <= 53,
    ensures
        0 < a < INF_BITS,
        magnitude(a) == k * unit(),
    decreases n,
{
    vstd::arithmetic::power2::lemma2_to64();
    vstd::arithmetic::power2::lemma2_to64_rest();
    lemma_pow2_pos((53 - n) as nat);
    if n > 0 && k <= pow2((n - 1) as nat) {
        lemma_representable_from(k, n - 1)
    } else if n == 0 {
        lemma_power_magnitude(1074);
        assert(k == 1);
        assert(1 * unit() == unit());
        1023 * FRACTION
    } else {
        // k lies in the upper half of n bits.
        let p = pow2((53 - n) as nat) as int;
        let s = k * p;
        lemma_pow2_adds(n as nat, (53 - n) as nat);
        lemma_pow2_adds((n - 1) as nat, (53 - n) as nat);
        let hi = pow2(n as nat) as int;
        let lo = pow2((n - 1) as nat) as int;
        assert(lo * p < s <= hi * p) by (nonlinear_arith)
            requires
                lo < k <= hi,
                s == k * p,
                p > 0,
        ;
        let u = 1074 + n - 53;
        lemma_magnitude_of(u, s);
        lemma_pow2_adds((53 - n) as nat, u as nat);
        let w = pow2(u as nat) as int;
        assert(k * p * w == k * (p * w)) by (nonlinear_arith);
        assert(u * FRACTION + s < INF_BITS) by (nonlinear_arith)
            requires
                u <= 1074,
                s <= 2 * FRACTION,
        ;
        u * FRACTION + s
    }
}

/// Counts of up to fifty-three bits are exact.
pub proof fn lemma_count_exact(k: int)
    requires
        0 <= k <= 0x20_0000_0000_0000,
    ensures
        fcount(k).value() == k * unit(),
        fcount(k).finite(),
        !fcount(k).negative(),
        k > 0 ==> fcount(k).rank() > 0,
        k > 0 ==> magnitude(fcount(k).unsigned()) == k * unit(),
{
    lemma_small_counts();
    if k == 0 {
        lemma_magnitude_sign(0);
        assert(0 * unit() == 0);
    } else {
        reveal(fcount);
        let a = lemma_representable(k);
        lemma_exact_magnitude(a);
    }
}

/// Counting on by one is exact.
pub proof fn lemma_count_next(k: int)
    requires
        0 <= k < 0x20_0000_0000_0000,
    ensures
        fadd(fcount(k), fone()) == fcount(k + 1),
{
    lemma_count_exact(k);
    lemma_one();
    lemma_small_counts();
    reveal(fadd);
    reveal(fcount);
    let u = unit();
    lemma_pow2_pos(UNIT_EXPONENT as nat);
    assert(k * u + u == (k + 1) * u) by (nonlinear_arith);
    assert((k + 1) * u > 0) by (nonlinear_arith)
        requires
            k >= 0,
            u > 0,
    ;
}

/// Multiplying by one changes nothing.
pub proof fn lemma_mul_one(x: Double)
    requires
        !x.nan(),
    ensures
        fmul(x, fone()) == x,
        fmul(fone(), x) == x,
{
    crate::double::lemma_mul_commutes(x, fone());
    lemma_one();
    reveal(fmul);
    if x.finite() {
        lemma_pow2_pos(UNIT_EXPONENT as nat);
        lemma_exact_ratio(magnitude(x.unsigned()) * unit(), unit(), x.unsigned());
    }
}

/// Dividing by one changes nothing.
pub proof fn lemma_div_one(x: Double)
    requires
        !x.nan(),
    ensures
        fdiv(x, fone()) == x,
{
    lemma_one();
    reveal(fdiv);
    if x.finite() {
        lemma_pow2_pos(UNIT_EXPONENT as nat);
        lemma_exact_ratio(magnitude(x.unsigned()) * unit(), unit(), x.unsigned());
    }
}

/// A finite number other than zero divided by itself is one.
pub proof fn lemma_div_self(x: Double)
    requires
        x.finite(),
        !x.vanishes(),
    ensures
        fdiv(x, x) == fone(),
{
    lemma_one();
    reveal(fdiv);
    lemma_magnitude_sign(x.unsigned());
    let m = magnitude(x.unsigned());
    assert(m * unit() == unit() * m) by (nonlinear_arith);
    lemma_exact_ratio(m * unit(), m, 1023 * FRACTION);
}

/// Nought divided by a positive number is nought.
pub proof fn lemma_zero_div(y: Double)
    requires
        !y.nan(),
        !y.negative(),
        !y.vanishes(),
    ensures
        fdiv(fzero(), y) == fzero(),
{
    reveal(fdiv);
    lemma_magnitude_sign(0);
    if y.finite() {
        lemma_magnitude_sign(y.unsigned());
        assert(0 * unit() == 0);
        assert(0 * magnitude(y.unsigned()) == 0);
        lemma_exact_ratio(0, magnitude(y.unsigned()), 0);
    }
}

/// A finite number times zero is zero; without a sign where the number has none.
pub proof fn lemma_mul_zero(x: Double)
    requires
        x.finite(),
    ensures
        fmul(x, fzero()).vanishes(),
        !x.negative() ==> fmul(x, fzero()) == fzero(),
        fmul(fzero(), x).vanishes(),
        !x.negative() ==> fmul(fzero(), x) == fzero(),
{
    crate::double::lemma_mul_commutes(x, fzero());
    reveal(fmul);
    lemma_magnitude_sign(0);
    lemma_pow2_pos(UNIT_EXPONENT as nat);
    let m = magnitude(x.unsigned());
    assert(m * 0 == 0 && 0 * m == 0) by (nonlinear_arith);
    assert(0 * unit() == 0);
    lemma_exact_ratio(0, unit(), 0);
}

/// Adding nought changes nothing but the sign of a zero.
pub proof fn lemma_plus_zero(x: Double)
    requires
        !x.nan(),
        x.negative() ==> !x.vanishes(),
    ensures
        fadd(x, fzero()) == x,
        fadd(fzero(), x) == x,
        fsub(x, fzero()) == x,
{
    crate::double::lemma_add_commutes(x, fzero());
    if x.vanishes() {
        reveal(fadd);
        lemma_magnitude_sign(0);
    } else {
        crate::double::lemma_add_zero(x);
        reveal(fadd);
        lemma_magnitude_sign(0);
        if x.finite() {
            lemma_magnitude_sign(x.unsigned());
            lemma_exact_magnitude(x.unsigned());
        }
    }
}

/// The square root of one is one.
pub proof fn lemma_root_one()
    ensures
        froot(fone()) == fone(),
{
    lemma_one();
    reveal(froot);
    let a = 1023 * FRACTION;
    let u = unit();
    let d = pow2(1021) as int;
    let low = magnitude(a - 1) + magnitude(a);
    let high = magnitude(a) + magnitude(a + 1);
    assert(low * low < 4 * (u * u) && 4 * (u * u) < high * high) by (nonlinear_arith)
        requires
            low == 2 * u - d,
            high == 2 * u + 2 * d,
            d > 0,
            u > d,
    ;
    lemma_round_root_is(u * u, a);
}

/// Sums, products and quotients of numbers that are not below zero are not below zero.
pub proof fn lemma_unsigned_results(x: Double, y: Double)
    requires
        unsigned_or_nan(x),
        unsigned_or_nan(y),
    ensures
        unsigned_or_nan(fadd(x, y)),
        unsigned_or_nan(fmul(x, y)),
        unsigned_or_nan(fdiv(x, y)) || y.vanishes(),
{
    reveal(fadd);
    reveal(fmul);
    reveal(fdiv);
    lemma_pow2_pos(UNIT_EXPONENT as nat);
    if x.finite() && y.finite() {
        lemma_magnitude_sign(x.unsigned());
        lemma_magnitude_sign(y.unsigned());
        let a = magnitude(x.unsigned());
        let b = magnitude(y.unsigned());
        assert(a * b >= 0 && a * unit() >= 0) by (nonlinear_arith)
            requires
                a >= 0,
                b >= 0,
                unit() > 0,
        ;
        assert(a == 0 ==> a * b == 0 && a * unit() == 0) by (nonlinear_arith);
        assert(b == 0 ==> a * b == 0) by (nonlinear_arith);
        lemma_round_range(a * b, unit());
        lemma_round_range(a + b, 1);
        assert(0 * unit() == 0);
        lemma_exact_ratio(0, unit(), 0);
        if b > 0 {
            lemma_round_range(a * unit(), b);
            assert(0 * b == 0);
            lemma_exact_ratio(0, b, 0);
        }
        if x.negative() {
            assert(x.vanishes());
        }
        if y.negative() {
            assert(y.vanishes());
        }
    }
}

/// The distance of a number in `[0, 1]` from one, rounded: never off by more than half the
/// spacing below one, and nought only for one itself.
pub proof fn lemma_complement_value(l: Double)
    requires
        l.finite(),
        fle(fzero(), l),
        fle(l, fone()),
    ensures
        ({
            let d = fsub(fone(), l);
            let v = magnitude(l.unsigned());
            &&& d.finite()
            &&& !d.negative()
            &&& d.unsigned() <= 1023 * FRACTION
            &&& 0 <= v <= unit()
            &&& l.value() == v
            &&& -pow2(1021) <= 2 * (magnitude(d.unsigned()) + v - unit()) <= pow2(1021)
            &&& v < unit() ==> magnitude(d.unsigned()) >= pow2(1021)
            &&& v == unit() ==> d == fzero()
            &&& d.value() == magnitude(d.unsigned())
        }),
{
    lemma_one();
    lemma_magnitude_sign(l.unsigned());
    lemma_magnitude_sign(0);
    let v = magnitude(l.unsigned());
    let u = unit();
    let g = pow2(1021) as int;
    let one = 1023 * FRACTION;
    if l.unsigned() < one {
        lemma_magnitude_increases(l.unsigned(), one);
    }
    reveal(fadd);
    let n = fneg(l);
    assert(n.unsigned() == l.unsigned());
    if v == u {
        if l.unsigned() != one {
            lemma_magnitude_increases(l.unsigned(), one);
        }
    } else {
        // Below one, at the latest encoding before it.
        assert(l.unsigned() <= one - 1);
        if l.unsigned() < one - 1 {
            lemma_magnitude_increases(l.unsigned(), one - 1);
        }
        assert(u - v >= g);
        let a = round(u - v, 1);
        lemma_round_range(u - v, 1);
        lemma_power_magnitude(1021);
        let p = (1021 - 51) * FRACTION;
        lemma_exact_magnitude(p);
        lemma_exact_magnitude(one);
        lemma_round_monotone(magnitude(p), 1, u - v, 1);
        lemma_round_monotone(u - v, 1, magnitude(one), 1);
        if p < a {
            lemma_magnitude_increases(p, a);
        }
        // Half a spacing on either side.
        lemma_step(a - 1);
        lemma_step(a);
        lemma_spacing_below_one(a - 1);
        if a < one {
            lemma_spacing_below_one(a);
        }
    }
}

/// The spacing below one is at most that just below one.
proof fn lemma_spacing_below_one(a: int)
    requires
        0 <= a < 1023 * FRACTION,
    ensures
        spacing(a) <= pow2(1021),
{
    let e = a / (FRACTION as int);
    assert(e <= 1022) by (nonlinear_arith)
        requires
            e == a / (FRACTION as int),
            a < 1023 * FRACTION,
            0 <= a,
    ;
    lemma_pow2_pos(1021);
    if e > 0 && e - 1 < 1021 {
        vstd::arithmetic::power2::lemma_pow2_strictly_increases((e - 1) as nat, 1021);
    }
}

/// A number in `[0, 1]` and its distance from one add up to one, exactly.
pub proof fn lemma_complement(l: Double)
    requires
        l.finite(),
        fle(fzero(), l),
        fle(l, fone()),
    ensures
        fadd(fsub(fone(), l), l) == fone(),
        fadd(l, fsub(fone(), l)) == fone(),
{
    let d = fsub(fone(), l);
    crate::double::lemma_add_commutes(d, l);
    lemma_complement_value(l);
    lemma_one();
    let one = 1023 * FRACTION;
    let s = magnitude(d.unsigned()) + magnitude(l.unsigned());
    lemma_round_is(s, 1, one);
    reveal(fadd);
    assert(fadd(d, l) == fone());
}

/// Half of a number that is not too small is exact.
pub proof fn lemma_halved(x: Double)
    requires
        x.finite(),
        !x.negative(),
        x.vanishes() || x.unsigned() >= 2 * FRACTION,
    ensures
        fmul(x, fratio(1, 2)).finite(),
        !fmul(x, fratio(1, 2)).negative(),
        2 * magnitude(fmul(x, fratio(1, 2)).unsigned()) == magnitude(x.unsigned()),
{
    lemma_half();
    lemma_magnitude_sign(0);
    lemma_pow2_pos(UNIT_EXPONENT as nat);
    let half = fratio(1, 2);
    let h = magnitude(1022 * FRACTION);
    let v = magnitude(x.unsigned());
    let u = unit();
    if x.vanishes() {
        reveal(fmul);
        assert(0 * h == 0);
        assert(0 * u == 0);
        lemma_exact_ratio(0, u, 0);
    } else {
        let a = x.unsigned() - FRACTION;
        let p = FRACTION as int;
        let e = x.unsigned() / p;
        assert(a / p == e - 1 && a % p == x.unsigned() % p);
        lemma_pow2_unfold((e - 1) as nat);
        assert(e >= 2);
        let w = pow2((e - 2) as nat) as int;
        let f = p + a % p;
        assert(f * (2 * w) == 2 * (f * w)) by (nonlinear_arith);
        assert(v == 2 * magnitude(a));
        let m = magnitude(a);
        assert(v * h == m * u) by (nonlinear_arith)
            requires
                v == 2 * m,
                u == 2 * h,
        ;
        lemma_exact_ratio(v * h, u, a);
        reveal(fmul);
    }
}

/// Two halves of a mixture of neutral parts give a half, whatever the share.
pub proof fn lemma_neutral_mixture(l: Double)
    requires
        l.finite(),
        fle(fzero(), l),
        fle(l, fone()),
        !l.negative(),
    ensures
        fadd(fmul(l, fratio(1, 2)), fmul(fsub(fone(), l), fratio(1, 2))) == fratio(1, 2),
{
    let d = fsub(fone(), l);
    lemma_complement_value(l);
    lemma_one();
    lemma_half();
    let half = 1022 * FRACTION;
    let x = fmul(l, fratio(1, 2));
    let y = fmul(d, fratio(1, 2));
    let v = magnitude(l.unsigned());
    let b = magnitude(d.unsigned());
    let u = unit();
    // The distance from one is nought or far from the subnormal range.
    if !d.vanishes() {
        if d.unsigned() < 2 * FRACTION {
            lemma_magnitude_of(0, 2 * FRACTION as int);
            vstd::arithmetic::power2::lemma2_to64();
            lemma_magnitude_increases(d.unsigned(), 2 * FRACTION as int);
            lemma_magnitude_sign(d.unsigned());
            assert(v == u || b >= pow2(1021));
            assert(v < u);
        }
    }
    lemma_halved(d);
    if l.vanishes() || l.unsigned() >= 2 * FRACTION {
        lemma_halved(l);
        let s = magnitude(x.unsigned()) + magnitude(y.unsigned());
        assert(2 * s == v + b);
        lemma_round_is(s, 1, half);
        reveal(fadd);
    } else {
        // A tiny share: its distance from one is one.
        lemma_magnitude_of(0, 2 * FRACTION as int);
        vstd::arithmetic::power2::lemma2_to64();
        lemma_magnitude_increases(l.unsigned(), 2 * FRACTION as int);
        let one = 1023 * FRACTION;
        assert(0 <= v < 0x20_0000_0000_0000);
        lemma_round_is(u - v, 1, one);
        assert(d == fone()) by {
            reveal(fadd);
            lemma_magnitude_sign(l.unsigned());
        }
        // Half of it is at most itself.
        let h = magnitude(half);
        let t = round(v * h, u);
        assert(v * h >= 0) by (nonlinear_arith)
            requires
                v >= 0,
                h >= 0,
        ;
        lemma_round_range(v * h, u);
        lemma_exact_magnitude(l.unsigned());
        assert(v * h * 1 <= v * u) by (nonlinear_arith)
            requires
                2 * h == u,
                v >= 0,
                h >= 0,
        ;
        lemma_round_monotone(v * h, u, v, 1);
        if t < l.unsigned() {
            lemma_magnitude_increases(t, l.unsigned());
        }
        lemma_magnitude_sign(t);
        assert(x.unsigned() == t && !x.negative() && x.finite()) by {
            reveal(fmul);
        }
        let s = magnitude(t) + magnitude(y.unsigned());
        assert(2 * magnitude(y.unsigned()) == u);
        lemma_round_is(s, 1, half);
        reveal(fadd);
    }
}

/// A sum with a positive finite number is positive where the other number is not below zero.
pub proof fn lemma_positive_sum(x: Double, y: Double)
    requires
        !x.nan(),
        x.rank() >= 0,
        y.finite(),
        !y.negative(),
        !y.vanishes(),
    ensures
        !fadd(x, y).nan(),
        !fadd(x, y).negative(),
        fadd(x, y).unsigned() >= y.unsigned(),
{
    reveal(fadd);
    if x.finite() {
        lemma_magnitude_sign(x.unsigned());
        lemma_magnitude_sign(y.unsigned());
        lemma_exact_magnitude(y.unsigned());
        let v = magnitude(x.unsigned()) + magnitude(y.unsigned());
        if x.negative() {
            assert(x.vanishes());
        }
        lemma_round_range(v, 1);
        lemma_round_monotone(magnitude(y.unsigned()), 1, v, 1);
    }
}

/// The share of a part in a whole lies between nought and one.
pub proof fn lemma_share(part: int, whole: int)
    requires
        0 <= part <= whole,
        0 < whole <= u64::MAX,
    ensures
        fdiv(fcount(part), fcount(whole)).finite(),
        fle(fzero(), fdiv(fcount(part), fcount(whole))),
        fle(fdiv(fcount(part), fcount(whole)), fone()),
        !fdiv(fcount(part), fcount(whole)).negative(),
{
    lemma_one();
    lemma_pow2_pos(UNIT_EXPONENT as nat);
    crate::double::lemma_count_finite(part);
    crate::double::lemma_count_finite(whole);
    let x = fcount(part);
    let y = fcount(whole);
    // Counts are in the order of what they count.
    assert(x.unsigned() <= y.unsigned()) by {
        reveal(fcount);
        assert(part * unit() >= 0 && part * unit() <= whole * unit()) by (nonlinear_arith)
            requires
                0 <= part <= whole,
                unit() > 0,
        ;
        lemma_round_range(part * unit(), 1);
        lemma_round_range(whole * unit(), 1);
        lemma_round_monotone(part * unit(), 1, whole * unit(), 1);
    }
    lemma_magnitude_sign(x.unsigned());
    lemma_magnitude_sign(y.unsigned());
    let a = magnitude(x.unsigned());
    let b = magnitude(y.unsigned());
    if x.unsigned() < y.unsigned() {
        lemma_magnitude_increases(x.unsigned(), y.unsigned());
    }
    assert(a * unit() >= 0 && a * unit() * 1 <= unit() * b) by (nonlinear_arith)
        requires
            0 <= a <= b,
            unit() > 0,
    ;
    lemma_round_range(a * unit(), b);
    lemma_exact_magnitude(1023 * FRACTION);
    lemma_round_monotone(a * unit(), b, unit(), 1);
    reveal(fdiv);
}

/// The quotient of two counts above zero is above zero, and at most the count divided.
pub proof fn lemma_positive_ratio(num: int, den: int)
    requires
        0 < num <= 0x20_0000_0000_0000,
        0 < den <= 0x20_0000_0000_0000,
    ensures
        fratio(num, den).finite(),
        flt(fzero(), fratio(num, den)),
        fle(fratio(num, den), fcount(num)),
{
    lemma_one();
    lemma_pow2_pos(UNIT_EXPONENT as nat);
    lemma_count_exact(num);
    lemma_count_exact(den);
    let u = unit();
    let a = num * u;
    let b = den * u;
    assert(a > 0 && b > 0 && b <= a * u && a * u <= a * b) by (nonlinear_arith)
        requires
            a == num * u,
            b == den * u,
            0 < num,
            0 < den <= u,
    ;
    lemma_round_range(a * u, b);
    assert(magnitude(1) == 1) by {
        vstd::arithmetic::power2::lemma2_to64();
    }
    lemma_exact_magnitude(1);
    lemma_round_monotone(1, 1, a * u, b);
    lemma_exact_magnitude(fcount(num).unsigned());
    lemma_round_monotone(a * u, b, a, 1);
    reveal(fdiv);
}

/// A product with nought, of either sign, is nought.
pub proof fn lemma_vanishing_product(x: Double, y: Double)
    requires
        x.vanishes(),
        y.finite(),
    ensures
        fmul(x, y).vanishes(),
{
    reveal(fmul);
    lemma_pow2_pos(UNIT_EXPONENT as nat);
    lemma_magnitude_sign(0);
    assert(magnitude(0) * magnitude(y.unsigned()) == 0);
    lemma_exact_ratio(0, unit(), 0);
}

/// Nought, of either sign, divided by a finite number other than nought is nought.
pub proof fn lemma_vanishing_quotient(x: Double, y: Double)
    requires
        x.vanishes(),
        y.finite(),
        !y.vanishes(),
    ensures
        fdiv(x, y).vanishes(),
{
    reveal(fdiv);
    lemma_magnitude_sign(0);
    lemma_magnitude_sign(y.unsigned());
    assert(magnitude(0) * unit() == 0);
    lemma_exact_ratio(0, magnitude(y.unsigned()), 0);
}

} // verus!
