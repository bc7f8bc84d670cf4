//! How far a rounded result lies from the exact one.
//!
//! Numbers are taken as the reals they stand for. One operation moves its result by at most
//! a relative error of [`ulp`], and products and quotients by [`tiny`] more, where they run
//! into the smallest numbers.
use crate::double::{
    fadd, fcount, fdiv, fle, flt, fmul, fneg, fone, froot, fsub, fzero, lemma_round_range, unit,
    Double, UNIT_EXPONENT,
};
use crate::exact::{lemma_count_exact, lemma_magnitude_sign, lemma_one, lemma_power_magnitude};
use crate::rounding::{
    lemma_magnitude_increases, lemma_round_monotone, lemma_step, lemma_round_root_is, magnitude,
    nearest_root, round, round_root, spacing, FRACTION, INF_BITS,
};
use vstd::arithmetic::power2::{
    lemma_pow2_adds, lemma_pow2_pos, lemma_pow2_strictly_increases, pow2,
};
use vstd::prelude::*;

verus! {

/// The real number that a finite number stands for.
pub open spec fn exact(x: Double) -> real {
    (x.value() as real) / (unit() as real)
}

/// The relative error of one rounding.
pub open spec fn ulp() -> real {
    (1 as real) / (0x20_0000_0000_0000int as real)
}

/// The smallest positive number.
pub open spec fn tiny() -> real {
    (1 as real) / (unit() as real)
}

/// A size below which no result overflows.
pub open spec fn limit() -> real {
    pow2(1000) as real
}

/// The size of a real number.
pub open spec fn size(x: real) -> real {
    if x < (0 as real) {
        -x
    } else {
        x
    }
}

/// The spacing of a normal magnitude is a small part of it.
proof fn lemma_spacing_share(a: int)
    requires
        0 <= a,
    ensures
        spacing(a) == 1 || spacing(a) * FRACTION <= magnitude(a),
{
    let e = a / (FRACTION as int);
    let f = a % (FRACTION as int);
    if e > 0 {
        lemma_pow2_pos((e - 1) as nat);
        let w = pow2((e - 1) as nat) as int;
        assert(w * FRACTION <= (FRACTION + f) * w) by (nonlinear_arith)
            requires
                f >= 0,
                w > 0,
        ;
    }
}

/// How far a ratio lies from its rounding.
proof fn lemma_rounding_error(num: int, den: int)
    requires
        num >= 0,
        den > 0,
        round(num, den) < INF_BITS,
    ensures
        0x20_0000_0000_0000 * (magnitude(round(num, den)) * den - num) <= num + 0x20_0000_0000_0000
            * den,
        0x20_0000_0000_0000 * (num - magnitude(round(num, den)) * den) <= num + 0x20_0000_0000_0000
            * den,
        den == 1 ==> 0x20_0000_0000_0000 * (magnitude(round(num, den)) - num) <= num,
        den == 1 ==> 0x20_0000_0000_0000 * (num - magnitude(round(num, den))) <= num,
{
    lemma_round_range(num, den);
    let a = round(num, den);
    let m = magnitude(a);
    let s = spacing(a);
    lemma_step(a);
    lemma_spacing_share(a);
    lemma_magnitude_sign(a);
    let md = m * den;
    let sd = s * den;
    assert(2 * num <= 2 * md + sd && (s == 1 ==> sd == den) && (den == 1 ==> md == m && sd == s))
        by (nonlinear_arith)
        requires
            2 * num <= (m + (m + s)) * den,
            md == m * den,
            sd == s * den,
    ;
    if s != 1 {
        assert(sd * FRACTION <= md) by (nonlinear_arith)
            requires
                s * FRACTION <= m,
                den > 0,
                md == m * den,
                sd == s * den,
        ;
    }
    if a > 0 {
        lemma_step(a - 1);
        lemma_spacing_share(a - 1);
        lemma_magnitude_sign(a - 1);
        let r = spacing(a - 1);
        let p = magnitude(a - 1);
        let rd = r * den;
        let pd = p * den;
        assert(2 * md <= 2 * num + rd && pd <= num && (r == 1 ==> rd == den) && (den == 1 ==> rd
            == r)) by (nonlinear_arith)
            requires
                (p + m) * den <= 2 * num,
                m == p + r,
                r >= 1,
                den > 0,
                md == m * den,
                rd == r * den,
                pd == p * den,
        ;
        if r != 1 {
            assert(rd * FRACTION <= pd) by (nonlinear_arith)
                requires
                    r * FRACTION <= p,
                    den > 0,
                    rd == r * den,
                    pd == p * den,
            ;
        }
    } else {
        assert(md == 0) by (nonlinear_arith)
            requires
                m == 0,
                md == m * den,
        ;
    }
}

/// A ratio below the limit rounds to a finite magnitude.
proof fn lemma_no_overflow(num: int, den: int)
    requires
        num >= 0,
        den > 0,
        num <= pow2(2074) * den,
    ensures
        round(num, den) < INF_BITS,
{
    lemma_power_magnitude(2074);
    let a = 2023 * FRACTION;
    crate::double::lemma_exact_magnitude(a);
    lemma_round_monotone(num, den, pow2(2074) as int, 1);
}

proof fn lemma_units()
    ensures
        unit() > 0,
        (unit() as real) > (0 as real),
        pow2(2074) == pow2(1000) * unit(),
        limit() * (unit() as real) == pow2(2074) as real,
        ulp() > (0 as real),
        ulp() * (0x20_0000_0000_0000int as real) == (1 as real),
        tiny() > (0 as real),
        tiny() * (unit() as real) == (1 as real),
{
    lemma_pow2_pos(UNIT_EXPONENT as nat);
    lemma_pow2_adds(1000, UNIT_EXPONENT as nat);
    lemma_real_product(pow2(1000) as int, unit());
    let u = unit() as real;
    assert((1 as real) / u > (0 as real) && (1 as real) / u * u == (1 as real)) by (nonlinear_arith)
        requires
            u > (0 as real),
    ;
}

proof fn lemma_real_product(a: int, b: int)
    ensures
        (a as real) * (b as real) == (a * b) as real,
{
    assert((a as real) * (b as real) == (a * b) as real) by (nonlinear_arith);
}

/// A number as a multiple of the smallest one.
pub proof fn lemma_exact_multiple(x: Double)
    ensures
        exact(x) == (x.value() as real) * tiny(),
        size(exact(x)) == (magnitude(x.unsigned()) as real) * tiny(),
        0 <= x.unsigned() < 0x8000_0000_0000_0000,
        exact(fneg(x)) == -exact(x),
        exact(x) == if x.negative() {
            -((magnitude(x.unsigned()) as real) * tiny())
        } else {
            (magnitude(x.unsigned()) as real) * tiny()
        },
        (magnitude(x.unsigned()) as real) * tiny() >= (0 as real),
{
    lemma_units();
    lemma_magnitude_sign(x.unsigned());
    let u = unit() as real;
    let v = x.value() as real;
    let m = magnitude(x.unsigned()) as real;
    assert(v / u == v * ((1 as real) / u) && (-v) / u == -(v / u)) by (nonlinear_arith)
        requires
            u > (0 as real),
    ;
    let w = tiny();
    assert(m * w >= (0 as real) && (-m) * w == -(m * w)) by (nonlinear_arith)
        requires
            m >= (0 as real),
            w > (0 as real),
    ;
    assert(fneg(x).value() == -x.value());
}

/// The error of a sum.
pub proof fn lemma_sum_error(x: Double, y: Double)
    requires
        x.finite(),
        y.finite(),
        size(exact(x) + exact(y)) <= limit() || fadd(x, y).finite(),
    ensures
        fadd(x, y).finite(),
        size(exact(fadd(x, y)) - (exact(x) + exact(y))) <= ulp() * size(exact(x) + exact(y)),
{
    lemma_units();
    lemma_exact_multiple(x);
    lemma_exact_multiple(y);
    lemma_exact_multiple(fadd(x, y));
    reveal(fadd);
    let v = x.value() + y.value();
    let m = if v < 0 {
        -v
    } else {
        v
    };
    let w = tiny();
    let vr = v as real;
    let mr = m as real;
    assert(exact(x) + exact(y) == vr * w && size(vr * w) == mr * w) by {
        let a = x.value() as real;
        let b = y.value() as real;
        assert(a * w + b * w == vr * w && (vr >= (0 as real) ==> vr * w >= (0 as real)) && (vr < (
        0 as real) ==> vr * w < (0 as real)) && -(vr * w) == (-vr) * w) by (nonlinear_arith)
            requires
                vr == a + b,
                w > (0 as real),
        ;
    }
    if size(exact(x) + exact(y)) <= limit() {
        assert(m <= pow2(2074) * 1) by {
            let u = unit() as real;
            assert(mr <= limit() * u) by (nonlinear_arith)
                requires
                    mr * w <= limit(),
                    w * u == (1 as real),
                    u > (0 as real),
            ;
        }
        lemma_no_overflow(m, 1);
    }
    lemma_magnitude_sign(0);
    lemma_round_range(m, 1);
    if v == 0 {
        lemma_no_overflow(0, 1);
    }
    assert(round(m, 1) < INF_BITS);
    lemma_rounding_error(m, 1);
    let r = fadd(x, y);
    let s = r.value();
    let sr = s as real;
    let big = 0x20_0000_0000_0000int as real;
    if v != 0 {
        lemma_round_range(m, 1);
        assert(r.unsigned() == round(m, 1));
    }
    assert(big * (sr - vr) <= mr && big * (vr - sr) <= mr);
    assert(size(sr * w - vr * w) <= ulp() * (mr * w)) by {
        let e = ulp();
        assert(sr * w - vr * w <= e * (mr * w) && vr * w - sr * w <= e * (mr * w))
            by (nonlinear_arith)
            requires
                big * (sr - vr) <= mr,
                big * (vr - sr) <= mr,
                e * big == (1 as real),
                e > (0 as real),
                w > (0 as real),
        ;
    }
}

/// The error of a difference.
pub proof fn lemma_difference_error(x: Double, y: Double)
    requires
        x.finite(),
        y.finite(),
        size(exact(x) - exact(y)) <= limit() || fsub(x, y).finite(),
    ensures
        fsub(x, y).finite(),
        size(exact(fsub(x, y)) - (exact(x) - exact(y))) <= ulp() * size(exact(x) - exact(y)),
{
    lemma_exact_multiple(y);
    lemma_sum_error(x, fneg(y));
}

/// What a ratio of magnitudes rounds to, as reals.
proof fn lemma_ratio_error(num: int, den: int, t: real)
    requires
        num >= 0,
        den > 0,
        t == (num as real) / (den as real) * tiny(),
        t <= limit() || round(num, den) < INF_BITS,
    ensures
        round(num, den) < INF_BITS,
        t >= (0 as real),
        size((magnitude(round(num, den)) as real) * tiny() - t) <= ulp() * t + tiny(),
{
    lemma_units();
    let w = tiny();
    let u = unit() as real;
    let n = num as real;
    let d = den as real;
    let q = n / d;
    assert(q * d == n && q >= (0 as real)) by (nonlinear_arith)
        requires
            q == n / d,
            n >= (0 as real),
            d > (0 as real),
    ;
    let top = pow2(2074) as real;
    crate::reals::lemma_positive_product(q, w);
    if t <= limit() {
        assert(q <= top && n <= top * d && q * w >= (0 as real)) by (nonlinear_arith)
            requires
                q * w <= limit(),
                limit() * u == top,
                w * u == (1 as real),
                u > (0 as real),
                w > (0 as real),
                q * d == n,
                d > (0 as real),
                q >= (0 as real),
        ;
        lemma_real_product(pow2(2074) as int, den);
        lemma_no_overflow(num, den);
    }
    lemma_rounding_error(num, den);
    let m = magnitude(round(num, den));
    let mr = m as real;
    lemma_real_product(m, den);
    let big = 0x20_0000_0000_0000int as real;
    let md = (m * den) as real;
    assert(big * (md - n) <= n + big * d && big * (n - md) <= n + big * d);
    let e = ulp();
    assert(mr - q <= e * q + (1 as real) && q - mr <= e * q + (1 as real)) by (nonlinear_arith)
        requires
            big * (md - n) <= n + big * d,
            big * (n - md) <= n + big * d,
            md == mr * d,
            n == q * d,
            d > (0 as real),
            e * big == (1 as real),
            big > (0 as real),
    ;
    assert(mr * w - q * w <= e * (q * w) + w && q * w - mr * w <= e * (q * w) + w)
        by (nonlinear_arith)
        requires
            mr - q <= e * q + (1 as real),
            q - mr <= e * q + (1 as real),
            w > (0 as real),
    ;
}

/// The error of a product.
pub proof fn lemma_product_error(x: Double, y: Double)
    requires
        x.finite(),
        y.finite(),
        size(exact(x) * exact(y)) <= limit() || fmul(x, y).finite(),
    ensures
        fmul(x, y).finite(),
        size(exact(fmul(x, y)) - exact(x) * exact(y)) <= ulp() * size(exact(x) * exact(y)) + tiny(),
{
    lemma_units();
    lemma_exact_multiple(x);
    lemma_exact_multiple(y);
    lemma_exact_multiple(fmul(x, y));
    lemma_magnitude_sign(x.unsigned());
    lemma_magnitude_sign(y.unsigned());
    reveal(fmul);
    let w = tiny();
    let u = unit() as real;
    let a = magnitude(x.unsigned());
    let b = magnitude(y.unsigned());
    let ar = a as real;
    let br = b as real;
    lemma_real_product(a, b);
    let ab = (a * b) as real;
    let t = ab / u * w;
    assert(a * b >= 0) by (nonlinear_arith)
        requires
            a >= 0,
            b >= 0,
    ;
    assert(t == (ar * w) * (br * w)) by (nonlinear_arith)
        requires
            t == ab / u * w,
            ab == ar * br,
            w * u == (1 as real),
            u > (0 as real),
    ;
    let p = exact(x);
    let q = exact(y);
    assert(size(p * q) == t) by {
        lemma_size_product(p, q);
    }
    lemma_round_range(a * b, unit());
    lemma_ratio_error(a * b, unit(), t);
    lemma_magnitude_sign(0);
    let r = round(a * b, unit());
    assert(fmul(x, y).unsigned() == r);
    lemma_magnitude_sign(r);
    let m = magnitude(r) as real;
    lemma_product_sign(p, q);
    assert(fmul(x, y).negative() == (x.negative() != y.negative()));
    if x.negative() == y.negative() {
        assert(p * q == t);
        assert(exact(fmul(x, y)) == m * w);
    } else {
        assert(p * q == -t);
        assert(exact(fmul(x, y)) == -(m * w));
    }
}

proof fn lemma_size_product(p: real, q: real)
    ensures
        size(p * q) == size(p) * size(q),
{
    assert(size(p * q) == size(p) * size(q)) by (nonlinear_arith)
        requires
            size(p) == if p < (0 as real) {
                -p
            } else {
                p
            },
            size(q) == if q < (0 as real) {
                -q
            } else {
                q
            },
            size(p * q) == if p * q < (0 as real) {
                -(p * q)
            } else {
                p * q
            },
    ;
}

proof fn lemma_product_sign(p: real, q: real)
    ensures
        p >= (0 as real) && q >= (0 as real) ==> p * q >= (0 as real),
        p <= (0 as real) && q <= (0 as real) ==> p * q >= (0 as real),
        p >= (0 as real) && q <= (0 as real) ==> p * q <= (0 as real),
        p <= (0 as real) && q >= (0 as real) ==> p * q <= (0 as real),
{
    assert(p >= (0 as real) && q >= (0 as real) ==> p * q >= (0 as real)) by (nonlinear_arith);
    assert(p <= (0 as real) && q <= (0 as real) ==> p * q >= (0 as real)) by (nonlinear_arith);
    assert(p >= (0 as real) && q <= (0 as real) ==> p * q <= (0 as real)) by (nonlinear_arith);
    assert(p <= (0 as real) && q >= (0 as real) ==> p * q <= (0 as real)) by (nonlinear_arith);
}

/// The error of a quotient.
pub proof fn lemma_quotient_error(x: Double, y: Double)
    requires
        x.finite(),
        y.finite(),
        !y.vanishes(),
        size(exact(x) / exact(y)) <= limit() || fdiv(x, y).finite(),
    ensures
        fdiv(x, y).finite(),
        size(exact(fdiv(x, y)) - exact(x) / exact(y)) <= ulp() * size(exact(x) / exact(y))
            + tiny(),
{
    lemma_units();
    lemma_exact_multiple(x);
    lemma_exact_multiple(y);
    lemma_exact_multiple(fdiv(x, y));
    lemma_magnitude_sign(x.unsigned());
    lemma_magnitude_sign(y.unsigned());
    reveal(fdiv);
    let w = tiny();
    let u = unit() as real;
    let a = magnitude(x.unsigned());
    let b = magnitude(y.unsigned());
    let ar = a as real;
    let br = b as real;
    lemma_real_product(a, unit());
    let au = (a * unit()) as real;
    let t = au / br * w;
    assert(a * unit() >= 0) by (nonlinear_arith)
        requires
            a >= 0,
            unit() > 0,
    ;
    let p = exact(x);
    let q = exact(y);
    let aw = ar * w;
    let bw = br * w;
    assert(t == aw / bw && bw > (0 as real) && aw / bw >= (0 as real)) by (nonlinear_arith)
        requires
            t == au / br * w,
            au == ar * u,
            w * u == (1 as real),
            u > (0 as real),
            w > (0 as real),
            br > (0 as real),
            ar >= (0 as real),
            aw == ar * w,
            bw == br * w,
    ;
    assert((-aw) / bw == -(aw / bw) && aw / (-bw) == -(aw / bw) && (-aw) / (-bw) == aw / bw)
        by (nonlinear_arith)
        requires
            bw > (0 as real),
    ;
    lemma_round_range(a * unit(), b);
    assert(size(p / q) == t);
    lemma_ratio_error(a * unit(), b, t);
    lemma_magnitude_sign(0);
    let r = round(a * unit(), b);
    assert(fdiv(x, y).unsigned() == r);
    let m = magnitude(r) as real;
    assert(fdiv(x, y).negative() == (x.negative() != y.negative()));
    if x.negative() == y.negative() {
        assert(p / q == t);
        assert(exact(fdiv(x, y)) == m * w);
    } else {
        assert(p / q == -t);
        assert(exact(fdiv(x, y)) == -(m * w));
    }
}

/// A count up to two to the power of fifty-three is held exactly.
pub proof fn lemma_exact_count(k: int)
    requires
        0 <= k <= 0x20_0000_0000_0000,
    ensures
        exact(fcount(k)) == k as real,
        fcount(k).finite(),
        !fcount(k).negative(),
        fcount(k).vanishes() <==> k == 0,
{
    lemma_units();
    lemma_count_exact(k);
    lemma_exact_multiple(fcount(k));
    lemma_real_product(k, unit());
    let kr = k as real;
    let u = unit() as real;
    let w = tiny();
    assert(kr * u * w == kr) by (nonlinear_arith)
        requires
            w * u == (1 as real),
    ;
    crate::double::lemma_small_counts();
}

/// The order of finite numbers is that of the reals they stand for.
pub proof fn lemma_exact_order(x: Double, y: Double)
    requires
        x.finite(),
        y.finite(),
    ensures
        fle(x, y) <==> exact(x) <= exact(y),
        flt(x, y) <==> exact(x) < exact(y),
        exact(fzero()) == (0 as real),
        exact(fone()) == (1 as real),
        x.vanishes() <==> exact(x) == (0 as real),
{
    lemma_units();
    lemma_exact_multiple(x);
    lemma_exact_multiple(y);
    lemma_exact_multiple(fzero());
    lemma_exact_multiple(fone());
    lemma_magnitude_sign(x.unsigned());
    lemma_magnitude_sign(y.unsigned());
    lemma_magnitude_sign(0);
    lemma_one();
    if x.unsigned() < y.unsigned() {
        lemma_magnitude_increases(x.unsigned(), y.unsigned());
    } else if y.unsigned() < x.unsigned() {
        lemma_magnitude_increases(y.unsigned(), x.unsigned());
    }
    let a = x.value() as real;
    let b = y.value() as real;
    let w = tiny();
    assert((a <= b <==> a * w <= b * w) && (a < b <==> a * w < b * w) && (a == (0 as real) <==> a
        * w == (0 as real)) && (0 as real) * w == (0 as real)) by (nonlinear_arith)
        requires
            w > (0 as real),
    ;
    assert(fone().value() == unit());
    let u = unit() as real;
    assert(u * w == (1 as real)) by (nonlinear_arith)
        requires
            w * u == (1 as real),
    ;
}

/// The smallest number is far below the relative error, and that far below one.
pub proof fn lemma_small_errors()
    ensures
        (0 as real) < ulp() <= (1 as real) / (1_000_000 as real),
        (0 as real) < tiny() <= ulp() * ulp(),
        tiny() <= ulp(),
        limit() >= (0x20_0000_0000_0000int as real) * (0x20_0000_0000_0000int as real),
{
    lemma_units();
    lemma_one();
    let big = 0x20_0000_0000_0000int;
    let w = tiny();
    let e = ulp();
    let u = unit() as real;
    let b = big as real;
    assert(unit() >= big * big);
    assert(u >= b * b);
    assert(w <= e * e) by (nonlinear_arith)
        requires
            w * u == (1 as real),
            e * b == (1 as real),
            u >= b * b,
            w > (0 as real),
            e > (0 as real),
    ;
    vstd::arithmetic::power2::lemma2_to64_rest();
    lemma_pow2_adds(53, 53);
    lemma_pow2_strictly_increases(106, 1000);
    crate::reals::lemma_scale_order(ulp(), 1 as real, ulp());
}

/// The first encoding, counted from `a`, whose upper midpoint is not below the root.
proof fn lemma_root_from(square: int, a: int) -> (b: int)
    requires
        0 <= a <= INF_BITS,
        a > 0 ==> {
            let midpoint = magnitude(a - 1) + magnitude(a);
            midpoint * midpoint < 4 * square || (midpoint * midpoint == 4 * square && a % 2 == 0)
        },
    ensures
        nearest_root(square, b),
    decreases INF_BITS - a,
{
    let midpoint = magnitude(a) + magnitude(a + 1);
    if a == INF_BITS || 4 * square < midpoint * midpoint || (4 * square == midpoint * midpoint && a
        % 2 == 0) {
        a
    } else {
        lemma_root_from(square, a + 1)
    }
}

/// The rounded root is far from overflow where the number is.
proof fn lemma_root_no_overflow(square: int, a: int)
    requires
        nearest_root(square, a),
        0 <= square <= pow2(2098) * unit(),
    ensures
        a < INF_BITS,
{
    lemma_units();
    let p = pow2(2074) as int;
    let q = unit();
    let r = pow2(2098) as int;
    lemma_pow2_adds(24, 2074);
    vstd::arithmetic::power2::lemma2_to64();
    if a == INF_BITS {
        lemma_power_magnitude(2074);
        lemma_power_magnitude(2075);
        let b = 2023 * FRACTION;
        lemma_magnitude_increases(b, a);
        if b < a - 1 {
            lemma_magnitude_increases(b, a - 1);
        }
        lemma_pow2_strictly_increases(UNIT_EXPONENT as nat, 2074);
        let midpoint = magnitude(a - 1) + magnitude(a);
        assert(4 * (p * p) <= midpoint * midpoint) by (nonlinear_arith)
            requires
                0 <= 2 * p <= midpoint,
        ;
        lemma_pow2_adds(24, UNIT_EXPONENT as nat);
        lemma_pow2_strictly_increases(UNIT_EXPONENT as nat + 24, 2074);
        let f = pow2(24) as int;
        assert(r * q < p * p) by (nonlinear_arith)
            requires
                r == f * p,
                f * q < p,
                0 < p,
        ;
    }
}

/// The rounded root of a large square is not among the smallest magnitudes.
proof fn lemma_root_normal(square: int, a: int)
    requires
        nearest_root(square, a),
        a < INF_BITS,
        unit() <= square,
    ensures
        FRACTION <= magnitude(a),
{
    let m = magnitude(a);
    lemma_magnitude_sign(a);
    if m < FRACTION {
        lemma_step(a);
        lemma_spacing_share(a);
        let s = spacing(a);
        assert(s == 1) by (nonlinear_arith)
            requires
                s >= 1,
                s == 1 || s * FRACTION <= m,
                m < FRACTION,
        ;
        let midpoint = m + magnitude(a + 1);
        let top: int = 0x20_0000_0000_0000;
        assert(midpoint * midpoint <= top * top) by (nonlinear_arith)
            requires
                0 <= midpoint <= top,
        ;
        vstd::arithmetic::power2::lemma2_to64();
        lemma_pow2_adds(64, 64);
        lemma_pow2_strictly_increases(128, UNIT_EXPONENT as nat);
        assert(pow2(64) == 0x1_0000_0000_0000_0000);
        assert(pow2(128) == 0x1_0000_0000_0000_0000 * 0x1_0000_0000_0000_0000int);
    }
}

/// The rounded root of a square is within a relative error of the root.
proof fn lemma_root_nearness(square: int, m: int, below: int, above: int)
    requires
        m >= 1,
        0 <= below,
        0 <= above,
        below * FRACTION <= m,
        above * FRACTION <= m,
        (2 * m - below) * (2 * m - below) <= 4 * square,
        4 * square <= (2 * m + above) * (2 * m + above),
    ensures
        0x20_0000_0000_0000 * (m * m - square) <= 3 * (m * m),
        0x20_0000_0000_0000 * (square - m * m) <= 3 * (m * m),
{
    let f = FRACTION as int;
    let mm = m * m;
    let mb = m * below;
    let ma = m * above;
    let bb = below * below;
    let aa = above * above;
    assert((2 * m - below) * (2 * m - below) == 4 * mm - 4 * mb + bb) by (nonlinear_arith)
        requires
            mm == m * m,
            mb == m * below,
            bb == below * below,
    ;
    assert((2 * m + above) * (2 * m + above) == 4 * mm + 4 * ma + aa) by (nonlinear_arith)
        requires
            mm == m * m,
            ma == m * above,
            aa == above * above,
    ;
    assert(mb * f <= mm) by (nonlinear_arith)
        requires
            below * f <= m,
            m >= 1,
            mb == m * below,
            mm == m * m,
    ;
    assert(ma * f <= mm) by (nonlinear_arith)
        requires
            above * f <= m,
            m >= 1,
            ma == m * above,
            mm == m * m,
    ;
    assert(above <= m) by (nonlinear_arith)
        requires
            above * f <= m,
            0 <= above,
            f == FRACTION,
    ;
    assert(aa <= ma) by (nonlinear_arith)
        requires
            0 <= above <= m,
            aa == above * above,
            ma == m * above,
    ;
    assert(bb >= 0) by (nonlinear_arith)
        requires
            bb == below * below,
    ;
}

/// A root is within a relative error of the exact one.
pub proof fn lemma_root_error(x: Double)
    requires
        x.finite(),
        (0 as real) < exact(x),
    ensures
        froot(x).finite(),
        exact(froot(x)) > (0 as real),
        !froot(x).negative(),
        size(exact(froot(x)) * exact(froot(x)) - exact(x)) <= (3 as real) * ulp() * (exact(froot(x))
            * exact(froot(x))),
{
    lemma_units();
    lemma_exact_order(x, x);
    lemma_exact_multiple(x);
    reveal(froot);
    let w = tiny();
    let u = unit() as real;
    let g = magnitude(x.unsigned());
    let square = g * unit();
    lemma_magnitude_sign(x.unsigned());
    lemma_magnitude_increases(x.unsigned(), INF_BITS as int);
    lemma_pow2_adds(52, 2046);
    vstd::arithmetic::power2::lemma2_to64_rest();
    assert(pow2(52) == FRACTION);
    assert(magnitude(INF_BITS as int) == FRACTION * pow2(2046));
    assert(g <= pow2(2098));
    assert(0 <= square <= pow2(2098) * unit() && unit() <= square) by (nonlinear_arith)
        requires
            square == g * unit(),
            1 <= g <= pow2(2098),
            unit() > 0,
    ;
    let b = lemma_root_from(square, 0);
    let a = round_root(square);
    lemma_round_root_is(square, b);
    lemma_root_no_overflow(square, a);
    lemma_root_normal(square, a);
    let m = magnitude(a);
    lemma_magnitude_sign(a);
    lemma_step(a);
    lemma_spacing_share(a);
    lemma_step(a - 1);
    lemma_spacing_share(a - 1);
    lemma_root_nearness(square, m, spacing(a - 1), spacing(a));
    let r = froot(x);
    lemma_exact_multiple(r);
    assert(r.unsigned() == a && !r.negative());
    let mr = m as real;
    let e = exact(r);
    assert(e == mr * w);
    crate::reals::lemma_positive_product(mr, w);
    // Both sides are so many squares of the smallest number.
    let ww = w * w;
    crate::reals::lemma_positive_product(w, w);
    let mm = mr * mr;
    lemma_real_product(m, m);
    crate::reals::lemma_associate(mr * w, mr, w);
    crate::reals::lemma_associate(mr, w, mr);
    crate::reals::lemma_commute(w, mr);
    crate::reals::lemma_associate(mr, mr, w);
    crate::reals::lemma_associate(mm, w, w);
    assert(e * e == mm * ww);
    let sr = square as real;
    lemma_real_product(g, unit());
    crate::reals::lemma_associate(g as real, u, ww);
    crate::reals::lemma_associate(u, w, w);
    crate::reals::lemma_commute(u, w);
    let uw = u * w;
    let one = 1 as real;
    assert(uw == one);
    assert(one * w == w);
    assert(u * ww == uw * w);
    assert(u * ww == w);
    assert(exact(x) == sr * ww);
    let d = mm - sr;
    crate::reals::lemma_distribute(ww, mm, sr);
    let big = 0x20_0000_0000_0000int as real;
    let v = ulp();
    lemma_real_product(0x20_0000_0000_0000, m * m - square);
    lemma_real_product(0x20_0000_0000_0000, square - m * m);
    lemma_real_product(3, m * m);
    let three = 3 as real;
    assert(big * d <= three * mm);
    assert(big * (-d) <= three * mm);
    crate::reals::lemma_scale_order(big * d, three * mm, v);
    crate::reals::lemma_scale_order(big * (-d), three * mm, v);
    crate::reals::lemma_associate(v, big, d);
    crate::reals::lemma_associate(v, big, -d);
    assert(v * (big * d) == d);
    assert(v * (big * (-d)) == -d);
    crate::reals::lemma_associate(v, three, mm);
    crate::reals::lemma_commute(v, three);
    let k = three * v;
    assert(d <= k * mm && -d <= k * mm);
    crate::reals::lemma_scale_order(d, k * mm, ww);
    crate::reals::lemma_scale_order(-d, k * mm, ww);
    crate::reals::lemma_associate(k, mm, ww);
    let zero = 0 as real;
    crate::reals::lemma_distribute(ww, zero, d);
    crate::reals::lemma_scale_order(zero, zero, ww);
    assert((-d) * ww == -(d * ww));
}

/// A small number whose square is still far above the smallest one.
pub open spec fn least() -> real {
    (1 as real) / (pow2(400) as real)
}

/// How small the small number is, and how large its square next to the smallest one.
pub proof fn lemma_least()
    ensures
        (0 as real) < least() <= (1 as real) / (0x1_0000_0000_0000_0000int as real),
        (0 as real) < least() * least() <= least(),
        (0x1_0000_0000_0000_0000int as real) * tiny() <= ulp() * (least() * least()),
        (0x1_0000_0000_0000_0000int as real) <= limit() * (least() * least()),
{
    lemma_units();
    vstd::arithmetic::power2::lemma2_to64();
    lemma_pow2_adds(400, 400);
    lemma_pow2_adds(800, 274);
    lemma_pow2_adds(64, 64);
    lemma_pow2_strictly_increases(64, 400);
    lemma_pow2_strictly_increases(128, 274);
    let p = pow2(400) as int;
    let q = pow2(274) as int;
    let one = 1 as real;
    let pr = p as real;
    let qr = q as real;
    let l = least();
    crate::reals::lemma_quotient_back(one, pr);
    assert(pow2(64) == 0x1_0000_0000_0000_0000);
    assert(l * pr == one);
    let huge = 0x1_0000_0000_0000_0000int as real;
    crate::reals::lemma_cancel_order(l, one / huge, pr);
    let zero = 0 as real;
    assert(zero * pr == zero);
    if l <= zero {
        crate::reals::lemma_scale_order(l, zero, pr);
    }
    crate::reals::lemma_positive_product(l, l);
    crate::reals::lemma_scale_order(l, one, l);
    // Both sides, times the unit.
    let u = unit() as real;
    let w = tiny();
    let v = ulp();
    lemma_real_product(p, p);
    lemma_real_product(p * p, q);
    assert(u == pr * pr * qr);
    let ll = l * l;
    let pp = pr * pr;
    crate::reals::lemma_associate(ll, pp, qr);
    crate::reals::lemma_associate(l * l, pr, pr);
    crate::reals::lemma_associate(l, l, pr);
    assert(l * l * pr == l);
    assert(ll * pp == one);
    let lp = ll * pp;
    assert(one * qr == qr);
    assert(lp * qr == qr);
    assert(ll * (pp * qr) == qr);
    assert(ll * u == qr);
    crate::reals::lemma_associate(v, ll, u);
    assert(v * ll * u == v * qr);
    crate::reals::lemma_associate(huge, w, u);
    assert(huge * w * u == huge);
    lemma_real_product(0x1_0000_0000_0000_0000, 0x1_0000_0000_0000_0000);
    assert(pow2(128) == 0x1_0000_0000_0000_0000 * 0x1_0000_0000_0000_0000int);
    assert(qr >= huge * huge);
    crate::reals::lemma_scale_order(huge * huge, qr, v);
    assert(v * (huge * huge) >= huge);
    crate::reals::lemma_cancel_order(huge * w, v * ll, u);
    // The limit is the square of the inverse, and more.
    lemma_pow2_adds(800, 200);
    lemma_pow2_strictly_increases(64, 200);
    let k = pow2(200) as int;
    let kr = k as real;
    lemma_real_product(p * p, k);
    assert(limit() == pp * kr);
    crate::reals::lemma_commute(limit(), ll);
    crate::reals::lemma_associate(ll, pp, kr);
    assert(one * kr == kr);
    assert(lp * kr == kr);
}

/// A sum of two numbers within the limit does not overflow.
pub proof fn lemma_no_overflow_near_limit(x: Double, y: Double)
    requires
        x.finite(),
        y.finite(),
        size(exact(x)) <= limit(),
        size(exact(y)) <= limit(),
    ensures
        fadd(x, y).finite(),
{
    lemma_units();
    lemma_exact_multiple(x);
    lemma_exact_multiple(y);
    reveal(fadd);
    let u = unit() as real;
    let a = magnitude(x.unsigned());
    let b = magnitude(y.unsigned());
    let w = tiny();
    lemma_magnitude_sign(x.unsigned());
    lemma_magnitude_sign(y.unsigned());
    lemma_magnitude_sign(0);
    crate::reals::lemma_scale_order((a as real) * w, limit(), u);
    crate::reals::lemma_associate(a as real, w, u);
    crate::reals::lemma_scale_order((b as real) * w, limit(), u);
    crate::reals::lemma_associate(b as real, w, u);
    assert((a as real) * (w * u) == a as real);
    assert((b as real) * (w * u) == b as real);
    assert(a <= pow2(2074) && b <= pow2(2074));
    let v = x.value() + y.value();
    let m = if v < 0 {
        -v
    } else {
        v
    };
    lemma_pow2_adds(1, 2074);
    vstd::arithmetic::power2::lemma2_to64();
    assert(m <= pow2(2075));
    lemma_power_magnitude(2075);
    let c = 2024 * FRACTION;
    crate::double::lemma_exact_magnitude(c);
    lemma_round_monotone(m, 1, pow2(2075) as int, 1);
    lemma_round_range(m, 1);
}

/// A product of two numbers up to one is at most one.
pub proof fn lemma_unit_product(x: Double, y: Double)
    requires
        x.finite(),
        y.finite(),
        fmul(x, y).finite(),
        (0 as real) <= exact(x) <= (1 as real),
        (0 as real) <= exact(y) <= (1 as real),
    ensures
        exact(fmul(x, y)) <= (1 as real),
{
    lemma_units();
    lemma_one();
    lemma_exact_order(fone(), fone());
    lemma_exact_multiple(x);
    lemma_exact_multiple(y);
    lemma_exact_multiple(fone());
    lemma_exact_multiple(fmul(x, y));
    let u = unit();
    let ur = u as real;
    let w = tiny();
    let a = magnitude(x.unsigned());
    let b = magnitude(y.unsigned());
    let c = magnitude(fone().unsigned());
    lemma_magnitude_sign(x.unsigned());
    lemma_magnitude_sign(y.unsigned());
    lemma_magnitude_sign(fone().unsigned());
    crate::reals::lemma_scale_order((a as real) * w, 1 as real, ur);
    crate::reals::lemma_associate(a as real, w, ur);
    crate::reals::lemma_scale_order((b as real) * w, 1 as real, ur);
    crate::reals::lemma_associate(b as real, w, ur);
    assert((a as real) * (w * ur) == a as real);
    assert((b as real) * (w * ur) == b as real);
    assert(a <= u && b <= u);
    crate::reals::lemma_associate(c as real, w, ur);
    assert((c as real) * (w * ur) == c as real);
    assert((c as real) * w == (1 as real));
    assert(c == u);
    assert(0 <= a * b <= u * u) by (nonlinear_arith)
        requires
            0 <= a <= u,
            0 <= b <= u,
    ;
    reveal(fmul);
    let r = round(a * b, u);
    lemma_round_range(a * b, u);
    lemma_round_monotone(a * b, u, u, 1);
    crate::double::lemma_exact_magnitude(fone().unsigned());
    assert(r <= fone().unsigned());
    if r < fone().unsigned() {
        lemma_magnitude_increases(r, fone().unsigned());
    }
    lemma_magnitude_sign(r);
    let p = fmul(x, y);
    assert(p.unsigned() == r);
    crate::reals::lemma_scale_order(magnitude(r) as real, c as real, w);
}

/// Numbers are ordered as their values are.
pub proof fn lemma_value_order(x: Double, y: Double)
    requires
        exact(x) <= exact(y),
    ensures
        x.value() <= y.value(),
{
    lemma_units();
    let u = unit() as real;
    crate::reals::lemma_scale_order(exact(x), exact(y), u);
    crate::reals::lemma_quotient_back(x.value() as real, u);
    crate::reals::lemma_quotient_back(y.value() as real, u);
}

/// A product with a number up to one does not overflow.
pub proof fn lemma_shrinking_product(x: Double, f: Double)
    requires
        x.finite(),
        f.finite(),
        (0 as real) <= exact(f) <= (1 as real),
    ensures
        fmul(x, f).finite(),
{
    lemma_units();
    lemma_exact_multiple(f);
    let u = unit();
    let ur = u as real;
    let w = tiny();
    let a = magnitude(x.unsigned());
    let b = magnitude(f.unsigned());
    lemma_magnitude_sign(x.unsigned());
    lemma_magnitude_sign(f.unsigned());
    crate::reals::lemma_scale_order((b as real) * w, 1 as real, ur);
    crate::reals::lemma_associate(b as real, w, ur);
    assert((b as real) * (w * ur) == b as real);
    assert(b <= u);
    assert(0 <= a * b <= a * u) by (nonlinear_arith)
        requires
            0 <= b <= u,
            0 <= a,
    ;
    reveal(fmul);
    lemma_round_range(a * b, u);
    lemma_round_monotone(a * b, u, a, 1);
    crate::double::lemma_exact_magnitude(x.unsigned());
}

} // verus!
