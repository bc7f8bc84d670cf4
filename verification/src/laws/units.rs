//! Laws on the unit that scores are measured in.
use crate::config::DiscriminationConfig;
use crate::double::{
    fadd, fcount, fdiv, feq, ffloor, fle, flt, fmax, fmul, fneg, fone, fratio, fsub,
    lemma_round_range, unit, Double, UNIT_EXPONENT,
};
use crate::exact::lemma_magnitude_sign;
use crate::laws::ranking::lemma_order_sorts;
use crate::numeric::{ascending, fsum, order_of, total_key, total_keys};
use crate::rounding::{
    lemma_magnitude_of, lemma_round_is, magnitude, nearest, round, FRACTION, INF_BITS,
};
use crate::sorting::{in_order, lemma_sort_unique, sorts, sorts_before};
use crate::weighting::discrimination::{
    bulk_gap, distinct, gap_floor, quantile, separation_defined, separation_of, separation_ratio,
    top_count, top_mean,
};
use vstd::arithmetic::power2::{lemma_pow2_adds, lemma_pow2_pos, pow2};
use vstd::prelude::*;

verus! {

/// A number multiplied by two to the power of `k`.
pub open spec fn enlarged(x: Double, k: int) -> Double {
    if x.vanishes() {
        x
    } else {
        Double { bits: (x.bits + k * FRACTION) as u64 }
    }
}

/// A number that is zero, or normal before and after it is multiplied by two to the power
/// of `k`.
pub open spec fn steady(x: Double, k: int) -> bool {
    x.vanishes() || FRACTION < x.unsigned() < INF_BITS - k * FRACTION
}

/// Adding `k` to the exponent of a normal magnitude multiplies it by two to the power of `k`.
pub proof fn lemma_shifted(a: int, k: int)
    requires
        FRACTION <= a,
        0 <= k,
    ensures
        magnitude(a + k * FRACTION) == magnitude(a) * pow2(k as nat),
{
    let p = FRACTION as int;
    let u = a / p - 1;
    let s = p + a % p;
    assert(a / p >= 1 && a == (a / p) * p + a % p && 0 <= a % p < p) by (nonlinear_arith)
        requires
            p > 0,
            a >= p,
    ;
    assert(u * p + s == a && (u + k) * p + s == a + k * p) by (nonlinear_arith)
        requires
            u == a / p - 1,
            s == p + a % p,
            a == (a / p) * p + a % p,
    ;
    lemma_magnitude_of(u, s);
    lemma_magnitude_of(u + k, s);
    lemma_pow2_adds(u as nat, k as nat);
    let x = pow2(u as nat) as int;
    let y = pow2(k as nat) as int;
    assert(s * (x * y) == (s * x) * y) by (nonlinear_arith);
}

/// Adding to the exponent keeps an encoding even or odd.
proof fn lemma_same_parity(a: int, k: int)
    ensures
        (a + k * FRACTION) % 2 == a % 2,
{
    let h = k * 0x8_0000_0000_0000;
    assert(k * FRACTION == 2 * h);
}

/// Rounding a ratio that is multiplied by a power of two.
#[verifier::spinoff_prover]
#[verifier::rlimit(50)]
proof fn lemma_round_shifted(num: int, den: int, k: int)
    requires
        num >= 0,
        den > 0,
        0 <= k,
        FRACTION < round(num, den) < INF_BITS - k * FRACTION,
    ensures
        round(num * pow2(k as nat), den) == round(num, den) + k * FRACTION,
{
    let a = round(num, den);
    let w = pow2(k as nat) as int;
    let b = a + k * FRACTION;
    lemma_pow2_pos(k as nat);
    lemma_round_range(num, den);
    lemma_shifted(a - 1, k);
    lemma_shifted(a, k);
    lemma_shifted(a + 1, k);
    let low = magnitude(a - 1) + magnitude(a);
    let high = magnitude(a) + magnitude(a + 1);
    assert(magnitude(b - 1) + magnitude(b) == low * w && magnitude(b) + magnitude(b + 1) == high
        * w) by (nonlinear_arith)
        requires
            magnitude(b - 1) == magnitude(a - 1) * w,
            magnitude(b) == magnitude(a) * w,
            magnitude(b + 1) == magnitude(a + 1) * w,
            low == magnitude(a - 1) + magnitude(a),
            high == magnitude(a) + magnitude(a + 1),
    ;
    lemma_scaled_comparison(low * den, 2 * num, w);
    lemma_scaled_comparison(2 * num, high * den, w);
    assert(low * w * den == low * den * w && high * w * den == high * den * w && 2 * (num * w) == 2
        * num * w) by (nonlinear_arith);
    lemma_same_parity(a, k);
    assert(nearest(num * w, den, b));
    lemma_round_is(num * w, den, b);
}

proof fn lemma_scaled_comparison(x: int, y: int, w: int)
    requires
        w > 0,
    ensures
        x < y <==> x * w < y * w,
        x == y <==> x * w == y * w,
{
    assert(x < y ==> x * w < y * w) by (nonlinear_arith)
        requires
            w > 0,
    ;
    assert(y < x ==> y * w < x * w) by (nonlinear_arith)
        requires
            w > 0,
    ;
}

/// The value of an enlarged number is the multiple of its value.
pub proof fn lemma_enlarged_value(x: Double, k: int)
    requires
        steady(x, k),
        0 <= k,
    ensures
        enlarged(x, k).unsigned() == if x.vanishes() {
            0
        } else {
            x.unsigned() + k * FRACTION
        },
        enlarged(x, k).negative() == x.negative(),
        enlarged(x, k).finite(),
        magnitude(enlarged(x, k).unsigned()) == magnitude(x.unsigned()) * pow2(k as nat),
        enlarged(x, k).value() == x.value() * pow2(k as nat),
        fneg(enlarged(x, k)) == enlarged(fneg(x), k),
        steady(fneg(x), k),
{
    let w = pow2(k as nat) as int;
    assert(k * FRACTION >= 0);
    lemma_magnitude_sign(0);
    if !x.vanishes() {
        lemma_shifted(x.unsigned(), k);
        assert(-(magnitude(x.unsigned()) * w) == -magnitude(x.unsigned()) * w) by (nonlinear_arith);
    } else {
        assert(0 * w == 0);
    }
}

/// The order of steady numbers is that of their multiples.
proof fn lemma_enlarged_order(x: Double, y: Double, k: int)
    requires
        steady(x, k),
        steady(y, k),
        0 <= k,
    ensures
        flt(enlarged(x, k), enlarged(y, k)) == flt(x, y),
        fle(enlarged(x, k), enlarged(y, k)) == fle(x, y),
        feq(enlarged(x, k), enlarged(y, k)) == feq(x, y),
        total_key(enlarged(x, k)) < total_key(enlarged(y, k)) <==> total_key(x) < total_key(y),
        total_key(enlarged(x, k)) == total_key(enlarged(y, k)) <==> total_key(x) == total_key(y),
        fmax(enlarged(x, k), enlarged(y, k)) == enlarged(fmax(x, y), k),
        steady(fmax(x, y), k),
{
    lemma_enlarged_value(x, k);
    lemma_enlarged_value(y, k);
    assert(k * FRACTION >= 0);
}

/// Adding multiples adds what they are multiples of.
proof fn lemma_enlarged_sum(x: Double, y: Double, k: int)
    requires
        steady(x, k),
        steady(y, k),
        steady(fadd(x, y), k),
        0 <= k,
    ensures
        fadd(enlarged(x, k), enlarged(y, k)) == enlarged(fadd(x, y), k),
{
    lemma_enlarged_value(x, k);
    lemma_enlarged_value(y, k);
    lemma_pow2_pos(k as nat);
    reveal(fadd);
    let w = pow2(k as nat) as int;
    let v = x.value() + y.value();
    assert(enlarged(x, k).value() + enlarged(y, k).value() == v * w && (v > 0 ==> v * w > 0) && (v
        < 0 ==> v * w < 0) && (v == 0 ==> v * w == 0) && -(v * w) == -v * w) by (nonlinear_arith)
        requires
            enlarged(x, k).value() == x.value() * w,
            enlarged(y, k).value() == y.value() * w,
            v == x.value() + y.value(),
            w > 0,
    ;
    if v != 0 {
        let m = if v < 0 {
            -v
        } else {
            v
        };
        lemma_round_range(m, 1);
        lemma_magnitude_sign(1);
        lemma_magnitude_sign(0);
        assert(magnitude(1) == 1);
        assert(round(m, 1) != 0);
        assert(fadd(x, y).unsigned() == round(m, 1));
        lemma_round_shifted(m, 1, k);
    }
}

/// Subtracting multiples subtracts what they are multiples of.
proof fn lemma_enlarged_difference(x: Double, y: Double, k: int)
    requires
        steady(x, k),
        steady(y, k),
        steady(fsub(x, y), k),
        0 <= k,
    ensures
        fsub(enlarged(x, k), enlarged(y, k)) == enlarged(fsub(x, y), k),
{
    lemma_enlarged_value(y, k);
    lemma_enlarged_sum(x, fneg(y), k);
}

/// A product is steady, and vanishes only where a factor does.
pub open spec fn steady_product(c: Double, x: Double, k: int) -> bool {
    &&& c.finite()
    &&& steady(fmul(c, x), k)
    &&& fmul(c, x).vanishes() ==> c.vanishes() || x.vanishes()
}

proof fn lemma_enlarged_product(c: Double, x: Double, k: int)
    requires
        steady(x, k),
        steady_product(c, x, k),
        0 <= k,
    ensures
        fmul(c, enlarged(x, k)) == enlarged(fmul(c, x), k),
{
    lemma_enlarged_value(x, k);
    lemma_pow2_pos(k as nat);
    lemma_pow2_pos(UNIT_EXPONENT as nat);
    lemma_magnitude_sign(c.unsigned());
    lemma_magnitude_sign(x.unsigned());
    lemma_magnitude_sign(0);
    reveal(fmul);
    let w = pow2(k as nat) as int;
    let a = magnitude(c.unsigned());
    let b = magnitude(x.unsigned());
    assert(a * (b * w) == a * b * w && a * b >= 0) by (nonlinear_arith)
        requires
            a >= 0,
            b >= 0,
    ;
    assert(k * FRACTION >= 0);
    lemma_round_range(a * b, unit());
    if c.vanishes() || x.vanishes() {
        assert(a * b == 0 && a * b * w == 0) by (nonlinear_arith)
            requires
                a == 0 || b == 0,
        ;
        assert(nearest(0, unit(), 0)) by {
            lemma_magnitude_sign(1);
            assert(magnitude(1) == 1);
            assert((magnitude(0) + magnitude(1)) * unit() > 0) by (nonlinear_arith)
                requires
                    magnitude(0) == 0,
                    magnitude(1) == 1,
                    unit() > 0,
            ;
        }
        lemma_round_is(0, unit(), 0);
    } else {
        lemma_round_shifted(a * b, unit(), k);
    }
}

/// A quotient by a count is steady, and vanishes only where what is divided does.
pub open spec fn steady_share(x: Double, c: Double, k: int) -> bool {
    &&& c.finite() && !c.vanishes()
    &&& steady(fdiv(x, c), k)
    &&& fdiv(x, c).vanishes() ==> x.vanishes()
}

proof fn lemma_enlarged_share(x: Double, c: Double, k: int)
    requires
        steady(x, k),
        steady_share(x, c, k),
        0 <= k,
    ensures
        fdiv(enlarged(x, k), c) == enlarged(fdiv(x, c), k),
{
    lemma_enlarged_value(x, k);
    lemma_pow2_pos(k as nat);
    lemma_pow2_pos(UNIT_EXPONENT as nat);
    lemma_magnitude_sign(c.unsigned());
    lemma_magnitude_sign(x.unsigned());
    lemma_magnitude_sign(0);
    reveal(fdiv);
    let w = pow2(k as nat) as int;
    let u = unit();
    let a = magnitude(x.unsigned());
    let b = magnitude(c.unsigned());
    assert(a * w * u == a * u * w && a * u >= 0) by (nonlinear_arith)
        requires
            a >= 0,
            u > 0,
    ;
    assert(k * FRACTION >= 0);
    lemma_round_range(a * u, b);
    if x.vanishes() {
        assert(a * u == 0 && a * u * w == 0) by (nonlinear_arith)
            requires
                a == 0,
        ;
        assert(nearest(0, b, 0)) by {
            lemma_magnitude_sign(1);
            assert(magnitude(1) == 1);
            assert((magnitude(0) + magnitude(1)) * b > 0) by (nonlinear_arith)
                requires
                    magnitude(0) == 0,
                    magnitude(1) == 1,
                    b > 0,
            ;
        }
        lemma_round_is(0, b, 0);
    } else {
        lemma_round_shifted(a * u, b, k);
    }
}

/// A ratio does not depend on the unit of its parts.
proof fn lemma_enlarged_ratio(x: Double, y: Double, k: int)
    requires
        steady(x, k),
        steady(y, k),
        0 <= k,
    ensures
        fdiv(enlarged(x, k), enlarged(y, k)) == fdiv(x, y),
{
    lemma_enlarged_value(x, k);
    lemma_enlarged_value(y, k);
    lemma_pow2_pos(k as nat);
    lemma_pow2_pos(UNIT_EXPONENT as nat);
    lemma_magnitude_sign(x.unsigned());
    lemma_magnitude_sign(y.unsigned());
    lemma_magnitude_sign(0);
    reveal(fdiv);
    assert(k * FRACTION >= 0);
    let w = pow2(k as nat) as int;
    let u = unit();
    let a = magnitude(x.unsigned());
    let b = magnitude(y.unsigned());
    if !y.vanishes() {
        assert(a * u >= 0 && a * w * u == a * u * w && b * w > 0) by (nonlinear_arith)
            requires
                a >= 0,
                u > 0,
                b > 0,
                w > 0,
        ;
        lemma_round_range(a * u, b);
        let r = round(a * u, b);
        if r > 0 {
            let low = magnitude(r - 1) + magnitude(r);
            lemma_scaled_comparison(low * b, 2 * (a * u), w);
            assert(low * (b * w) == low * b * w && 2 * (a * u) * w == 2 * (a * u * w))
                by (nonlinear_arith);
        }
        if r < INF_BITS {
            let high = magnitude(r) + magnitude(r + 1);
            lemma_scaled_comparison(2 * (a * u), high * b, w);
            assert(high * (b * w) == high * b * w && 2 * (a * u) * w == 2 * (a * u * w))
                by (nonlinear_arith);
        }
        assert(nearest(a * u * w, b * w, r));
        lemma_round_is(a * u * w, b * w, r);
    }
}

/// All scores multiplied by two to the power of `k`.
pub open spec fn all_enlarged(s: Seq<Double>, k: int) -> Seq<Double> {
    Seq::new(s.len(), |i: int| enlarged(s[i], k))
}

/// All scores are steady.
pub open spec fn all_steady(s: Seq<Double>, k: int) -> bool {
    forall|i: int| 0 <= i < s.len() ==> steady(#[trigger] s[i], k)
}

/// What a quantile is interpolated from is steady.
pub open spec fn steady_quantile(s: Seq<Double>, p: Double, k: int) -> bool {
    let n = s.len() as int;
    let h = fmul(fsub(fcount(n), fone()), p);
    let low = ffloor(h);
    n != 1 && low + 1 < n ==> {
        let gap = fsub(s[low + 1], s[low]);
        &&& steady(gap, k)
        &&& steady_product(fsub(h, fcount(low)), gap, k)
        &&& steady(quantile(s, p), k)
    }
}

proof fn lemma_enlarged_quantile(s: Seq<Double>, p: Double, k: int)
    requires
        s.len() > 0,
        all_steady(s, k),
        steady_quantile(s, p, k),
        0 <= k,
    ensures
        quantile(all_enlarged(s, k), p) == enlarged(quantile(s, p), k),
        steady(quantile(s, p), k),
{
    let n = s.len() as int;
    let h = fmul(fsub(fcount(n), fone()), p);
    let low = ffloor(h);
    assert(low >= 0) by {
        lemma_pow2_pos(UNIT_EXPONENT as nat);
        lemma_magnitude_sign(h.unsigned());
        let v = magnitude(h.unsigned());
        assert(v / unit() >= 0) by (nonlinear_arith)
            requires
                v >= 0,
                unit() > 0,
        ;
    }
    if n != 1 && low + 1 < n {
        let gap = fsub(s[low + 1], s[low]);
        let part = fsub(h, fcount(low));
        lemma_enlarged_difference(s[low + 1], s[low], k);
        lemma_enlarged_product(part, gap, k);
        lemma_enlarged_sum(s[low], fmul(part, gap), k);
    }
}

/// All partial sums are steady.
pub open spec fn steady_sums(s: Seq<Double>, low: int, high: int, k: int) -> bool {
    forall|h: int| low <= h <= high ==> steady(#[trigger] fsum(s, low, h), k)
}

proof fn lemma_enlarged_sums(s: Seq<Double>, low: int, high: int, k: int)
    requires
        0 <= low,
        high <= s.len(),
        all_steady(s, k),
        steady_sums(s, low, high, k),
        0 <= k,
    ensures
        fsum(all_enlarged(s, k), low, high) == enlarged(fsum(s, low, high), k),
    decreases high - low,
{
    if low < high {
        lemma_enlarged_sums(s, low, high - 1, k);
        assert(steady(fsum(s, low, high), k));
        assert(steady(fsum(s, low, high - 1), k));
        lemma_enlarged_sum(fsum(s, low, high - 1), s[high - 1], k);
    }
}

proof fn lemma_enlarged_distinct(s: Seq<Double>, n: int, k: int)
    requires
        n <= s.len(),
        all_steady(s, k),
        0 <= k,
    ensures
        distinct(all_enlarged(s, k), n) == distinct(s, n),
    decreases n,
{
    if n > 1 {
        lemma_enlarged_distinct(s, n - 1, k);
        lemma_enlarged_order(s[n - 1], s[n - 2], k);
    }
}

/// Everything that the separation of a sorted pool is computed from is steady: no step
/// leaves the range of normal numbers, in either unit.
pub open spec fn steady_separation(s: Seq<Double>, cfg: DiscriminationConfig, k: int) -> bool {
    let n = s.len() as int;
    let top = top_count(n, cfg);
    let span = fsub(quantile(s, fratio(3, 4)), quantile(s, fratio(1, 10)));
    let spread = fsub(quantile(s, fratio(3, 4)), quantile(s, fratio(1, 4)));
    let elevation = fsub(top_mean(s, top), quantile(s, fratio(1, 2)));
    &&& all_steady(s, k)
    &&& steady_quantile(s, fratio(1, 10), k)
    &&& steady_quantile(s, fratio(1, 4), k)
    &&& steady_quantile(s, fratio(1, 2), k)
    &&& steady_quantile(s, fratio(3, 4), k)
    &&& steady_sums(s, n - top, n, k)
    &&& steady_share(fsum(s, n - top, n), fcount(top), k)
    &&& steady(elevation, k)
    &&& steady(bulk_gap(s), k)
    &&& steady(spread, k)
    &&& steady_product(cfg.denom_floor_frac, spread, k)
    &&& steady(span, k)
    &&& steady_product(fratio(1, 1_000_000_000), span, k)
}

proof fn lemma_separation_of_sorted(s: Seq<Double>, cfg: DiscriminationConfig, k: int)
    requires
        s.len() > 0,
        steady_separation(s, cfg, k),
        0 <= k,
    ensures
        separation_of(all_enlarged(s, k), cfg) == separation_of(s, cfg),
{
    let t = all_enlarged(s, k);
    let n = s.len() as int;
    let top = top_count(n, cfg);
    let q10 = quantile(s, fratio(1, 10));
    let q25 = quantile(s, fratio(1, 4));
    let q50 = quantile(s, fratio(1, 2));
    let q75 = quantile(s, fratio(3, 4));
    let span = fsub(q75, q10);
    let spread = fsub(q75, q25);
    let mean = top_mean(s, top);
    lemma_enlarged_quantile(s, fratio(1, 10), k);
    lemma_enlarged_quantile(s, fratio(1, 4), k);
    lemma_enlarged_quantile(s, fratio(1, 2), k);
    lemma_enlarged_quantile(s, fratio(3, 4), k);
    lemma_enlarged_sums(s, n - top, n, k);
    assert(steady(fsum(s, n - top, n), k));
    lemma_enlarged_share(fsum(s, n - top, n), fcount(top), k);
    assert(top_mean(t, top) == enlarged(mean, k));
    lemma_enlarged_difference(mean, q50, k);
    lemma_enlarged_difference(q50, q10, k);
    lemma_enlarged_difference(q75, q25, k);
    lemma_enlarged_difference(q75, q10, k);
    lemma_enlarged_product(cfg.denom_floor_frac, spread, k);
    lemma_enlarged_product(fratio(1, 1_000_000_000), span, k);
    lemma_enlarged_order(bulk_gap(s), gap_floor(s, cfg), k);
    let denominator = fmax(bulk_gap(s), gap_floor(s, cfg));
    lemma_enlarged_order(denominator, fmul(fratio(1, 1_000_000_000), span), k);
    lemma_enlarged_ratio(fsub(mean, q50), denominator, k);
    lemma_enlarged_distinct(s, n, k);
    assert(separation_ratio(t, cfg) == separation_ratio(s, cfg));
    assert(separation_defined(t, cfg) == separation_defined(s, cfg));
}

/// Multiples of steady scores are sorted as the scores are.
proof fn lemma_enlarged_ascending(s: Seq<Double>, k: int)
    requires
        s.len() <= usize::MAX,
        all_steady(s, k),
        0 <= k,
    ensures
        ascending(all_enlarged(s, k)) == all_enlarged(ascending(s), k),
        all_steady(ascending(s), k),
{
    let t = all_enlarged(s, k);
    let a = total_keys(s);
    let b = total_keys(t);
    let order = order_of(a);
    lemma_order_sorts(a);
    lemma_order_sorts(b);
    assert(sorts(b, order)) by {
        assert forall|i: int, j: int|
            #![trigger order[i], order[j]]
            0 <= i < j < order.len() implies sorts_before(b, order[i] as int, order[j] as int) by {
            let x = order[i] as int;
            let y = order[j] as int;
            assert(sorts_before(a, x, y));
            lemma_enlarged_order(s[x], s[y], k);
        }
        assert(in_order(b, order));
    }
    lemma_sort_unique(b, order, order_of(b));
    assert forall|i: int| 0 <= i < s.len() implies #[trigger] ascending(t)[i] == enlarged(
        ascending(s)[i],
        k,
    ) by {
        assert(0 <= order[i] < s.len());
    }
    assert(ascending(t) =~= all_enlarged(ascending(s), k));
    assert forall|i: int| 0 <= i < s.len() implies steady(#[trigger] ascending(s)[i], k) by {
        assert(0 <= order[i] < s.len());
    }
}

/// Separation does not depend on the unit that scores are measured in: multiplying every
/// score of a pool by a power of two leaves the statistic the same to the last bit, where no
/// step of it leaves the range of normal numbers.
pub proof fn lemma_separation_ignores_unit(scores: Seq<Double>, cfg: DiscriminationConfig, k: int)
    requires
        0 < scores.len() <= usize::MAX,
        all_steady(scores, k),
        steady_separation(ascending(scores), cfg, k),
        0 <= k,
    ensures
        separation_of(ascending(all_enlarged(scores, k)), cfg) == separation_of(
            ascending(scores),
            cfg,
        ),
{
    lemma_enlarged_ascending(scores, k);
    lemma_separation_of_sorted(ascending(scores), cfg, k);
}

} // verus!
