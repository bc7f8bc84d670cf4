//! Laws of the separation statistic under a change of scale and origin.
use crate::config::{is_non_negative, DiscriminationConfig};
use crate::double::{
    fadd, fcount, ffloor, fmax, fmul, fone, fratio, fsub, fzero, lemma_round_range, unit, Double,
    UNIT_EXPONENT,
};
use crate::exact::{lemma_one, lemma_positive_ratio};
use crate::numeric::fsum;
use crate::precision::{
    exact, lemma_difference_error, lemma_exact_count, lemma_exact_order, lemma_product_error,
    lemma_quotient_error, lemma_small_errors, lemma_sum_error, limit, size, tiny, ulp,
};
use crate::reals::{
    lemma_associate, lemma_cancel_order, lemma_commute, lemma_distribute, lemma_positive_product,
    lemma_product_bound, lemma_quotient_back, lemma_scale_order,
};
use crate::rounding::magnitude;
use crate::weighting::discrimination::{
    bulk_gap, gap_floor, quantile, separation_defined, separation_of, separation_ratio, top_count,
    top_mean,
};
use vstd::arithmetic::power2::lemma_pow2_pos;
use vstd::prelude::*;

verus! {

/// The share of the step between two order statistics that a quantile takes.
pub open spec fn quantile_share(n: int, p: Double) -> Double {
    let h = fmul(fsub(fcount(n), fone()), p);
    fsub(h, fcount(ffloor(h)))
}

/// The order statistic below a quantile.
pub open spec fn quantile_place(n: int, p: Double) -> int {
    ffloor(fmul(fsub(fcount(n), fone()), p))
}

/// The quantile of a sorted sequence, without rounding.
pub open spec fn exact_quantile(s: Seq<Double>, p: Double) -> real {
    let n = s.len() as int;
    let low = quantile_place(n, p);
    if n == 1 {
        exact(s[0])
    } else if low + 1 < n {
        exact(s[low]) + exact(quantile_share(n, p)) * (exact(s[low + 1]) - exact(s[low]))
    } else {
        exact(s[n - 1])
    }
}

/// A proportion at which a quantile can be taken.
pub open spec fn proportion(p: Double) -> bool {
    p.finite() && !p.negative() && exact(p) <= (3 as real)
}

/// A length that counts exactly.
pub open spec fn countable(n: int) -> bool {
    0 < n <= 0x100_0000_0000 && n <= usize::MAX
}

/// The whole part of a number is below it, by less than one.
pub proof fn lemma_whole_part(h: Double)
    requires
        h.finite(),
        !h.negative(),
        ffloor(h) < usize::MAX,
    ensures
        0 <= ffloor(h),
        (ffloor(h) as real) <= exact(h) <= (ffloor(h) as real) + (1 as real),
{
    lemma_pow2_pos(UNIT_EXPONENT as nat);
    let u = unit();
    let v = h.value();
    crate::exact::lemma_magnitude_sign(h.unsigned());
    let low = v / u;
    vstd::arithmetic::div_mod::lemma_fundamental_div_mod(v, u);
    vstd::arithmetic::div_mod::lemma_div_pos_is_pos(v, u);
    assert(ffloor(h) == low);
    let ur = u as real;
    let vr = v as real;
    let lr = low as real;
    let one = 1 as real;
    lemma_quotient_back(vr, ur);
    assert(u * low == low * u) by (nonlinear_arith);
    assert(low * u <= v <= low * u + u);
    assert((low * u) as real == lr * ur) by (nonlinear_arith)
        requires
            lr == low as real,
            ur == u as real,
    ;
    lemma_cancel_order(lr, exact(h), ur);
    lemma_distribute(ur, lr, one);
    lemma_cancel_order(exact(h), lr + one, ur);
}

/// An order statistic has a place.
pub proof fn lemma_place(n: int, p: Double)
    ensures
        quantile_place(n, p) >= 0,
{
    let h = fmul(fsub(fcount(n), fone()), p);
    lemma_pow2_pos(UNIT_EXPONENT as nat);
    crate::exact::lemma_magnitude_sign(h.unsigned());
    if !h.negative() {
        vstd::arithmetic::div_mod::lemma_div_pos_is_pos(h.value(), unit());
    }
}

/// The share of a step is small.
pub proof fn lemma_quantile_share(n: int, p: Double)
    requires
        countable(n),
        proportion(p),
        quantile_place(n, p) + 1 < n,
    ensures
        quantile_place(n, p) >= 0,
        quantile_share(n, p).finite(),
        size(exact(quantile_share(n, p))) <= (2 as real),
{
    lemma_small_errors();
    lemma_one();
    lemma_exact_count(n);
    lemma_exact_order(fone(), fone());
    lemma_difference_error(fcount(n), fone());
    let m = fsub(fcount(n), fone());
    let d = (n as real) - (1 as real);
    let one = 1 as real;
    lemma_scale_order(ulp(), one, size(d));
    lemma_pow2_pos(UNIT_EXPONENT as nat);
    lemma_place(n, p);
    lemma_scale_order(ulp(), one / (1_000_000 as real), size(d));
    assert(exact(m) > (0 as real));
    lemma_unsigned(m);
    lemma_exact_order(p, p);
    lemma_nonnegative(p);
    let top = (0x200_0000_0000int as real);
    assert(size(exact(m)) <= top);
    lemma_product_bound(exact(m), exact(p), top, 3 as real);
    lemma_product_error(m, p);
    lemma_unsigned_product(m, p);
    let h = fmul(m, p);
    lemma_whole_part(h);
    let low = ffloor(h);
    lemma_exact_count(low);
    lemma_difference_error(h, fcount(low));
    lemma_scale_order(ulp(), one, size(exact(h) - exact(fcount(low))));
}

/// A number without a sign stands for one that is not negative.
proof fn lemma_nonnegative(x: Double)
    requires
        x.finite(),
        !x.negative(),
    ensures
        exact(x) >= (0 as real),
{
    lemma_one();
    lemma_exact_order(x, x);
    lemma_exact_order(fzero(), x);
    crate::exact::lemma_magnitude_sign(x.unsigned());
}

/// A number that stands for a positive one has no sign.
pub proof fn lemma_unsigned(x: Double)
    requires
        x.finite(),
        exact(x) > (0 as real),
    ensures
        !x.negative(),
{
    lemma_one();
    lemma_exact_order(fzero(), x);
    crate::exact::lemma_magnitude_sign(x.unsigned());
}

/// A product of numbers without a sign has none.
pub proof fn lemma_unsigned_product(x: Double, y: Double)
    requires
        x.finite(),
        y.finite(),
        !x.negative(),
        !y.negative(),
        fmul(x, y).finite(),
    ensures
        !fmul(x, y).negative(),
{
    reveal(fmul);
    lemma_pow2_pos(UNIT_EXPONENT as nat);
    let a = magnitude(x.unsigned());
    let b = magnitude(y.unsigned());
    crate::exact::lemma_magnitude_sign(x.unsigned());
    crate::exact::lemma_magnitude_sign(y.unsigned());
    assert(a * b >= 0) by (nonlinear_arith)
        requires
            a >= 0,
            b >= 0,
    ;
    lemma_round_range(a * b, unit());
}

/// All numbers are finite and no larger than `bound`.
pub open spec fn held_within(s: Seq<Double>, bound: real) -> bool {
    forall|i: int|
        0 <= i < s.len() ==> (#[trigger] s[i]).finite() && size(exact(s[i])) <= bound
}

/// A bound under which the statistic is computed without overflow or loss among the smallest
/// numbers.
pub open spec fn comfortable(n: int, bound: real) -> bool {
    &&& bound >= ulp()
    &&& (16 as real) * ((n as real) * bound) <= limit()
}

/// A quantile is close to the exact one.
pub proof fn lemma_quantile_near(s: Seq<Double>, p: Double, bound: real)
    requires
        countable(s.len() as int),
        proportion(p),
        held_within(s, bound),
        comfortable(s.len() as int, bound),
    ensures
        quantile(s, p).finite(),
        size(exact(quantile(s, p)) - exact_quantile(s, p)) <= (17 as real) * (ulp() * bound),
        size(exact(quantile(s, p))) <= (6 as real) * bound,
{
    lemma_small_errors();
    let n = s.len() as int;
    let low = quantile_place(n, p);
    let u = ulp();
    let e = u * bound;
    lemma_positive_product(u, bound);
    let one = 1 as real;
    lemma_scale_order(one, n as real, bound);
    assert(bound <= (n as real) * bound);
    lemma_scale_order(u, one / (1_000_000 as real), bound);
    if n == 1 {
        assert(s[0].finite());
    } else if low + 1 < n {
        lemma_quantile_share(n, p);
        let share = quantile_share(n, p);
        let f = exact(share);
        assert(s[low].finite() && s[low + 1].finite());
        let x = exact(s[low]);
        let y = exact(s[low + 1]);
        let two = 2 as real;
        lemma_difference_error(s[low + 1], s[low]);
        let gap = fsub(s[low + 1], s[low]);
        let d = exact(gap);
        lemma_scale_order(size(y - x), two * bound, u);
        lemma_distribute(u, bound, bound);
        assert(size(d - (y - x)) <= two * e);
        lemma_product_bound(f, d, two, (3 as real) * bound);
        assert(two * ((3 as real) * bound) == (6 as real) * bound);
        lemma_product_error(share, gap);
        let step = exact(fmul(share, gap));
        lemma_scale_order(size(f * d), (6 as real) * bound, u);
        assert(u * ((6 as real) * bound) == (6 as real) * e) by {
            lemma_associate(u, 6 as real, bound);
            lemma_commute(u, 6 as real);
            lemma_associate(6 as real, u, bound);
        }
        lemma_scale_order(u, bound, u);
        assert(tiny() <= e);
        lemma_product_bound(f, d - (y - x), two, two * e);
        lemma_distribute(f, d, y - x);
        assert(two * (two * e) == (4 as real) * e);
        assert(size(step - f * (y - x)) <= (11 as real) * e);
        assert(size(step) <= (7 as real) * bound);
        lemma_product_bound(f, y - x, two, two * bound);
        assert(two * (two * bound) == (4 as real) * bound);
        assert(size(step) <= (5 as real) * bound);
        lemma_sum_error(s[low], fmul(share, gap));
        lemma_scale_order(size(x + step), (6 as real) * bound, u);
    } else {
        assert(s[n - 1].finite());
    }
}

/// One sequence follows another by a scale and a shift, up to four rounding errors of a
/// number of the size `bound`.
pub open spec fn follows(s: Seq<Double>, t: Seq<Double>, a: real, b: real, bound: real) -> bool {
    &&& t.len() == s.len()
    &&& forall|i: int|
        0 <= i < s.len() ==> size(exact(#[trigger] t[i]) - (a * exact(s[i]) + b)) <= (4 as real) * (
        ulp() * bound)
}

/// The exact quantile follows the scale and the shift.
proof fn lemma_quantile_follows(
    s: Seq<Double>,
    t: Seq<Double>,
    p: Double,
    a: real,
    b: real,
    bound: real,
)
    requires
        countable(s.len() as int),
        proportion(p),
        follows(s, t, a, b, bound),
    ensures
        size(exact_quantile(t, p) - (a * exact_quantile(s, p) + b)) <= (20 as real) * (ulp()
            * bound),
{
    let n = s.len() as int;
    let low = quantile_place(n, p);
    let e = ulp() * bound;
    assert(t[0] == t[0]);
    assert(t[n - 1] == t[n - 1]);
    if n > 1 && low + 1 < n {
        lemma_quantile_share(n, p);
        let f = exact(quantile_share(n, p));
        let x = exact(s[low]);
        let y = exact(s[low + 1]);
        let x1 = exact(t[low]);
        let y1 = exact(t[low + 1]);
        let px = x1 - (a * x + b);
        let py = y1 - (a * y + b);
        assert(size(px) <= (4 as real) * e && size(py) <= (4 as real) * e);
        lemma_product_bound(f, py - px, 2 as real, (8 as real) * e);
        assert((2 as real) * ((8 as real) * e) == (16 as real) * e);
        let g = y - x;
        let g1 = y1 - x1;
        lemma_distribute(a, y, x);
        assert(py - px == g1 - a * g);
        lemma_distribute(f, g1, a * g);
        lemma_associate(f, a, g);
        lemma_commute(f, a);
        lemma_associate(a, f, g);
        assert(f * (a * g) == a * (f * g));
        lemma_distribute(a, x, f * g);
    }
}

/// The exact sum of the numbers from `low` up to `high`.
pub open spec fn exact_between(s: Seq<Double>, low: int, high: int) -> real
    decreases high - low,
{
    if high <= low {
        0 as real
    } else {
        exact_between(s, low, high - 1) + exact(s[high - 1])
    }
}

/// The mean of the last `k` numbers, without rounding.
pub open spec fn exact_mean(s: Seq<Double>, k: int) -> real {
    exact_between(s, s.len() - k, s.len() as int) / (k as real)
}

/// The error that one addition adds.
pub open spec fn addition_error(n: int, bound: real) -> real {
    (2 as real) * ((n as real) * (ulp() * bound))
}

/// The error of an addition is small next to the numbers.
pub proof fn lemma_addition_error(n: int, bound: real)
    requires
        countable(n),
        comfortable(n, bound),
    ensures
        (0 as real) <= addition_error(n, bound) <= bound,
        addition_error(n, bound) == ulp() * ((2 as real) * ((n as real) * bound)),
        bound <= (n as real) * bound,
{
    lemma_small_errors();
    let u = ulp();
    let nr = n as real;
    let two = 2 as real;
    let one = 1 as real;
    let nb = nr * bound;
    lemma_scale_order(one, nr, bound);
    lemma_associate(nr, u, bound);
    lemma_commute(nr, u);
    lemma_associate(u, nr, bound);
    assert(nr * (u * bound) == u * nb);
    lemma_distribute(u, nb, nb);
    assert(addition_error(n, bound) == u * (two * nb));
    let un = u * nr;
    lemma_scale_order(nr, 0x100_0000_0000int as real, u);
    assert(un <= one / two);
    lemma_scale_order(un, one / two, bound);
    lemma_positive_product(u, bound);
    lemma_positive_product(nr, u * bound);
}

/// A sum is no larger than its summands together.
proof fn lemma_between_range(s: Seq<Double>, low: int, high: int, bound: real)
    requires
        held_within(s, bound),
        0 <= low <= high <= s.len(),
    ensures
        size(exact_between(s, low, high)) <= ((high - low) as real) * bound,
    decreases high - low,
{
    if low < high {
        lemma_between_range(s, low, high - 1, bound);
        let one = 1 as real;
        assert((high - low) as real == ((high - 1 - low) as real) + one);
        lemma_distribute(bound, (high - 1 - low) as real, one);
        assert(s[high - 1].finite());
    } else {
        let zero = 0 as real;
        assert(((high - low) as real) == zero);
        assert(zero * bound == zero);
    }
}

/// A sum is close to the exact one.
pub proof fn lemma_between_near(s: Seq<Double>, low: int, high: int, bound: real)
    requires
        countable(s.len() as int),
        held_within(s, bound),
        comfortable(s.len() as int, bound),
        0 <= low <= high <= s.len(),
    ensures
        fsum(s, low, high).finite(),
        size(exact(fsum(s, low, high)) - exact_between(s, low, high)) <= ((high - low) as real)
            * addition_error(s.len() as int, bound),
    decreases high - low,
{
    lemma_small_errors();
    lemma_one();
    lemma_exact_order(fzero(), fzero());
    let n = s.len() as int;
    let nr = n as real;
    let w = addition_error(n, bound);
    let u = ulp();
    lemma_addition_error(n, bound);
    if low < high {
        lemma_between_near(s, low, high - 1, bound);
        lemma_between_range(s, low, high, bound);
        let one = 1 as real;
        let j = (high - 1 - low) as real;
        let k = (high - low) as real;
        assert(k == j + one);
        lemma_distribute(w, j, one);
        assert(k * w == j * w + w);
        lemma_scale_order(w, bound, j);
        lemma_scale_order(j, nr, bound);
        lemma_scale_order(k, nr, bound);
        let part = fsum(s, low, high - 1);
        let x = s[high - 1];
        assert(x.finite());
        let nb = nr * bound;
        let t = exact(part) + exact(x);
        assert(size(t) <= (2 as real) * nb);
        lemma_sum_error(part, x);
        lemma_scale_order(size(t), (2 as real) * nb, u);
        assert(fsum(s, low, high) == fadd(part, x));
    } else {
        let zero = 0 as real;
        assert(((high - low) as real) == zero);
        assert(zero * w == zero);
    }
}

/// The mean of the top is close to the exact one.
pub proof fn lemma_mean_near(s: Seq<Double>, k: int, bound: real)
    requires
        countable(s.len() as int),
        held_within(s, bound),
        comfortable(s.len() as int, bound),
        0 < k <= s.len(),
    ensures
        top_mean(s, k).finite(),
        size(exact(top_mean(s, k)) - exact_mean(s, k)) <= addition_error(s.len() as int, bound) + (
        3 as real) * (ulp() * bound),
        size(exact(top_mean(s, k))) <= (3 as real) * bound,
{
    lemma_small_errors();
    let n = s.len() as int;
    let u = ulp();
    let w = addition_error(n, bound);
    let kr = k as real;
    let zero = 0 as real;
    let two = 2 as real;
    lemma_addition_error(n, bound);
    lemma_between_near(s, n - k, n, bound);
    lemma_between_range(s, n - k, n, bound);
    lemma_exact_count(k);
    let sum = fsum(s, n - k, n);
    let q = exact(sum) / kr;
    let m = exact_mean(s, k);
    lemma_quotient_back(exact(sum), kr);
    lemma_quotient_back(exact_between(s, n - k, n), kr);
    lemma_distribute(kr, q, m);
    lemma_commute(kr, w);
    lemma_commute(kr, bound);
    lemma_cancel_order(q - m, w, kr);
    lemma_distribute(kr, zero, w);
    lemma_distribute(kr, zero, bound);
    assert(zero * kr == zero);
    lemma_cancel_order(-w, q - m, kr);
    lemma_cancel_order(m, bound, kr);
    lemma_cancel_order(-bound, m, kr);
    assert(size(q) <= two * bound);
    lemma_quotient_error(sum, fcount(k));
    lemma_scale_order(size(q), two * bound, u);
    lemma_distribute(u, bound, bound);
    lemma_scale_order(u, bound, u);
    lemma_scale_order(u, (1 as real) / (1_000_000 as real), bound);
}

/// A sum follows the scale and the shift.
proof fn lemma_between_follows(
    s: Seq<Double>,
    t: Seq<Double>,
    low: int,
    high: int,
    a: real,
    b: real,
    bound: real,
)
    requires
        follows(s, t, a, b, bound),
        0 <= low <= high <= s.len(),
    ensures
        size(
            exact_between(t, low, high) - (a * exact_between(s, low, high) + ((high - low) as real)
                * b),
        ) <= ((high - low) as real) * ((4 as real) * (ulp() * bound)),
    decreases high - low,
{
    let e = (4 as real) * (ulp() * bound);
    let zero = 0 as real;
    let one = 1 as real;
    if low < high {
        lemma_between_follows(s, t, low, high - 1, a, b, bound);
        let j = (high - 1 - low) as real;
        let k = (high - low) as real;
        assert(k == j + one);
        lemma_distribute(e, j, one);
        lemma_distribute(b, j, one);
        lemma_distribute(a, exact_between(s, low, high - 1), exact(s[high - 1]));
        assert(t[high - 1] == t[high - 1]);
    } else {
        assert(a * zero == zero);
        assert(((high - low) as real) == zero);
        assert(zero * b == zero && zero * e == zero);
    }
}

/// The mean of the top follows the scale and the shift.
proof fn lemma_mean_follows(
    s: Seq<Double>,
    t: Seq<Double>,
    k: int,
    a: real,
    b: real,
    bound: real,
)
    requires
        follows(s, t, a, b, bound),
        0 < k <= s.len(),
    ensures
        size(exact_mean(t, k) - (a * exact_mean(s, k) + b)) <= (4 as real) * (ulp() * bound),
{
    let n = s.len() as int;
    let kr = k as real;
    let e = (4 as real) * (ulp() * bound);
    let zero = 0 as real;
    lemma_between_follows(s, t, n - k, n, a, b, bound);
    let x = exact_mean(s, k);
    let y = exact_mean(t, k);
    lemma_quotient_back(exact_between(s, n - k, n), kr);
    lemma_quotient_back(exact_between(t, n - k, n), kr);
    lemma_associate(a, x, kr);
    lemma_distribute(kr, a * x, b);
    lemma_distribute(kr, y, a * x + b);
    lemma_commute(kr, b);
    lemma_commute(kr, e);
    let d = y - (a * x + b);
    assert(size(d * kr) <= e * kr);
    lemma_cancel_order(d, e, kr);
    lemma_distribute(kr, zero, e);
    assert(zero * kr == zero);
    lemma_cancel_order(-e, d, kr);
}

/// The elevation of the extreme top over the median.
pub open spec fn elevation(s: Seq<Double>, cfg: DiscriminationConfig) -> Double {
    fsub(top_mean(s, top_count(s.len() as int, cfg)), quantile(s, fratio(1, 2)))
}

/// The scale that the elevation is measured by.
pub open spec fn bulk_scale(s: Seq<Double>, cfg: DiscriminationConfig) -> Double {
    fmax(bulk_gap(s), gap_floor(s, cfg))
}

/// The elevation, without rounding.
pub open spec fn exact_elevation(s: Seq<Double>, cfg: DiscriminationConfig) -> real {
    exact_mean(s, top_count(s.len() as int, cfg)) - exact_quantile(s, fratio(1, 2))
}

/// The gap between two quantiles, without rounding.
pub open spec fn exact_gap(s: Seq<Double>, upper: Double, lower: Double) -> real {
    exact_quantile(s, upper) - exact_quantile(s, lower)
}

/// The larger of two reals.
pub open spec fn larger(x: real, y: real) -> real {
    if x < y {
        y
    } else {
        x
    }
}

/// The scale of the bulk, without rounding.
pub open spec fn exact_scale(s: Seq<Double>, cfg: DiscriminationConfig) -> real {
    larger(
        exact_gap(s, fratio(1, 2), fratio(1, 10)),
        exact(cfg.denom_floor_frac) * exact_gap(s, fratio(3, 4), fratio(1, 4)),
    )
}

/// One and the part of the inter-quartile range that the scale is floored at.
pub open spec fn floor_weight(cfg: DiscriminationConfig) -> real {
    (1 as real) + exact(cfg.denom_floor_frac)
}

pub proof fn lemma_proportions()
    ensures
        proportion(fratio(1, 2)),
        proportion(fratio(1, 10)),
        proportion(fratio(1, 4)),
        proportion(fratio(3, 4)),
{
    lemma_proportion(1, 2);
    lemma_proportion(1, 10);
    lemma_proportion(1, 4);
    lemma_proportion(3, 4);
}

pub proof fn lemma_proportion(num: int, den: int)
    requires
        0 < num <= 3,
        0 < den <= 10,
    ensures
        proportion(fratio(num, den)),
{
    lemma_one();
    lemma_positive_ratio(num, den);
    let p = fratio(num, den);
    lemma_exact_count(num);
    lemma_exact_order(fzero(), p);
    lemma_exact_order(p, fcount(num));
    lemma_unsigned(p);
}

/// The elevation is close to the exact one.
pub proof fn lemma_elevation_near(s: Seq<Double>, cfg: DiscriminationConfig, bound: real)
    requires
        countable(s.len() as int),
        held_within(s, bound),
        comfortable(s.len() as int, bound),
    ensures
        elevation(s, cfg).finite(),
        size(exact(elevation(s, cfg)) - exact_elevation(s, cfg)) <= addition_error(
            s.len() as int,
            bound,
        ) + (29 as real) * (ulp() * bound),
        size(exact(elevation(s, cfg))) <= (10 as real) * bound,
{
    lemma_small_errors();
    lemma_proportions();
    let n = s.len() as int;
    let k = top_count(n, cfg);
    let u = ulp();
    lemma_addition_error(n, bound);
    lemma_mean_near(s, k, bound);
    lemma_quantile_near(s, fratio(1, 2), bound);
    let m = top_mean(s, k);
    let q = quantile(s, fratio(1, 2));
    lemma_difference_error(m, q);
    let nine = 9 as real;
    lemma_scale_order(size(exact(m) - exact(q)), nine * bound, u);
    lemma_associate(u, nine, bound);
    lemma_commute(u, nine);
    lemma_associate(nine, u, bound);
    assert(u * (nine * bound) == nine * (u * bound));
    lemma_scale_order(u, (1 as real) / (1_000_000 as real), bound);
}

/// A gap between quantiles is close to the exact one.
pub proof fn lemma_gap_near(s: Seq<Double>, upper: Double, lower: Double, bound: real)
    requires
        countable(s.len() as int),
        held_within(s, bound),
        comfortable(s.len() as int, bound),
        proportion(upper),
        proportion(lower),
    ensures
        fsub(quantile(s, upper), quantile(s, lower)).finite(),
        size(exact(fsub(quantile(s, upper), quantile(s, lower))) - exact_gap(s, upper, lower)) <= (
        46 as real) * (ulp() * bound),
        size(exact(fsub(quantile(s, upper), quantile(s, lower)))) <= (13 as real) * bound,
{
    lemma_small_errors();
    let u = ulp();
    lemma_addition_error(s.len() as int, bound);
    lemma_quantile_near(s, upper, bound);
    lemma_quantile_near(s, lower, bound);
    let m = quantile(s, upper);
    let q = quantile(s, lower);
    lemma_difference_error(m, q);
    let twelve = 12 as real;
    lemma_scale_order(size(exact(m) - exact(q)), twelve * bound, u);
    lemma_associate(u, twelve, bound);
    lemma_commute(u, twelve);
    lemma_associate(twelve, u, bound);
    assert(u * (twelve * bound) == twelve * (u * bound));
    lemma_scale_order(u, (1 as real) / (1_000_000 as real), bound);
}

/// The scale of the bulk is close to the exact one.
pub proof fn lemma_scale_near(s: Seq<Double>, cfg: DiscriminationConfig, bound: real)
    requires
        countable(s.len() as int),
        held_within(s, bound),
        is_non_negative(cfg.denom_floor_frac),
        comfortable(s.len() as int, bound),
        comfortable(s.len() as int, floor_weight(cfg) * bound),
    ensures
        bulk_scale(s, cfg).finite(),
        size(exact(bulk_scale(s, cfg)) - exact_scale(s, cfg)) <= (59 as real) * (ulp() * (
        floor_weight(cfg) * bound)),
        size(exact(bulk_scale(s, cfg))) <= (14 as real) * (floor_weight(cfg) * bound),
        bulk_gap(s).finite(),
        gap_floor(s, cfg).finite(),
        size(exact(bulk_gap(s)) - exact_gap(s, fratio(1, 2), fratio(1, 10))) <= (46 as real) * (
        ulp() * bound),
        size(
            exact(gap_floor(s, cfg)) - exact(cfg.denom_floor_frac) * exact_gap(
                s,
                fratio(3, 4),
                fratio(1, 4),
            ),
        ) <= (59 as real) * (ulp() * (floor_weight(cfg) * bound)),
        ulp() * bound <= ulp() * (floor_weight(cfg) * bound),
        bound <= floor_weight(cfg) * bound,
        floor_weight(cfg) >= (1 as real),
{
    lemma_small_errors();
    lemma_proportions();
    lemma_one();
    let u = ulp();
    let share = cfg.denom_floor_frac;
    let f = exact(share);
    lemma_exact_order(fzero(), share);
    let c = floor_weight(cfg);
    let one = 1 as real;
    let cb = c * bound;
    lemma_scale_order(one, c, bound);
    lemma_scale_order(bound, cb, u);
    let e = u * bound;
    let ce = u * cb;
    let fb = f * bound;
    lemma_distribute(bound, one, f);
    assert(cb == bound + fb);
    lemma_distribute(u, bound, fb);
    let fe = u * fb;
    assert(ce == e + fe);
    lemma_positive_product(f, bound);
    lemma_positive_product(u, fb);
    lemma_addition_error(s.len() as int, cb);
    lemma_gap_near(s, fratio(1, 2), fratio(1, 10), bound);
    lemma_gap_near(s, fratio(3, 4), fratio(1, 4), bound);
    let gap = fsub(quantile(s, fratio(3, 4)), quantile(s, fratio(1, 4)));
    let g = exact(gap);
    let real_gap = exact_gap(s, fratio(3, 4), fratio(1, 4));
    let thirteen = 13 as real;
    lemma_product_bound(f, g, f, thirteen * bound);
    lemma_scaled_out(f, thirteen, bound);
    assert(size(f * g) <= thirteen * fb);
    lemma_product_error(share, gap);
    lemma_scale_order(size(f * g), thirteen * fb, u);
    lemma_scaled_out(u, thirteen, fb);
    lemma_scale_order(u, bound, u);
    assert(tiny() <= e);
    let many = 46 as real;
    lemma_product_bound(f, g - real_gap, f, many * e);
    lemma_scaled_out(f, many, e);
    lemma_associate(f, u, bound);
    lemma_commute(f, u);
    lemma_associate(u, f, bound);
    assert(f * e == fe);
    lemma_distribute(f, g, real_gap);
    let floor = exact(gap_floor(s, cfg));
    assert(size(floor - f * real_gap) <= (59 as real) * ce);
    lemma_scale_order(u, one / (1_000_000 as real), fb);
    lemma_scale_order(u, one / (1_000_000 as real), bound);
    assert(size(floor) <= (14 as real) * cb);
    lemma_exact_order(bulk_gap(s), gap_floor(s, cfg));
}

/// A factor leaves a product.
pub proof fn lemma_scaled_out(a: real, k: real, b: real)
    ensures
        a * (k * b) == k * (a * b),
{
    lemma_associate(a, k, b);
    lemma_commute(a, k);
    lemma_associate(k, a, b);
}

/// The exact elevation follows the scale alone.
proof fn lemma_elevation_follows(
    s: Seq<Double>,
    t: Seq<Double>,
    cfg: DiscriminationConfig,
    a: real,
    b: real,
    bound: real,
)
    requires
        countable(s.len() as int),
        follows(s, t, a, b, bound),
    ensures
        size(exact_elevation(t, cfg) - a * exact_elevation(s, cfg)) <= (24 as real) * (ulp()
            * bound),
{
    lemma_proportions();
    let k = top_count(s.len() as int, cfg);
    lemma_mean_follows(s, t, k, a, b, bound);
    lemma_quantile_follows(s, t, fratio(1, 2), a, b, bound);
    lemma_distribute(a, exact_mean(s, k), exact_quantile(s, fratio(1, 2)));
}

/// An exact gap follows the scale alone.
pub proof fn lemma_gap_follows(
    s: Seq<Double>,
    t: Seq<Double>,
    upper: Double,
    lower: Double,
    a: real,
    b: real,
    bound: real,
)
    requires
        countable(s.len() as int),
        follows(s, t, a, b, bound),
        proportion(upper),
        proportion(lower),
    ensures
        size(exact_gap(t, upper, lower) - a * exact_gap(s, upper, lower)) <= (40 as real) * (ulp()
            * bound),
{
    lemma_quantile_follows(s, t, upper, a, b, bound);
    lemma_quantile_follows(s, t, lower, a, b, bound);
    lemma_distribute(a, exact_quantile(s, upper), exact_quantile(s, lower));
}

/// The exact scale of the bulk follows the scale alone.
pub proof fn lemma_scale_follows(
    s: Seq<Double>,
    t: Seq<Double>,
    cfg: DiscriminationConfig,
    a: real,
    b: real,
    bound: real,
)
    requires
        countable(s.len() as int),
        follows(s, t, a, b, bound),
        is_non_negative(cfg.denom_floor_frac),
        a > (0 as real),
        bound >= (0 as real),
    ensures
        size(exact_scale(t, cfg) - a * exact_scale(s, cfg)) <= (40 as real) * (ulp() * (
        floor_weight(cfg) * bound)),
{
    lemma_small_errors();
    lemma_proportions();
    lemma_one();
    let u = ulp();
    let f = exact(cfg.denom_floor_frac);
    lemma_exact_order(fzero(), cfg.denom_floor_frac);
    let one = 1 as real;
    let e = u * bound;
    let fb = f * bound;
    lemma_distribute(bound, one, f);
    lemma_distribute(u, bound, fb);
    lemma_positive_product(f, bound);
    lemma_positive_product(u, fb);
    lemma_positive_product(u, bound);
    lemma_scaled_out(f, u, bound);
    lemma_gap_follows(s, t, fratio(1, 2), fratio(1, 10), a, b, bound);
    lemma_gap_follows(s, t, fratio(3, 4), fratio(1, 4), a, b, bound);
    let bulk = exact_gap(s, fratio(1, 2), fratio(1, 10));
    let range = exact_gap(s, fratio(3, 4), fratio(1, 4));
    let range1 = exact_gap(t, fratio(3, 4), fratio(1, 4));
    let forty = 40 as real;
    lemma_product_bound(f, range1 - a * range, f, forty * e);
    lemma_scaled_out(f, forty, e);
    lemma_distribute(f, range1, a * range);
    lemma_scaled_out(f, a, range);
    if bulk < f * range {
        lemma_scale_order(bulk, f * range, a);
    } else {
        lemma_scale_order(f * range, bulk, a);
    }
}

/// The statistic can be read off a pool: it is defined, the scale of the bulk is positive,
/// and the ratio is far from overflow.
pub open spec fn readable(s: Seq<Double>, cfg: DiscriminationConfig) -> bool {
    &&& separation_defined(s, cfg)
    &&& exact(bulk_scale(s, cfg)) > (0 as real)
    &&& size(exact(elevation(s, cfg))) <= limit() * exact(bulk_scale(s, cfg))
}

/// The ratio, multiplied back, is close to the elevation.
pub proof fn lemma_ratio_near(s: Seq<Double>, cfg: DiscriminationConfig, bound: real)
    requires
        countable(s.len() as int),
        held_within(s, bound),
        is_non_negative(cfg.denom_floor_frac),
        comfortable(s.len() as int, bound),
        comfortable(s.len() as int, floor_weight(cfg) * bound),
        readable(s, cfg),
    ensures
        size(
            exact(separation_ratio(s, cfg)) * exact(bulk_scale(s, cfg)) - exact(elevation(s, cfg)),
        ) <= (11 as real) * (ulp() * (floor_weight(cfg) * bound)),
{
    lemma_small_errors();
    lemma_elevation_near(s, cfg, bound);
    lemma_scale_near(s, cfg, bound);
    let u = ulp();
    let zero = 0 as real;
    let d = exact(bulk_scale(s, cfg));
    let e = exact(elevation(s, cfg));
    let r = exact(separation_ratio(s, cfg));
    let q = e / d;
    let cb = floor_weight(cfg) * bound;
    lemma_exact_order(bulk_scale(s, cfg), bulk_scale(s, cfg));
    lemma_quotient_back(e, d);
    lemma_distribute(d, zero, q);
    lemma_distribute(d, zero, limit());
    assert(zero * d == zero);
    lemma_cancel_order(q, limit(), d);
    lemma_cancel_order(-limit(), q, d);
    lemma_quotient_error(elevation(s, cfg), bulk_scale(s, cfg));
    let err = u * size(q) + tiny();
    lemma_distribute(d, r, q);
    lemma_scale_order(r - q, err, d);
    lemma_scale_order(-err, r - q, d);
    lemma_distribute(d, zero, err);
    lemma_distribute(d, u * size(q), tiny());
    lemma_associate(u, size(q), d);
    lemma_size_product(q, d);
    assert(size(q) * d == size(e));
    assert(size(r * d - e) <= u * size(e) + tiny() * d);
    let ten = 10 as real;
    lemma_scale_order(size(e), ten * bound, u);
    lemma_scaled_out(u, ten, bound);
    let fourteen = 14 as real;
    lemma_scale_order(tiny(), u * u, d);
    lemma_scale_order(d, fourteen * cb, u * u);
    lemma_scaled_out(u * u, fourteen, cb);
    lemma_associate(u, u, cb);
    let ce = u * cb;
    lemma_positive_product(u, cb);
    lemma_scale_order(u, (1 as real) / (1_000_000 as real), ce);
}

/// What is near in two pools, of which the one follows the other, is near across them.
pub proof fn lemma_across(
    x: real,
    exact_x: real,
    y: real,
    exact_y: real,
    a: real,
    near: real,
    near_scaled: real,
    apart: real,
)
    requires
        a > (0 as real),
        size(x - exact_x) <= near,
        a * near <= near_scaled,
        size(y - exact_y) <= near_scaled,
        size(exact_y - a * exact_x) <= apart,
    ensures
        size(y - a * x) <= near_scaled + near_scaled + apart,
{
    let zero = 0 as real;
    lemma_distribute(a, x, exact_x);
    lemma_scale_order(x - exact_x, near, a);
    lemma_scale_order(-near, x - exact_x, a);
    lemma_distribute(a, zero, near);
    assert(a * zero == zero);
}

/// The separation statistic does not depend on the unit or the origin of the scores, up to
/// rounding. Of two sorted pools, let the one be the other times a positive `a` plus `b`, up
/// to four rounding errors of a score of the size `bound`. Where the statistic can be read
/// off both, the two readings differ by at most so many rounding errors of the largest
/// score, measured by the scale of the bulk; and that scale follows `a` alone.
pub proof fn lemma_separation_ignores_scale_and_shift(
    s: Seq<Double>,
    t: Seq<Double>,
    cfg: DiscriminationConfig,
    a: real,
    b: real,
    base: real,
    bound: real,
)
    requires
        countable(s.len() as int),
        is_non_negative(cfg.denom_floor_frac),
        a > (0 as real),
        a * base <= bound,
        held_within(s, base),
        held_within(t, bound),
        follows(s, t, a, b, bound),
        comfortable(s.len() as int, base),
        comfortable(s.len() as int, bound),
        comfortable(s.len() as int, floor_weight(cfg) * base),
        comfortable(s.len() as int, floor_weight(cfg) * bound),
        readable(s, cfg),
        readable(t, cfg),
    ensures
        separation_of(s, cfg).0 is Some,
        separation_of(t, cfg).0 is Some,
        ({
            let error = ulp() * (floor_weight(cfg) * bound);
            let x = exact(separation_of(s, cfg).0->0);
            let y = exact(separation_of(t, cfg).0->0);
            let scale = a * exact(bulk_scale(s, cfg));
            &&& scale > (0 as real)
            &&& size(y - x) * scale <= ((104 + 4 * s.len()) as real) * error + (158 as real) * (size(
                y,
            ) * error)
            &&& size(exact(bulk_scale(t, cfg)) - scale) <= (158 as real) * error
        }),
{
    let n = s.len() as int;
    let u = ulp();
    let c = floor_weight(cfg);
    let ce = u * (c * bound);
    let e = u * bound;
    lemma_small_errors();
    lemma_elevation_near(s, cfg, base);
    lemma_elevation_near(t, cfg, bound);
    lemma_scale_near(s, cfg, base);
    lemma_scale_near(t, cfg, bound);
    lemma_ratio_near(s, cfg, base);
    lemma_ratio_near(t, cfg, bound);
    lemma_elevation_follows(s, t, cfg, a, b, bound);
    lemma_scale_follows(s, t, cfg, a, b, bound);
    lemma_errors_scale(n, c, a, base, bound);
    let d0 = exact(bulk_scale(s, cfg));
    let d1 = exact(bulk_scale(t, cfg));
    let e0 = exact(elevation(s, cfg));
    let e1 = exact(elevation(t, cfg));
    let x = exact(separation_ratio(s, cfg));
    let y = exact(separation_ratio(t, cfg));
    let w0 = addition_error(n, base);
    let w1 = addition_error(n, bound);
    lemma_across(
        e0,
        exact_elevation(s, cfg),
        e1,
        exact_elevation(t, cfg),
        a,
        w0 + (29 as real) * (u * base),
        w1 + (29 as real) * e,
        (24 as real) * e,
    );
    lemma_across(
        d0,
        exact_scale(s, cfg),
        d1,
        exact_scale(t, cfg),
        a,
        (59 as real) * (u * (c * base)),
        (59 as real) * ce,
        (40 as real) * ce,
    );
    let scale = a * d0;
    lemma_positive_product(a, d0);
    lemma_across(
        x * d0,
        e0,
        y * d1,
        e1,
        a,
        (11 as real) * (u * (c * base)),
        (11 as real) * ce,
        w1 + w1 + (82 as real) * e,
    );
    // What is left is the change of the scale.
    let k = (158 as real) * ce;
    lemma_product_bound(y, scale - d1, size(y), k);
    lemma_distribute(y, scale, d1);
    lemma_scaled_out(size(y), 158 as real, ce);
    lemma_scaled_out(a, x, d0);
    lemma_distribute(scale, y, x);
    let all = w1 + w1 + (104 as real) * ce + (158 as real) * (size(y) * ce);
    assert(size((y - x) * scale) <= all);
    lemma_size_product(y - x, scale);
    let nr = n as real;
    lemma_scale_order(e, ce, nr);
    assert(w1 == (2 as real) * (nr * e));
    lemma_distribute(ce, 104 as real, (4 * n) as real);
    lemma_associate(4 as real, nr, ce);
    assert((4 * n) as real == (4 as real) * nr);
    assert((104 + 4 * n) as real == (104 as real) + (4 * n) as real);
}

/// A pool times a factor plus an offset, as computed.
pub open spec fn rescaled(s: Seq<Double>, factor: Double, offset: Double) -> Seq<Double> {
    Seq::new(s.len(), |i: int| fadd(fmul(factor, s[i]), offset))
}

/// A pool that is multiplied by a factor and offset follows its scores.
pub proof fn lemma_rescaled_follows(
    s: Seq<Double>,
    factor: Double,
    offset: Double,
    base: real,
    bound: real,
)
    requires
        countable(s.len() as int),
        factor.finite(),
        exact(factor) > (0 as real),
        offset.finite(),
        size(exact(offset)) <= (2 as real) * bound,
        exact(factor) * base <= bound,
        held_within(s, base),
        held_within(rescaled(s, factor, offset), bound),
        comfortable(s.len() as int, bound),
    ensures
        follows(s, rescaled(s, factor, offset), exact(factor), exact(offset), bound),
{
    let t = rescaled(s, factor, offset);
    let u = ulp();
    let a = exact(factor);
    let b = exact(offset);
    let e = u * bound;
    let one = 1 as real;
    lemma_small_errors();
    lemma_addition_error(s.len() as int, bound);
    lemma_scale_order(u, bound, u);
    lemma_scale_order(u, one / (1_000_000 as real), bound);
    assert forall|i: int| 0 <= i < s.len() implies size(exact(#[trigger] t[i]) - (a * exact(s[i])
        + b)) <= (4 as real) * e by {
        let x = exact(s[i]);
        assert(s[i].finite() && size(x) <= base);
        assert(t[i].finite());
        lemma_product_bound(a, x, a, base);
        lemma_product_error(factor, s[i]);
        lemma_scale_order(size(a * x), bound, u);
        let p = fmul(factor, s[i]);
        let z = exact(p) + b;
        lemma_sum_error(p, offset);
        lemma_scale_order(u, one / (1_000_000 as real), size(z));
        assert(size(z) <= (2 as real) * bound);
        lemma_scale_order(size(z), (2 as real) * bound, u);
        lemma_distribute(u, bound, bound);
    }
}

/// The size of a product with a positive number.
pub proof fn lemma_size_product(x: real, y: real)
    requires
        y > (0 as real),
    ensures
        size(x * y) == size(x) * y,
{
    let zero = 0 as real;
    lemma_distribute(y, zero, x);
    assert(zero * y == zero);
    if x < zero {
        lemma_positive_product(-x, y);
        assert((-x) * y == -(x * y));
    } else {
        lemma_positive_product(x, y);
    }
}

/// The errors of a pool, scaled, are within those of the pool that follows it.
pub proof fn lemma_errors_scale(n: int, c: real, a: real, base: real, bound: real)
    requires
        n >= 0,
        a > (0 as real),
        c >= (1 as real),
        a * base <= bound,
    ensures
        a * (addition_error(n, base) + (29 as real) * (ulp() * base)) <= addition_error(n, bound) + (
        29 as real) * (ulp() * bound),
        a * ((59 as real) * (ulp() * (c * base))) <= (59 as real) * (ulp() * (c * bound)),
        a * ((11 as real) * (ulp() * (c * base))) <= (11 as real) * (ulp() * (c * bound)),
{
    lemma_small_errors();
    let u = ulp();
    let nr = n as real;
    let e = u * base;
    let ce = u * (c * base);
    lemma_scaled_out(a, u, base);
    lemma_scale_order(a * base, bound, u);
    assert(a * e <= u * bound);
    lemma_scaled_out(a, u, c * base);
    lemma_scaled_out(a, c, base);
    lemma_scale_order(a * base, bound, c);
    lemma_scale_order(c * (a * base), c * bound, u);
    assert(a * ce <= u * (c * bound));
    lemma_scaled_out(a, 59 as real, ce);
    lemma_scaled_out(a, 11 as real, ce);
    lemma_scaled_out(a, 29 as real, e);
    lemma_scaled_out(a, 2 as real, nr * e);
    lemma_scaled_out(a, nr, e);
    lemma_scale_order(a * e, u * bound, nr);
    lemma_distribute(a, addition_error(n, base), (29 as real) * e);
}

} // verus!
