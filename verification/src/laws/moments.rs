//! Pooling summaries, in whatever order and grouping, up to rounding.
use crate::closeness::{
    close, lemma_close_chain, lemma_close_half, lemma_close_more, lemma_close_product,
    lemma_close_reversed, lemma_close_scaled, lemma_close_sum, lemma_close_unscaled,
    lemma_close_wide, lemma_product_near, lemma_quotient_near, lemma_sum_close,
};
use crate::double::{fadd, fcount, fdiv, fle, fmul, fone, fsub, fzero, unit, Double};
use crate::precision::{
    exact, least, lemma_difference_error, lemma_exact_count, lemma_exact_order, lemma_least,
    lemma_product_error, lemma_quotient_error, lemma_small_errors, lemma_sum_error, limit, size,
    tiny, ulp,
};
use crate::reals::{
    lemma_associate, lemma_between, lemma_cancel, lemma_cancel_order, lemma_commute,
    lemma_distribute, lemma_error_scaled, lemma_positive_product, lemma_positive_square,
    lemma_product_bound, lemma_quotient_back, lemma_scale_order, lemma_share_of_two,
    lemma_square_share, lemma_steiner,
};
use crate::summary::{empty_summary, pooled, pushed, single, MeanVar};
use vstd::prelude::*;

verus! {

/// The exact moments of a weighted body of observations: how much they count, their sum, and
/// the sum of their squares.
pub struct Moments {
    pub count: real,
    pub sum: real,
    pub squares: real,
}

/// The moments of two bodies of observations together.
pub open spec fn together(a: Moments, b: Moments) -> Moments {
    Moments { count: a.count + b.count, sum: a.sum + b.sum, squares: a.squares + b.squares }
}

/// The arithmetic mean.
pub open spec fn average(q: Moments) -> real {
    q.sum / q.count
}

/// The sum of squared deviations from the mean.
pub open spec fn scatter(q: Moments) -> real {
    q.squares - q.sum * q.sum / q.count
}

/// The largest count that is certain to be told from the next one.
pub open spec fn most() -> real {
    0x20_0000_0000_0000int as real
}

/// Observations of size at most `bound`, by their moments.
pub open spec fn within(q: Moments, bound: real) -> bool {
    &&& least() <= q.count <= most()
    &&& size(average(q)) <= bound
    &&& (0 as real) <= scatter(q)
    &&& q.squares <= q.count * (bound * bound)
}

/// A bound that is at least one and small enough for squares not to overflow.
pub open spec fn workable(bound: real) -> bool {
    &&& (1 as real) <= bound
    &&& most() * most() * (bound * bound) <= limit()
}

/// So few parts that their roundings stay small.
pub open spec fn few(k: int) -> bool {
    1 <= k && 4096 * k <= 0x20_0000_0000_0000
}

/// How far `k` poolings can move a mean.
pub open spec fn mean_error(k: int, bound: real) -> real {
    (k as real) * ((72 as real) * (ulp() * bound))
}

/// How far `k` poolings can move a sum of squared deviations.
pub open spec fn scatter_error(k: int, n: real, bound: real) -> real {
    (k as real) * n * ((4096 as real) * (ulp() * (bound * bound)))
}

/// How far `k` poolings can move a variance.
pub open spec fn spread_error(k: int, bound: real) -> real {
    (k as real) * ((8208 as real) * (ulp() * (bound * bound)))
}

/// A summary stands for a body of observations: its count, its mean and its squared deviation
/// are as near as `k` parts pooled can bring them.
pub open spec fn stands_for(s: MeanVar, q: Moments, k: int, bound: real) -> bool {
    &&& within(q, bound)
    &&& s.count.finite()
    &&& close(exact(s.count), q.count, (2 * k) as real)
    &&& s.mean.finite()
    &&& size(exact(s.mean) - average(q)) <= mean_error(k, bound)
    &&& s.m2.finite()
    &&& size(exact(s.m2) - scatter(q)) <= scatter_error(k, q.count, bound)
}

/// Counts add up exactly.
pub proof fn lemma_counts_add(a: int, b: int)
    requires
        0 <= a,
        0 <= b,
        a + b <= 0x20_0000_0000_0000,
    ensures
        fadd(fcount(a), fcount(b)) == fcount(a + b),
{
    crate::exact::lemma_count_exact(a);
    crate::exact::lemma_count_exact(b);
    let u = unit();
    assert(a * u + b * u == (a + b) * u) by (nonlinear_arith);
    if a + b == 0 {
        crate::double::lemma_small_counts();
        reveal(fadd);
    } else {
        vstd::arithmetic::power2::lemma_pow2_pos(crate::double::UNIT_EXPONENT as nat);
        assert((a + b) * u > 0) by (nonlinear_arith)
            requires
                a + b > 0,
                u > 0,
        ;
        reveal(fadd);
        reveal(fcount);
    }
}

/// The errors of two means, weighted by their shares.
proof fn lemma_average_step(
    m1: real,
    m2: real,
    mu1: real,
    mu2: real,
    share: real,
    e1: real,
    e2: real,
)
    requires
        (0 as real) <= share <= (1 as real),
        size(m1 - mu1) <= e1,
        size(m2 - mu2) <= e2,
    ensures
        size(m1 + (m2 - m1) * share - (mu1 + (mu2 - mu1) * share)) <= e1 * ((1 as real) - share)
            + e2 * share,
{
    let one = 1 as real;
    let x = m1 - mu1;
    let y = m2 - mu2;
    let rest = one - share;
    lemma_product_bound(x, rest, e1, rest);
    lemma_product_bound(y, share, e2, share);
    lemma_distribute(x, one, share);
    lemma_distribute(share, m2, m1);
    lemma_distribute(share, mu2, mu1);
    lemma_distribute(share, m2, mu2);
    lemma_distribute(share, m1, mu1);
    assert(m1 + (m2 - m1) * share - (mu1 + (mu2 - mu1) * share) == x * rest + y * share);
}

/// How far a rounded move of a mean lies from the exact one.
proof fn lemma_move_step(
    d: real,
    delta: real,
    share: real,
    ratio: real,
    bound: real,
    sigma: real,
)
    requires
        (1 as real) <= bound,
        (0 as real) <= share <= (1 as real),
        (0 as real) <= sigma <= (1 as real) / (10 as real),
        size(d) <= (4 as real) * bound,
        size(delta - d) <= (4 as real) * (ulp() * bound),
        size(ratio - share) <= (5 as real) * ulp() + sigma,
    ensures
        size(delta * ratio - d * share) <= (25 as real) * (ulp() * bound) + (4 as real) * (bound
            * sigma),
{
    lemma_small_errors();
    let one = 1 as real;
    let e = ulp();
    let eb = e * bound;
    let bs = bound * sigma;
    let four_b = (4 as real) * bound;
    let t1 = delta - d;
    let t2 = ratio - share;
    let reach = (5 as real) * e + sigma;
    lemma_positive_product(e, bound);
    lemma_product_bound(d, t2, four_b, reach);
    lemma_distribute(four_b, (5 as real) * e, sigma);
    lemma_constants(4 as real, bound, 5 as real, e);
    lemma_commute(bound, e);
    lemma_associate(4 as real, bound, sigma);
    assert(four_b * reach == (20 as real) * eb + (4 as real) * bs);
    lemma_product_bound(t1, share, (4 as real) * eb, one);
    lemma_product_bound(t1, t2, (4 as real) * eb, reach);
    lemma_scale_order(reach, one / (5 as real), (4 as real) * eb);
    assert((4 as real) * eb * reach <= eb);
    lemma_distribute(ratio, d, t1);
    lemma_distribute(d, share, t2);
    lemma_distribute(t1, share, t2);
    assert(delta * ratio - d * share == d * t2 + t1 * share + t1 * t2);
}

/// The sizes of a rounded gap of two means and of a rounded move by its share.
proof fn lemma_move_sizes(
    d: real,
    delta: real,
    share: real,
    ratio: real,
    move_by: real,
    bound: real,
    sigma: real,
)
    requires
        (1 as real) <= bound,
        (0 as real) <= share <= (1 as real),
        (0 as real) <= sigma <= (1 as real) / (10 as real),
        size(d) <= (4 as real) * bound,
        size(delta - d) <= ulp() * size(d),
        size(ratio - share) <= (5 as real) * ulp() + sigma,
        size(move_by - delta * ratio) <= ulp() * size(delta * ratio) + tiny(),
    ensures
        size(delta - d) <= (4 as real) * (ulp() * bound),
        size(move_by - delta * ratio) <= (7 as real) * (ulp() * bound),
        size(move_by) <= (7 as real) * bound,
{
    lemma_small_errors();
    let one = 1 as real;
    let e = ulp();
    let eb = e * bound;
    lemma_scale_order(one, bound, e);
    lemma_scale_order(e, one / (1_000_000 as real), bound);
    lemma_error_scaled(delta - d, d, (4 as real) * bound, e, 0 as real);
    lemma_constant_inside(e, 4 as real, bound);
    assert(size(ratio) <= (6 as real) / (5 as real));
    lemma_product_bound(delta, ratio, (5 as real) * bound, (6 as real) / (5 as real));
    let prod = delta * ratio;
    assert(size(prod) <= (6 as real) * bound);
    lemma_error_scaled(move_by - prod, prod, (6 as real) * bound, e, tiny());
    lemma_constant_inside(e, 6 as real, bound);
}

/// The mean of two pooled parts, in real numbers: `e1` and `e2` bound the errors of the parts,
/// and `sigma` what the share of the second has gathered before its division.
proof fn lemma_mean_step(
    m1: real,
    m2: real,
    mu1: real,
    mu2: real,
    share: real,
    bound: real,
    e1: real,
    e2: real,
    sigma: real,
    delta: real,
    ratio: real,
    move_by: real,
    mean: real,
)
    requires
        (1 as real) <= bound,
        (0 as real) <= share <= (1 as real),
        size(mu1) <= bound,
        size(mu2) <= bound,
        (0 as real) <= e1 <= bound,
        (0 as real) <= e2 <= bound,
        (0 as real) <= sigma <= (1 as real) / (10 as real),
        size(m1 - mu1) <= e1,
        size(m2 - mu2) <= e2,
        size(delta - (m2 - m1)) <= ulp() * size(m2 - m1),
        size(ratio - share) <= (5 as real) * ulp() + sigma,
        size(move_by - delta * ratio) <= ulp() * size(delta * ratio) + tiny(),
        size(mean - (m1 + move_by)) <= ulp() * size(m1 + move_by),
    ensures
        size(mean - (mu1 + (mu2 - mu1) * share)) <= e1 * ((1 as real) - share) + e2 * share + (
        46 as real) * (ulp() * bound) + (5 as real) * (bound * sigma),
{
    lemma_small_errors();
    let one = 1 as real;
    let e = ulp();
    let w = tiny();
    let eb = e * bound;
    let bs = bound * sigma;
    lemma_scale_order(one, bound, e);
    lemma_scale_order(e, one / (1_000_000 as real), e);
    lemma_scale_order(e, one / (1_000_000 as real), bound);
    lemma_positive_product(bound, sigma);
    assert(eb >= e && w <= eb && eb <= bound / (1_000_000 as real));
    let d = m2 - m1;
    assert(size(d) <= (4 as real) * bound);
    lemma_move_sizes(d, delta, share, ratio, move_by, bound, sigma);
    lemma_move_step(d, delta, share, ratio, bound, sigma);
    assert(size(m1 + move_by) <= (9 as real) * bound);
    let t4 = mean - (m1 + move_by);
    lemma_error_scaled(t4, m1 + move_by, (9 as real) * bound, e, 0 as real);
    lemma_constant_inside(e, 9 as real, bound);
    assert(size(t4) <= (9 as real) * eb);
    lemma_average_step(m1, m2, mu1, mu2, share, e1, e2);
}

/// The squared deviation between two pooled parts, in real numbers: `gap` is the exact
/// difference of the means, `delta` the rounded one, and `weight` the exact factor of its
/// square, which the rounded one is off by so many rounding errors.
proof fn lemma_between_step(
    gap: real,
    delta: real,
    bound: real,
    err: real,
    square: real,
    weight: real,
    factor: real,
    off_by: real,
    between: real,
)
    requires
        (1 as real) <= bound,
        (0 as real) <= err <= bound,
        size(gap) <= (2 as real) * bound,
        size(delta) <= (5 as real) * bound,
        size(delta - gap) <= (2 as real) * err + (4 as real) * (ulp() * bound),
        (0 as real) <= weight,
        (0 as real) <= off_by,
        off_by * ulp() <= (1 as real),
        tiny() <= weight * (ulp() * (bound * bound)),
        size(square - delta * delta) <= ulp() * size(delta * delta) + tiny(),
        size(factor - weight) <= off_by * (ulp() * weight),
        size(between - square * factor) <= ulp() * size(square * factor) + tiny(),
    ensures
        size(between - gap * gap * weight) <= (28 as real) * (weight * (bound * err)) + (
        170 as real) * (weight * (ulp() * (bound * bound))) + (4 as real) * (off_by * (weight * (
        ulp() * (bound * bound)))),
{
    lemma_small_errors();
    let one = 1 as real;
    let million = 1_000_000 as real;
    let e = ulp();
    let w = tiny();
    let b2 = bound * bound;
    let eb = e * bound;
    let eb2 = e * b2;
    let be = bound * err;
    // Sizes of the errors relative to each other.
    lemma_scale_order(one, bound, bound);
    lemma_scale_order(one, b2, e);
    lemma_scale_order(e, one / million, e);
    lemma_scale_order(e, one / million, b2);
    lemma_positive_product(bound, err);
    lemma_scale_order(err, bound, bound);
    lemma_associate(e, bound, bound);
    lemma_positive_product(e, b2);
    assert(b2 >= one && eb2 >= e && w <= eb2 / million && eb2 <= b2 / million);
    // The square of the rounded gap.
    lemma_product_bound(delta, delta, (5 as real) * bound, (5 as real) * bound);
    lemma_constants(5 as real, bound, 5 as real, bound);
    let dd = delta * delta;
    let ts = square - dd;
    lemma_error_scaled(ts, dd, (25 as real) * b2, e, w);
    lemma_constant_inside(e, 25 as real, b2);
    assert(size(ts) <= (26 as real) * eb2);
    let th = delta - gap;
    let both = delta + gap;
    let near = (2 as real) * err + (4 as real) * eb;
    lemma_product_bound(th, both, near, (7 as real) * bound);
    lemma_distribute((7 as real) * bound, (2 as real) * err, (4 as real) * eb);
    lemma_constants(2 as real, err, 7 as real, bound);
    lemma_constants(4 as real, eb, 7 as real, bound);
    lemma_commute(err, bound);
    assert(near * ((7 as real) * bound) == (14 as real) * be + (28 as real) * eb2);
    let gg = gap * gap;
    lemma_distribute(delta + gap, delta, gap);
    lemma_distribute(delta, delta, gap);
    lemma_distribute(gap, delta, gap);
    lemma_commute(delta, gap);
    assert(dd - gg == th * both);
    let off = square - gg;
    let off_bound = (14 as real) * be + (54 as real) * eb2;
    assert(size(off) <= off_bound);
    // The factor, close to the exact weight.
    let tf = factor - weight;
    let ew = e * weight;
    lemma_positive_product(e, weight);
    lemma_associate(off_by, e, weight);
    lemma_scale_order(off_by * e, one, weight);
    assert(size(factor) <= (2 as real) * weight);
    lemma_product_bound(off, factor, off_bound, (2 as real) * weight);
    lemma_product_bound(gap, gap, (2 as real) * bound, (2 as real) * bound);
    lemma_constants(2 as real, bound, 2 as real, bound);
    lemma_product_bound(gg, tf, (4 as real) * b2, off_by * ew);
    lemma_constants(4 as real, b2, off_by, ew);
    lemma_associate(4 as real, off_by, b2 * ew);
    let prod = square * factor;
    lemma_distribute(factor, square, gg);
    lemma_distribute(gg, factor, weight);
    assert(prod - gg * weight == off * factor + gg * tf);
    assert(size(square) <= (26 as real) * b2);
    lemma_product_bound(square, factor, (26 as real) * b2, (2 as real) * weight);
    lemma_constants(26 as real, b2, 2 as real, weight);
    let bw = b2 * weight;
    let ebw = weight * eb2;
    let bew = weight * be;
    lemma_distribute((2 as real) * weight, (14 as real) * be, (54 as real) * eb2);
    lemma_constants(14 as real, be, 2 as real, weight);
    lemma_constants(54 as real, eb2, 2 as real, weight);
    lemma_commute(be, weight);
    lemma_commute(eb2, weight);
    assert(off_bound * ((2 as real) * weight) == (28 as real) * bew + (108 as real) * ebw);
    // e * (b2 * weight) and b2 * (e * weight) are weight * (e * b2).
    lemma_associate(e, b2, weight);
    lemma_associate(b2, e, weight);
    lemma_commute(b2, e);
    assert(e * bw == ebw && b2 * ew == ebw);
    let tb = between - prod;
    lemma_error_scaled(tb, prod, (52 as real) * bw, e, w);
    lemma_constant_inside(e, 52 as real, bw);
    assert(size(tb) <= (53 as real) * ebw);
}

proof fn lemma_constants(a: real, x: real, b: real, y: real)
    ensures
        a * x * (b * y) == a * b * (x * y),
{
    lemma_associate(a, x, b * y);
    lemma_associate(x, b, y);
    lemma_commute(x, b);
    lemma_associate(b, x, y);
    lemma_associate(a, b, x * y);
}

proof fn lemma_constant_inside(e: real, a: real, x: real)
    ensures
        e * (a * x) == a * (e * x),
{
    lemma_associate(e, a, x);
    lemma_commute(e, a);
    lemma_associate(a, e, x);
}

/// The moments of two bodies together, by way of their means.
proof fn lemma_together(p: Moments, q: Moments, bound: real)
    requires
        within(p, bound),
        within(q, bound),
        p.count + q.count <= most(),
        (1 as real) <= bound,
    ensures
        ({
            let n1 = p.count;
            let n2 = q.count;
            let n = n1 + n2;
            let gap = average(q) - average(p);
            let t = together(p, q);
            &&& within(t, bound)
            &&& average(t) == average(p) + gap * (n2 / n)
            &&& scatter(t) == scatter(p) + scatter(q) + gap * gap * (n1 * n2 / n)
            &&& (0 as real) < n2 / n < (1 as real)
            &&& (0 as real) < n1 * n2 / n
            &&& least() <= (2 as real) * (n1 * n2 / n)
            &&& n1 * n2 / n <= n1
            &&& n1 * n2 / n <= n2
            &&& scatter(p) <= n1 * (bound * bound)
            &&& scatter(q) <= n2 * (bound * bound)
        }),
{
    lemma_least();
    let n1 = p.count;
    let n2 = q.count;
    let n = n1 + n2;
    let a = average(p);
    let b = average(q);
    let gap = b - a;
    let t = together(p, q);
    let x = n2 / n;
    let k = n1 * n2 / n;
    lemma_quotient_back(p.sum, n1);
    lemma_quotient_back(q.sum, n2);
    lemma_quotient_back(n2, n);
    lemma_quotient_back(n1 * n2, n);
    lemma_quotient_back(t.sum, n);
    // The share and the weight.
    lemma_associate(n1, x, n);
    lemma_cancel(k, n1 * x, n);
    lemma_share_of_two(n1, n2, x, k);
    // The mean, and the squared deviation.
    let c = a + gap * x;
    lemma_steiner(a, b, n1, n2, x, k);
    lemma_cancel(average(t), c, n);
    lemma_square_share(a, p.sum, n1);
    lemma_square_share(b, q.sum, n2);
    lemma_square_share(c, t.sum, n);
    lemma_positive_square(gap);
    lemma_positive_product(gap * gap, k);
    // Bounds.
    lemma_between(a, b, x, bound);
    lemma_associate(a, a, n1);
    lemma_associate(b, b, n2);
    lemma_positive_square(a);
    lemma_positive_square(b);
    lemma_positive_product(a * a, n1);
    lemma_positive_product(b * b, n2);
    lemma_distribute(bound * bound, n1, n2);
}

/// The error of a sum of squared deviations is small next to what they can sum to.
proof fn lemma_scatter_small(k: int, n: real, bound: real)
    requires
        few(k),
        (0 as real) < n,
        (1 as real) <= bound,
    ensures
        (0 as real) <= scatter_error(k, n, bound) <= n * (bound * bound),
{
    lemma_small_errors();
    let e = ulp();
    let b2 = bound * bound;
    let z = (4096 as real) * (e * b2);
    let kr = k as real;
    lemma_positive_square(bound);
    lemma_positive_product(e, b2);
    lemma_commute(kr, n);
    lemma_associate(n, kr, z);
    // kr * z == 4096 * kr * (e * b2) <= most * (e * b2) == b2
    lemma_constant_inside(kr, 4096 as real, e * b2);
    lemma_associate(4096 as real, kr, e * b2);
    lemma_scale_order((4096 as real) * kr, most(), e * b2);
    lemma_associate(most(), e, b2);
    lemma_commute(most(), e);
    assert(e * most() == (1 as real));
    lemma_scale_order(kr * z, b2, n);
    lemma_positive_product(kr, z);
    lemma_positive_product(n, kr * z);
}

/// What pooling crosses: the parts of the one, counted by the other.
spec fn crossed(k1: int, k2: int, n1: real, n2: real) -> real {
    (k1 as real) * n2 + (k2 as real) * n1
}

/// The crossed counts are no less than the poolings times the weight, nor than the count.
proof fn lemma_crossed(k1: int, k2: int, n1: real, n2: real, weight: real)
    requires
        1 <= k1,
        1 <= k2,
        (0 as real) < n1,
        (0 as real) < n2,
        (0 as real) <= weight,
        weight <= n1,
        weight <= n2,
    ensures
        ((k1 + k2) as real) * weight <= crossed(k1, k2, n1, n2),
        n1 + n2 <= crossed(k1, k2, n1, n2),
        weight <= crossed(k1, k2, n1, n2),
        ((k1 + k2) as real) * (n1 + n2) == (k1 as real) * n1 + (k2 as real) * n2 + crossed(
            k1,
            k2,
            n1,
            n2,
        ),
{
    let a = k1 as real;
    let b = k2 as real;
    let one = 1 as real;
    assert((k1 + k2) as real == a + b);
    lemma_distribute(weight, a, b);
    lemma_scale_order(weight, n2, a);
    lemma_scale_order(weight, n1, b);
    lemma_scale_order(one, a, n2);
    lemma_scale_order(one, b, n1);
    lemma_distribute(n1 + n2, a, b);
    lemma_distribute(a, n1, n2);
    lemma_distribute(b, n1, n2);
}

/// The errors of two parts and of pooling them add up to no more than that of both.
proof fn lemma_scatter_adds(k1: int, k2: int, n1: real, n2: real, weight: real, bound: real)
    requires
        1 <= k1,
        1 <= k2,
        (0 as real) < n1,
        (0 as real) < n2,
        (0 as real) <= weight,
        weight <= n1,
        weight <= n2,
        (1 as real) <= bound,
    ensures
        ({
            let err = mean_error(k1 + k2, bound);
            let off_by = (20 * (k1 + k2)) as real;
            let z = ulp() * (bound * bound);
            scatter_error(k1, n1, bound) + scatter_error(k2, n2, bound) + (28 as real) * (weight * (
            bound * err)) + (170 as real) * (weight * z) + (4 as real) * (off_by * (weight * z)) + (
            58 as real) * (ulp() * ((n1 + n2) * (bound * bound))) <= scatter_error(
                k1 + k2,
                n1 + n2,
                bound,
            )
        }),
{
    lemma_small_errors();
    let e = ulp();
    let b2 = bound * bound;
    let z = e * b2;
    let kr = (k1 + k2) as real;
    let err = kr * ((72 as real) * (e * bound));
    let cross = crossed(k1, k2, n1, n2);
    lemma_crossed(k1, k2, n1, n2, weight);
    lemma_positive_square(bound);
    lemma_positive_product(e, b2);
    // bound * err == 72 * (kr * z)
    lemma_constant_inside(kr, 72 as real, e * bound);
    lemma_constant_inside(bound, 72 as real, kr * (e * bound));
    lemma_associate(bound, kr, e * bound);
    lemma_commute(bound, kr);
    lemma_associate(kr, bound, e * bound);
    lemma_commute(bound, e * bound);
    lemma_associate(e, bound, bound);
    assert(bound * err == (72 as real) * (kr * z));
    // weight * (kr * z) <= cross * z
    lemma_constant_inside(weight, 72 as real, kr * z);
    lemma_associate(weight, kr, z);
    lemma_commute(weight, kr);
    lemma_scale_order(kr * weight, cross, z);
    lemma_associate(kr, weight, z);
    let kwz = kr * weight * z;
    assert(weight * (bound * err) == (72 as real) * kwz);
    lemma_associate(20 as real, kr, weight * z);
    assert((20 * (k1 + k2)) as real == (20 as real) * kr);
    assert(((20 * (k1 + k2)) as real) * (weight * z) == (20 as real) * kwz);
    lemma_scale_order(weight, cross, z);
    lemma_scale_order(n1 + n2, cross, z);
    lemma_associate(e, n1 + n2, b2);
    lemma_commute(e, n1 + n2);
    lemma_associate(n1 + n2, e, b2);
    assert(e * ((n1 + n2) * b2) == (n1 + n2) * z);
    lemma_positive_product(cross, z);
    // The whole is the sum of the parts and the crossed ones.
    let big_z = (4096 as real) * z;
    let x1 = (k1 as real) * n1;
    let x2 = (k2 as real) * n2;
    lemma_distribute(big_z, x1 + x2, cross);
    lemma_distribute(big_z, x1, x2);
    lemma_constant_inside(cross, 4096 as real, z);
    assert((28 * 72 + 170 + 4 * 20 + 58) <= 4096);
}

/// The errors of two means, weighted by their shares, and of pooling them add up to no more
/// than that of both.
proof fn lemma_mean_adds(
    k1: int,
    k2: int,
    n1: real,
    n2: real,
    weight: real,
    share: real,
    sigma: real,
    bound: real,
)
    requires
        1 <= k1,
        1 <= k2,
        (0 as real) < n1,
        (0 as real) < n2,
        (0 as real) <= weight,
        weight <= n1,
        weight <= n2,
        (1 as real) <= bound,
        share * (n1 + n2) == n2,
        sigma * (n1 + n2) <= (4 as real) * (((k1 + k2) as real) * (ulp() * weight)),
    ensures
        mean_error(k1, bound) * ((1 as real) - share) + mean_error(k2, bound) * share + (46 as real)
            * (ulp() * bound) + (5 as real) * (bound * sigma) <= mean_error(k1 + k2, bound),
{
    lemma_small_errors();
    let one = 1 as real;
    let e = ulp();
    let eb = e * bound;
    let n = n1 + n2;
    let kr = (k1 + k2) as real;
    let a = k1 as real;
    let b = k2 as real;
    let cross = crossed(k1, k2, n1, n2);
    let e1 = mean_error(k1, bound);
    let e2 = mean_error(k2, bound);
    let z = (72 as real) * eb;
    lemma_crossed(k1, k2, n1, n2, weight);
    lemma_positive_product(e, bound);
    let rest = one - share;
    // Everything, times the count.
    lemma_distribute(n, one, share);
    assert(rest * n == n1);
    lemma_associate(e1, rest, n);
    lemma_associate(e2, share, n);
    lemma_commute(a, z);
    lemma_associate(z, a, n1);
    lemma_commute(b, z);
    lemma_associate(z, b, n2);
    assert(e1 * rest * n == z * (a * n1));
    assert(e2 * share * n == z * (b * n2));
    let bs = bound * sigma;
    lemma_associate(bound, sigma, n);
    lemma_scale_order(sigma * n, (4 as real) * (kr * (e * weight)), bound);
    lemma_constant_inside(bound, 4 as real, kr * (e * weight));
    lemma_constant_inside(bound, kr, e * weight);
    lemma_constant_inside(bound, e, weight);
    lemma_commute(bound, weight);
    lemma_constant_inside(e, weight, bound);
    assert(bound * (e * weight) == weight * eb);
    lemma_associate(kr, weight, eb);
    assert(bs * n <= (4 as real) * (kr * weight * eb));
    lemma_scale_order(kr * weight, cross, eb);
    lemma_scale_order(n, cross, eb);
    lemma_commute(n, eb);
    let all = e1 * rest + e2 * share + (46 as real) * eb + (5 as real) * bs;
    lemma_distribute(n, e1 * rest + e2 * share + (46 as real) * eb, (5 as real) * bs);
    lemma_distribute(n, e1 * rest + e2 * share, (46 as real) * eb);
    lemma_distribute(n, e1 * rest, e2 * share);
    lemma_associate(46 as real, eb, n);
    lemma_associate(5 as real, bs, n);
    assert(all * n <= z * (a * n1) + z * (b * n2) + (46 as real) * (cross * eb) + (20 as real) * (
    cross * eb));
    let x1 = a * n1;
    let x2 = b * n2;
    lemma_distribute(z, x1 + x2, cross);
    lemma_distribute(z, x1, x2);
    lemma_constant_inside(cross, 72 as real, eb);
    lemma_commute(cross, z);
    lemma_positive_product(cross, eb);
    assert(all * n <= z * (kr * n));
    lemma_associate(z, kr, n);
    lemma_commute(z, kr);
    lemma_cancel_order(all, kr * z, n);
}

/// Two counts that are each near to what they stand for.
spec fn near_counts(c1: Double, c2: Double, n1: real, n2: real, k1: int, k2: int) -> bool {
    &&& few(k1)
    &&& few(k2)
    &&& few(k1 + k2)
    &&& least() <= n1
    &&& least() <= n2
    &&& n1 + n2 <= most()
    &&& c1.finite()
    &&& c2.finite()
    &&& close(exact(c1), n1, (2 * k1) as real)
    &&& close(exact(c2), n2, (2 * k2) as real)
}

/// The sizes of two counts and of their sum.
proof fn lemma_pooled_count(c1: Double, c2: Double, n1: real, n2: real, k1: int, k2: int)
    requires
        near_counts(c1, c2, n1, n2, k1, k2),
    ensures
        ({
            let whole = fadd(c1, c2);
            &&& n1 <= (2 as real) * exact(c1)
            &&& exact(c1) <= (2 as real) * n1
            &&& n2 <= (2 as real) * exact(c2)
            &&& exact(c2) <= (2 as real) * n2
            &&& whole.finite()
            &&& close(exact(whole), exact(c1) + exact(c2), 1 as real)
            &&& close(exact(whole), n1 + n2, (2 * (k1 + k2)) as real)
            &&& exact(c1) + exact(c2) <= (2 as real) * exact(whole)
            &&& exact(whole) <= (2 as real) * (n1 + n2)
            &&& n1 + n2 <= (2 as real) * exact(whole)
        }),
{
    lemma_small_errors();
    lemma_least();
    let one = 1 as real;
    let x = exact(c1);
    let y = exact(c2);
    let n = n1 + n2;
    let k = k1 + k2;
    let top = if k1 >= k2 {
        k1
    } else {
        k2
    };
    let t = (2 * top) as real;
    lemma_close_half(x, n1, (2 * k1) as real);
    lemma_close_half(y, n2, (2 * k2) as real);
    lemma_close_more(x, n1, (2 * k1) as real, t);
    lemma_close_more(y, n2, (2 * k2) as real, t);
    lemma_close_sum(x, n1, y, n2, t);
    lemma_sum_close(c1, c2);
    let w = exact(fadd(c1, c2));
    assert(one * t * ulp() <= one);
    lemma_close_chain(w, x + y, n, one, t);
    lemma_close_more(w, n, one + t + one, (2 * k) as real);
    lemma_close_half(w, x + y, one);
    lemma_close_half(w, n, (2 * k) as real);
}

/// A product of two counts does not overflow.
proof fn lemma_product_of_counts(x: real, y: real)
    requires
        (0 as real) <= x,
        (0 as real) <= y,
        x + y <= (2 as real) * most(),
    ensures
        x * y <= most() * most(),
        most() * most() <= limit(),
{
    lemma_small_errors();
    let h = x + y;
    let two_most = (2 as real) * most();
    lemma_positive_square(x - y);
    lemma_distribute(x - y, x, y);
    lemma_distribute(x, x, y);
    lemma_distribute(y, x, y);
    lemma_distribute(h, x, y);
    lemma_commute(x, y);
    lemma_scale_order(h, two_most, h);
    lemma_scale_order(h, two_most, two_most);
    lemma_constants(2 as real, most(), 2 as real, most());
    assert(h * h <= (4 as real) * (most() * most()));
    assert(h * h == (x - y) * (x - y) + (4 as real) * (x * y));
}

/// The share of the second part, as it is computed from two counts.
proof fn lemma_pooled_share(
    c1: Double,
    c2: Double,
    n1: real,
    n2: real,
    k1: int,
    k2: int,
    share: real,
    weight: real,
) -> (sigma: real)
    requires
        near_counts(c1, c2, n1, n2, k1, k2),
        share * (n1 + n2) == n2,
        weight * (n1 + n2) == n1 * n2,
        (0 as real) <= weight <= n1,
    ensures
        fdiv(c2, fadd(c1, c2)).finite(),
        (0 as real) <= sigma <= (1 as real) / (10 as real),
        sigma * (n1 + n2) <= (4 as real) * (((k1 + k2) as real) * (ulp() * weight)),
        size(exact(fdiv(c2, fadd(c1, c2))) - share) <= (5 as real) * ulp() + sigma,
{
    lemma_small_errors();
    lemma_least();
    lemma_pooled_count(c1, c2, n1, n2, k1, k2);
    let one = 1 as real;
    let two = 2 as real;
    let u = ulp();
    let x = exact(c1);
    let y = exact(c2);
    let h = x + y;
    let n = n1 + n2;
    let whole = fadd(c1, c2);
    let w = exact(whole);
    // The rounded division.
    lemma_count_clear(w, y);
    lemma_quotient_near(c2, whole);
    let r = exact(fdiv(c2, whole));
    let zero = 0 as real;
    lemma_close_half(r * w, y, two);
    assert(zero * w == zero);
    lemma_cancel_order(zero, r, w);
    lemma_close_reversed(w, h, one);
    lemma_close_scaled(h, w, two, r);
    lemma_close_chain(r * h, r * w, y, two, two);
    let p = y / h;
    lemma_quotient_back(y, h);
    lemma_close_unscaled(r, p, 5 as real, h);
    lemma_cancel_order(zero, p, h);
    lemma_cancel_order(p, one, h);
    lemma_scale_order(p, one, (5 as real) * u);
    assert(size(r - p) <= (5 as real) * u);
    // The exact division of what the counts have gathered.
    let sigma = size(p - share);
    lemma_share_apart(x, y, n1, n2, k1, k2, share, weight, p);
    sigma
}

/// How far the exact share of two near counts lies from that of what they stand for.
proof fn lemma_share_apart(
    x: real,
    y: real,
    n1: real,
    n2: real,
    k1: int,
    k2: int,
    share: real,
    weight: real,
    p: real,
)
    requires
        few(k1),
        few(k2),
        few(k1 + k2),
        (0 as real) < n1,
        (0 as real) < n2,
        close(x, n1, (2 * k1) as real),
        close(y, n2, (2 * k2) as real),
        n1 + n2 <= (2 as real) * (x + y),
        p * (x + y) == y,
        share * (n1 + n2) == n2,
        weight * (n1 + n2) == n1 * n2,
        (0 as real) <= weight <= n1,
    ensures
        size(p - share) * (n1 + n2) <= (4 as real) * (((k1 + k2) as real) * (ulp() * weight)),
        size(p - share) <= (1 as real) / (10 as real),
{
    lemma_small_errors();
    let one = 1 as real;
    let two = 2 as real;
    let u = ulp();
    let h = x + y;
    let n = n1 + n2;
    let a = (2 * k1) as real;
    let b = (2 * k2) as real;
    let kr = (k1 + k2) as real;
    let d = p - share;
    let nn = n1 * n2;
    // d * h * n == y * n1 - n2 * x
    lemma_distribute(h, p, share);
    lemma_distribute(n, p * h, share * h);
    lemma_associate(share, h, n);
    lemma_commute(h, n);
    lemma_associate(share, n, h);
    assert(d * h * n == y * n - n2 * h);
    lemma_distribute(y, n1, n2);
    lemma_distribute(n2, x, y);
    lemma_commute(y, n2);
    assert(d * h * n == y * n1 - n2 * x);
    lemma_distribute(n1, y, n2);
    lemma_distribute(n2, n1, x);
    lemma_commute(n1, n2);
    assert(d * h * n == (y - n2) * n1 + n2 * (n1 - x));
    // Both terms are near nought next to the product of the counts.
    lemma_product_bound(y - n2, n1, b * u * n2, n1);
    lemma_product_bound(n2, n1 - x, n2, a * u * n1);
    lemma_associate(b * u, n2, n1);
    lemma_commute(n2, n1);
    lemma_commute(n2, a * u * n1);
    lemma_associate(a * u, n1, n2);
    let bu = b * u;
    let au = a * u;
    assert(size(d * h * n) <= bu * nn + au * nn);
    lemma_distribute(nn, au, bu);
    lemma_distribute(u, a, b);
    assert(a + b == two * kr);
    lemma_associate(two, kr, u);
    let ku = kr * u;
    assert(au + bu == two * ku);
    let kw = ku * weight;
    lemma_associate(two * ku, weight, n);
    lemma_associate(two, ku, weight);
    assert(size(d * h * n) <= two * kw * n);
    let zero = 0 as real;
    lemma_distribute(n, zero, two * kw);
    assert(zero * n == zero);
    lemma_cancel_order(d * h, two * kw, n);
    lemma_cancel_order(-(two * kw), d * h, n);
    // And the sum of the counts is at least half of what it stands for.
    lemma_scale_order(n, two * h, size(d));
    lemma_size_times(d, h);
    lemma_associate(size(d), two, h);
    lemma_commute(size(d), two);
    lemma_associate(two, size(d), h);
    assert(size(d) * n <= (4 as real) * kw);
    lemma_associate(kr, u, weight);
    // The weight is no more than the count, and the roundings are few.
    lemma_scale_order(kr, most() / (4096 as real), u);
    assert(ku <= one / (4096 as real));
    lemma_scale_order(weight, n, ku);
    lemma_scale_order(ku, one / (4096 as real), n);
    lemma_cancel_order(size(d), one / (10 as real), n);
}

proof fn lemma_size_times(x: real, y: real)
    requires
        y >= (0 as real),
    ensures
        size(x * y) == size(x) * y,
{
    let zero = 0 as real;
    lemma_distribute(y, zero, x);
    assert(zero * y == zero);
    lemma_positive_product(x, y);
    lemma_positive_product(-x, y);
    assert((-x) * y == -(x * y));
}

/// A count is not among the smallest numbers, nor is its quotient with another.
proof fn lemma_count_clear(whole: real, c: real)
    requires
        (0 as real) < whole <= (4 as real) * most(),
        least() <= (2 as real) * c,
        c <= (2 as real) * whole,
    ensures
        tiny() * whole <= ulp() * c,
        c <= limit() * whole,
{
    lemma_small_errors();
    lemma_least();
    let u = ulp();
    let huge = 0x1_0000_0000_0000_0000int as real;
    let l = least();
    lemma_scale_order(whole, (4 as real) * most(), tiny());
    lemma_scale_order((8 as real) * most(), huge, tiny());
    lemma_scale_order(l * l, l, u);
    lemma_scale_order(l, (2 as real) * c, u);
    lemma_constant_inside(u, 2 as real, c);
    assert(tiny() * ((8 as real) * most()) <= huge * tiny());
    lemma_constant_inside(tiny(), 8 as real, most());
    lemma_constant_inside(tiny(), 4 as real, most());
    assert(huge * tiny() <= (2 as real) * (u * c));
    assert(tiny() * whole <= u * c);
    lemma_scale_order(2 as real, limit(), whole);
}

/// The factor of the squared gap, as it is computed from two counts.
proof fn lemma_pooled_factor(
    c1: Double,
    c2: Double,
    n1: real,
    n2: real,
    k1: int,
    k2: int,
    weight: real,
)
    requires
        near_counts(c1, c2, n1, n2, k1, k2),
        weight * (n1 + n2) == n1 * n2,
        (0 as real) <= weight,
    ensures
        fdiv(fmul(c1, c2), fadd(c1, c2)).finite(),
        size(exact(fdiv(fmul(c1, c2), fadd(c1, c2))) - weight) <= ((20 * (k1 + k2)) as real) * (
        ulp() * weight),
{
    lemma_small_errors();
    lemma_least();
    lemma_pooled_count(c1, c2, n1, n2, k1, k2);
    let one = 1 as real;
    let two = 2 as real;
    let zero = 0 as real;
    let u = ulp();
    let huge = 0x1_0000_0000_0000_0000int as real;
    let x = exact(c1);
    let y = exact(c2);
    let n = n1 + n2;
    let nn = n1 * n2;
    let xy = x * y;
    let whole = fadd(c1, c2);
    let w = exact(whole);
    let l = least();
    let a = (2 * k1) as real;
    let b = (2 * k2) as real;
    let kr = (k1 + k2) as real;
    // The product of the counts.
    lemma_product_of_counts(x, y);
    lemma_scale_order(l, two * x, l);
    lemma_scale_order(l, two * y, two * x);
    lemma_constants(2 as real, x, 2 as real, y);
    assert(l * l <= (4 as real) * xy);
    lemma_scale_order(l * l, (4 as real) * xy, u);
    lemma_constant_inside(u, 4 as real, xy);
    lemma_scale_order(8 as real, huge, tiny());
    lemma_product_near(c1, c2);
    let product = fmul(c1, c2);
    let p = exact(product);
    lemma_close_half(p, xy, two);
    lemma_close_product(x, n1, y, n2, a, b);
    lemma_close_chain(p, xy, nn, two, two * a + b);
    let e1 = two * a + b + (3 as real);
    // Its quotient by their sum.
    lemma_scale_order(xy, two * p, u);
    lemma_constant_inside(u, 2 as real, p);
    assert(huge * tiny() <= (8 as real) * (u * p));
    lemma_scale_order(w, (4 as real) * most(), tiny());
    lemma_scale_order((32 as real) * most(), huge, tiny());
    assert(tiny() * ((32 as real) * most()) <= huge * tiny());
    assert(tiny() * w <= u * p);
    lemma_scale_order(y, two * w, x);
    lemma_scale_order(x, two * most(), w);
    lemma_constant_inside(x, 2 as real, w);
    lemma_scale_order((8 as real) * most(), limit(), w);
    lemma_scale_order(16 as real, most(), most());
    lemma_associate(8 as real, most(), w);
    lemma_associate(2 as real, most(), w);
    assert(p <= limit() * w);
    lemma_quotient_near(product, whole);
    let f = exact(fdiv(product, whole));
    let fw = f * w;
    lemma_close_chain(fw, p, nn, two, e1);
    let e2 = e1 + (3 as real);
    lemma_positive_product(n1, n2);
    lemma_close_half(fw, nn, e2);
    assert(zero * w == zero);
    lemma_cancel_order(zero, f, w);
    // The sum is near to what it stands for.
    let e3 = (2 * (k1 + k2)) as real;
    lemma_close_reversed(w, n, e3);
    lemma_close_scaled(n, w, two * e3, f);
    lemma_close_wide(f * n, fw, nn, two * e3, e2);
    let e4 = two * (two * e3) + e2;
    lemma_close_unscaled(f, weight, e4, n);
    assert(e4 <= (20 as real) * kr);
    assert((20 * (k1 + k2)) as real == (20 as real) * kr);
    lemma_close_more(f, weight, e4, (20 * (k1 + k2)) as real);
    lemma_associate((20 * (k1 + k2)) as real, u, weight);
}

/// How the sizes that pooling meets compare.
pub proof fn lemma_scales(n: real, bound: real)
    requires
        workable(bound),
        least() <= n <= most(),
    ensures
        ({
            let million = 1_000_000 as real;
            let b2 = bound * bound;
            &&& b2 >= bound
            &&& (0 as real) < ulp() * bound <= bound / million
            &&& (0 as real) < ulp() * b2 <= b2 / million
            &&& tiny() <= ulp() * bound / million
            &&& tiny() <= ulp() * b2 / million
            &&& million * tiny() <= ulp() * (n * b2)
            &&& million * bound <= limit()
            &&& million * b2 <= limit()
            &&& million * (n * b2) <= limit()
            &&& (0 as real) < n * b2
            &&& most() * most() <= limit()
            &&& most() <= limit()
        }),
{
    lemma_small_errors();
    lemma_least();
    let one = 1 as real;
    let million = 1_000_000 as real;
    let huge = 0x1_0000_0000_0000_0000int as real;
    let big = most();
    let e = ulp();
    let b2 = bound * bound;
    let l = least();
    lemma_scale_order(one, bound, bound);
    lemma_positive_product(e, bound);
    lemma_positive_product(e, b2);
    lemma_scale_order(e, one / million, bound);
    lemma_scale_order(e, one / million, b2);
    lemma_scale_order(one, bound, e);
    lemma_scale_order(one, b2, e);
    lemma_scale_order(e, one / million, e);
    lemma_scale_order(n, big, b2);
    lemma_positive_product(n, b2);
    lemma_associate(big, big, b2);
    lemma_positive_product(big, b2);
    lemma_scale_order(million, big, big * b2);
    lemma_scale_order(one, big, big);
    // tiny is far below the rounding of the smallest count.
    lemma_scale_order(million, huge, tiny());
    lemma_scale_order(l * l, l, e);
    lemma_scale_order(l, n, e);
    lemma_scale_order(one, b2, n);
    lemma_scale_order(n, n * b2, e);
    lemma_commute(one, n);
    assert(n <= n * b2);
}

/// The error of a part is small next to the bound.
proof fn lemma_part_error(k: int, bound: real)
    requires
        few(k),
        workable(bound),
    ensures
        (0 as real) <= mean_error(k, bound) <= bound / (20 as real),
{
    lemma_small_errors();
    let eb = ulp() * bound;
    let kr = k as real;
    lemma_positive_product(ulp(), bound);
    lemma_positive_product(kr, (72 as real) * eb);
    lemma_scale_order((4096 as real) * kr, most(), eb);
    lemma_associate(most(), ulp(), bound);
    lemma_commute(most(), ulp());
    assert(ulp() * most() == (1 as real));
    lemma_associate(4096 as real, kr, eb);
    lemma_constant_inside(kr, 72 as real, eb);
    lemma_positive_product(kr, eb);
}

/// The gap of two means.
proof fn lemma_pooled_gap(s: Double, t: Double, mu1: real, mu2: real, k1: int, k2: int, bound: real)
    requires
        workable(bound),
        few(k1),
        few(k2),
        s.finite(),
        t.finite(),
        size(mu1) <= bound,
        size(mu2) <= bound,
        size(exact(s) - mu1) <= mean_error(k1, bound),
        size(exact(t) - mu2) <= mean_error(k2, bound),
    ensures
        fsub(t, s).finite(),
        size(mu2 - mu1) <= (2 as real) * bound,
        size(exact(t) - exact(s)) <= (4 as real) * bound,
        size(exact(fsub(t, s)) - (exact(t) - exact(s))) <= ulp() * size(exact(t) - exact(s)),
        size(exact(fsub(t, s))) <= (5 as real) * bound,
        size(exact(fsub(t, s)) - (mu2 - mu1)) <= mean_error(k1, bound) + mean_error(k2, bound) + (
        4 as real) * (ulp() * bound),
{
    lemma_small_errors();
    lemma_least();
    lemma_scales(1 as real, bound);
    lemma_part_error(k1, bound);
    lemma_part_error(k2, bound);
    let e = ulp();
    let m1 = exact(s);
    let m2 = exact(t);
    assert(size(m2 - m1) <= (4 as real) * bound);
    lemma_difference_error(t, s);
    let delta = exact(fsub(t, s));
    lemma_error_scaled(delta - (m2 - m1), m2 - m1, (4 as real) * bound, e, 0 as real);
    lemma_constant_inside(e, 4 as real, bound);
}

/// The mean of both parts together.
proof fn lemma_pooled_mean(
    s: MeanVar,
    t: MeanVar,
    p: Moments,
    q: Moments,
    k1: int,
    k2: int,
    bound: real,
)
    requires
        workable(bound),
        few(k1),
        few(k2),
        few(k1 + k2),
        stands_for(s, p, k1, bound),
        stands_for(t, q, k2, bound),
        p.count + q.count <= most(),
    ensures
        ({
            let delta = fsub(t.mean, s.mean);
            let mean = fadd(s.mean, fmul(delta, fdiv(t.count, fadd(s.count, t.count))));
            &&& mean.finite()
            &&& size(exact(mean) - average(together(p, q))) <= mean_error(k1 + k2, bound)
        }),
{
    lemma_small_errors();
    lemma_least();
    lemma_together(p, q, bound);
    let e = ulp();
    let w = tiny();
    let n1 = p.count;
    let n2 = q.count;
    let n = n1 + n2;
    let share = n2 / n;
    let weight = n1 * n2 / n;
    lemma_quotient_back(n2, n);
    lemma_quotient_back(n1 * n2, n);
    lemma_scales(n, bound);
    lemma_part_error(k1, bound);
    lemma_part_error(k2, bound);
    let fdelta = fsub(t.mean, s.mean);
    let whole = fadd(s.count, t.count);
    lemma_pooled_gap(s.mean, t.mean, average(p), average(q), k1, k2, bound);
    let sigma = lemma_pooled_share(s.count, t.count, n1, n2, k1, k2, share, weight);
    let fshare = fdiv(t.count, whole);
    let ratio = exact(fshare);
    let delta = exact(fdelta);
    assert(size(ratio) <= (2 as real));
    lemma_product_bound(delta, ratio, (5 as real) * bound, 2 as real);
    assert((5 as real) * bound * (2 as real) == (10 as real) * bound);
    lemma_product_error(fdelta, fshare);
    let fmove = fmul(fdelta, fshare);
    let move_by = exact(fmove);
    lemma_error_scaled(move_by - delta * ratio, delta * ratio, (10 as real) * bound, e, w);
    lemma_constant_inside(e, 10 as real, bound);
    lemma_sum_error(s.mean, fmove);
    let fmean = fadd(s.mean, fmove);
    lemma_mean_step(
        exact(s.mean),
        exact(t.mean),
        average(p),
        average(q),
        share,
        bound,
        mean_error(k1, bound),
        mean_error(k2, bound),
        sigma,
        delta,
        ratio,
        move_by,
        exact(fmean),
    );
    lemma_mean_adds(k1, k2, n1, n2, weight, share, sigma, bound);
}

/// The squared gap, weighted.
proof fn lemma_pooled_between(
    delta: Double,
    factor: Double,
    gap: real,
    weight: real,
    n: real,
    err: real,
    off_by: real,
    bound: real,
)
    requires
        workable(bound),
        least() <= n <= most(),
        least() <= (2 as real) * weight,
        weight <= n,
        (0 as real) <= err <= bound,
        (0 as real) <= off_by,
        off_by * ulp() <= (1 as real),
        delta.finite(),
        size(gap) <= (2 as real) * bound,
        size(exact(delta)) <= (5 as real) * bound,
        size(exact(delta) - gap) <= (2 as real) * err + (4 as real) * (ulp() * bound),
        factor.finite(),
        size(exact(factor) - weight) <= off_by * (ulp() * weight),
    ensures
        ({
            let between = fmul(fmul(delta, delta), factor);
            let bew = weight * (bound * err);
            let ebw = weight * (ulp() * (bound * bound));
            &&& between.finite()
            &&& size(exact(between) - gap * gap * weight) <= (28 as real) * bew + (170 as real)
                * ebw + (4 as real) * (off_by * ebw)
            &&& size(exact(between)) <= (53 as real) * (n * (bound * bound))
        }),
{
    lemma_small_errors();
    lemma_least();
    lemma_scales(n, bound);
    let one = 1 as real;
    let million = 1_000_000 as real;
    let e = ulp();
    let w = tiny();
    let b2 = bound * bound;
    let eb2 = e * b2;
    let d = exact(delta);
    let f = exact(factor);
    lemma_product_bound(d, d, (5 as real) * bound, (5 as real) * bound);
    lemma_constants(5 as real, bound, 5 as real, bound);
    lemma_product_error(delta, delta);
    let fsquare = fmul(delta, delta);
    let square = exact(fsquare);
    lemma_error_scaled(square - d * d, d * d, (25 as real) * b2, e, w);
    lemma_constant_inside(e, 25 as real, b2);
    assert(size(square) <= (26 as real) * b2);
    lemma_positive_product(e, weight);
    lemma_associate(off_by, e, weight);
    lemma_scale_order(off_by * e, one, weight);
    assert(size(f) <= (2 as real) * weight);
    lemma_product_bound(square, f, (26 as real) * b2, (2 as real) * weight);
    lemma_constants(26 as real, b2, 2 as real, weight);
    lemma_scale_order(weight, n, b2);
    lemma_commute(weight, b2);
    assert(size(square * f) <= (52 as real) * (n * b2));
    lemma_product_error(fsquare, factor);
    let between = exact(fmul(fsquare, factor));
    lemma_error_scaled(between - square * f, square * f, (52 as real) * (n * b2), e, w);
    lemma_constant_inside(e, 52 as real, n * b2);
    lemma_scale_order(e, one / million, n * b2);
    assert(size(between) <= (53 as real) * (n * b2));
    // The smallest number is below the rounding of the weight.
    let huge = 0x1_0000_0000_0000_0000int as real;
    lemma_scale_order(2 as real, huge, w);
    lemma_scale_order(least() * least(), least(), e);
    lemma_scale_order(least(), (2 as real) * weight, e);
    lemma_constant_inside(e, 2 as real, weight);
    lemma_scale_order(one, b2, e * weight);
    lemma_commute(e, weight);
    lemma_associate(weight, e, b2);
    assert(w <= weight * eb2);
    lemma_between_step(gap, d, bound, err, square, weight, f, off_by, between);
}

/// Pooling two summaries that stand for two bodies of observations gives one that stands for
/// both together.
pub proof fn lemma_pooled_stands_for(
    s: MeanVar,
    t: MeanVar,
    p: Moments,
    q: Moments,
    k1: int,
    k2: int,
    bound: real,
)
    requires
        workable(bound),
        few(k1),
        few(k2),
        few(k1 + k2),
        stands_for(s, p, k1, bound),
        stands_for(t, q, k2, bound),
        p.count + q.count <= most(),
    ensures
        stands_for(pooled(s, t), together(p, q), k1 + k2, bound),
{
    lemma_small_errors();
    lemma_least();
    lemma_together(p, q, bound);
    let n1 = p.count;
    let n2 = q.count;
    let n = n1 + n2;
    let gap = average(q) - average(p);
    let weight = n1 * n2 / n;
    lemma_quotient_back(n1 * n2, n);
    lemma_scales(n, bound);
    lemma_pooled_count(s.count, t.count, n1, n2, k1, k2);
    lemma_pooled_mean(s, t, p, q, k1, k2, bound);
    lemma_pooled_gap(s.mean, t.mean, average(p), average(q), k1, k2, bound);
    lemma_pooled_factor(s.count, t.count, n1, n2, k1, k2, weight);
    lemma_part_error(k1, bound);
    lemma_part_error(k2, bound);
    lemma_part_error(k1 + k2, bound);
    let err = mean_error(k1 + k2, bound);
    lemma_distribute((72 as real) * (ulp() * bound), k1 as real, k2 as real);
    assert((k1 + k2) as real == (k1 as real) + (k2 as real));
    let whole = fadd(s.count, t.count);
    let delta = fsub(t.mean, s.mean);
    let factor = fdiv(fmul(s.count, t.count), whole);
    let off_by = (20 * (k1 + k2)) as real;
    lemma_scale_order(off_by, most(), ulp());
    lemma_pooled_between(delta, factor, gap, weight, n, err, off_by, bound);
    let between = fmul(fmul(delta, delta), factor);
    lemma_scatter_small(k1, n1, bound);
    lemma_scatter_small(k2, n2, bound);
    lemma_pooled_sums(s.m2, t.m2, between, n1, n2, bound);
    lemma_scatter_adds(k1, k2, n1, n2, weight, bound);
    lemma_exact_order(whole, fzero());
    lemma_exact_order(s.count, fzero());
    lemma_exact_order(t.count, fzero());
    assert(pooled(s, t).count == whole);
    assert(pooled(s, t).m2 == fadd(fadd(s.m2, t.m2), between));
}

/// The sums of squared deviations.
proof fn lemma_pooled_sums(
    s: Double,
    t: Double,
    between: Double,
    n1: real,
    n2: real,
    bound: real,
)
    requires
        workable(bound),
        least() <= n1,
        least() <= n2,
        n1 + n2 <= most(),
        s.finite(),
        t.finite(),
        between.finite(),
        size(exact(s)) <= (2 as real) * (n1 * (bound * bound)),
        size(exact(t)) <= (2 as real) * (n2 * (bound * bound)),
        size(exact(between)) <= (53 as real) * ((n1 + n2) * (bound * bound)),
    ensures
        ({
            let all = fadd(fadd(s, t), between);
            &&& all.finite()
            &&& size(exact(all) - (exact(s) + exact(t) + exact(between))) <= (58 as real) * (ulp()
                * ((n1 + n2) * (bound * bound)))
        }),
{
    lemma_small_errors();
    lemma_least();
    let one = 1 as real;
    let million = 1_000_000 as real;
    let e = ulp();
    let b2 = bound * bound;
    let n = n1 + n2;
    let nb = n * b2;
    lemma_scales(n, bound);
    lemma_distribute(b2, n1, n2);
    let x = exact(s);
    let y = exact(t);
    lemma_sum_error(s, t);
    let inner = fadd(s, t);
    lemma_error_scaled(exact(inner) - (x + y), x + y, (2 as real) * nb, e, 0 as real);
    lemma_constant_inside(e, 2 as real, nb);
    lemma_scale_order(e, one / million, nb);
    let z = exact(between);
    lemma_sum_error(inner, between);
    let all = fadd(inner, between);
    lemma_error_scaled(
        exact(all) - (exact(inner) + z),
        exact(inner) + z,
        (56 as real) * nb,
        e,
        0 as real,
    );
    lemma_constant_inside(e, 56 as real, nb);
}

/// The moments of no observation.
pub open spec fn no_moments() -> Moments {
    Moments { count: 0 as real, sum: 0 as real, squares: 0 as real }
}

/// The moments of one observation.
pub open spec fn moments_at(x: Double) -> Moments {
    Moments { count: 1 as real, sum: exact(x), squares: exact(x) * exact(x) }
}

/// The moments of the first `n` observations of a list.
pub open spec fn moments_of(xs: Seq<Double>, n: int) -> Moments
    decreases n,
{
    if n <= 0 {
        no_moments()
    } else {
        together(moments_of(xs, n - 1), moments_at(xs[n - 1]))
    }
}

/// The summary of the first `n` observations of a list, pushed one after another.
pub open spec fn pushed_all(xs: Seq<Double>, n: int) -> MeanVar
    decreases n,
{
    if n <= 0 {
        empty_summary()
    } else {
        pushed(pushed_all(xs, n - 1), xs[n - 1])
    }
}

/// Finite observations of size at most `bound`.
pub open spec fn observed_within(xs: Seq<Double>, bound: real) -> bool {
    forall|i: int| 0 <= i < xs.len() ==> (#[trigger] xs[i]).finite() && size(exact(xs[i])) <= bound
}

/// More poolings have no smaller an error.
pub proof fn lemma_errors_grow(k: int, more: int, n: real, bound: real)
    requires
        0 <= k <= more,
        (0 as real) <= n,
        (1 as real) <= bound,
    ensures
        (0 as real) <= mean_error(k, bound) <= mean_error(more, bound),
        (0 as real) <= scatter_error(k, n, bound) <= scatter_error(more, n, bound),
{
    lemma_small_errors();
    let e = ulp();
    let b2 = bound * bound;
    lemma_positive_product(e, bound);
    lemma_positive_square(bound);
    lemma_positive_product(e, b2);
    let y = (72 as real) * (e * bound);
    let z = (4096 as real) * (e * b2);
    lemma_positive_product(k as real, y);
    lemma_scale_order(k as real, more as real, y);
    lemma_scale_order(k as real, more as real, n);
    lemma_positive_product(k as real, n);
    lemma_positive_product((k as real) * n, z);
    lemma_scale_order((k as real) * n, (more as real) * n, z);
}

/// What few poolings bring near, more do.
pub proof fn lemma_stands_for_more(s: MeanVar, q: Moments, k: int, more: int, bound: real)
    requires
        stands_for(s, q, k, bound),
        0 <= k <= more,
        (1 as real) <= bound,
    ensures
        stands_for(s, q, more, bound),
{
    lemma_least();
    lemma_errors_grow(k, more, q.count, bound);
    lemma_close_more(exact(s.count), q.count, (2 * k) as real, (2 * more) as real);
}

/// One observation stands for itself.
proof fn lemma_single_stands_for(x: Double, bound: real)
    requires
        x.finite(),
        size(exact(x)) <= bound,
        (1 as real) <= bound,
    ensures
        stands_for(single(x), moments_at(x), 1, bound),
{
    let v = exact(x);
    let q = moments_at(x);
    lemma_exact_order(fzero(), fone());
    crate::exact::lemma_one();
    crate::double::lemma_small_counts();
    lemma_least();
    lemma_small_errors();
    let zero = 0 as real;
    assert(close(1 as real, 1 as real, 2 as real)) by {
        lemma_positive_product(2 as real, ulp());
    }
    lemma_quotient_back(q.sum, 1 as real);
    lemma_quotient_back(q.sum * q.sum, 1 as real);
    assert(average(q) == v);
    assert(scatter(q) == (0 as real));
    lemma_product_bound(v, v, bound, bound);
    lemma_errors_grow(1, 1, 1 as real, bound);
}

/// A number added to nought, of either sign, is not lost.
pub proof fn lemma_nought_added(z: Double, x: Double)
    requires
        z.vanishes(),
        x.finite(),
        size(exact(x)) <= limit(),
    ensures
        fadd(z, x).finite(),
        fadd(x, z).finite(),
        exact(x) > (0 as real) ==> !fle(fadd(z, x), fzero()) && !fle(fadd(x, z), fzero()),
        exact(x) == (0 as real) ==> fle(fadd(z, x), fzero()),
{
    lemma_small_errors();
    lemma_exact_order(z, z);
    lemma_sum_error(z, x);
    lemma_sum_error(x, z);
    lemma_scale_order(ulp(), (1 as real) / (1_000_000 as real), size(exact(x)));
    lemma_exact_order(fadd(z, x), fzero());
    lemma_exact_order(fadd(x, z), fzero());
}

/// Noughts, of either sign, add up to nought.
pub proof fn lemma_noughts(x: Double, y: Double)
    requires
        x.vanishes(),
        y.vanishes(),
    ensures
        fle(fadd(x, y), fzero()),
{
    lemma_exact_order(x, y);
    lemma_exact_order(y, x);
    lemma_small_errors();
    lemma_nought_added(x, y);
}

/// A list that is pushed stands for its observations.
pub proof fn lemma_pushed_stands_for(xs: Seq<Double>, n: int, bound: real)
    requires
        workable(bound),
        observed_within(xs, bound),
        1 <= n <= xs.len(),
        few(n),
    ensures
        stands_for(pushed_all(xs, n), moments_of(xs, n), n, bound),
        moments_of(xs, n).count == n as real,
        pushed_all(xs, n).count == fcount(n),
    decreases n,
{
    lemma_least();
    crate::double::lemma_small_counts();
    let x = xs[n - 1];
    lemma_single_stands_for(x, bound);
    if n == 1 {
        lemma_exact_order(fzero(), fone());
        crate::exact::lemma_one();
        lemma_scales(1 as real, bound);
        lemma_nought_added(fzero(), fone());
        reveal_with_fuel(pushed_all, 2);
        reveal_with_fuel(moments_of, 2);
        assert(moments_of(xs, 1) == moments_at(x));
    } else {
        lemma_pushed_stands_for(xs, n - 1, bound);
        lemma_counts_add(n - 1, 1);
        lemma_exact_count(n);
        lemma_exact_order(fcount(n), fzero());
        lemma_exact_count(n - 1);
        lemma_exact_order(fcount(n - 1), fzero());
        lemma_exact_order(fone(), fzero());
        crate::exact::lemma_one();
        lemma_pooled_stands_for(
            pushed_all(xs, n - 1),
            single(x),
            moments_of(xs, n - 1),
            moments_at(x),
            n - 1,
            1,
            bound,
        );
    }
}

proof fn lemma_moments_joined(xs: Seq<Double>, ys: Seq<Double>, n: int)
    requires
        0 <= n <= ys.len(),
    ensures
        moments_of(xs + ys, xs.len() + n) == together(
            moments_of(xs, xs.len() as int),
            moments_of(ys, n),
        ),
    decreases n,
{
    if n == 0 {
        lemma_moments_prefix(xs, ys, xs.len() as int);
        let q = moments_of(xs, xs.len() as int);
        assert(together(q, no_moments()) == q);
    } else {
        lemma_moments_joined(xs, ys, n - 1);
        assert((xs + ys)[xs.len() + n - 1] == ys[n - 1]);
    }
}

proof fn lemma_moments_prefix(xs: Seq<Double>, ys: Seq<Double>, n: int)
    requires
        0 <= n <= xs.len(),
    ensures
        moments_of(xs + ys, n) == moments_of(xs, n),
    decreases n,
{
    if n > 0 {
        lemma_moments_prefix(xs, ys, n - 1);
        assert((xs + ys)[n - 1] == xs[n - 1]);
    }
}

/// How far a variance lies from that of the observations.
pub proof fn lemma_spread_near(s: MeanVar, q: Moments, k: int, bound: real)
    requires
        workable(bound),
        few(k),
        stands_for(s, q, k, bound),
    ensures
        s.spread().finite(),
        size(exact(s.spread()) - scatter(q) / q.count) <= spread_error(k, bound),
{
    lemma_small_errors();
    lemma_least();
    let n = q.count;
    lemma_scales(n, bound);
    let one = 1 as real;
    let two = 2 as real;
    let e = ulp();
    let w = tiny();
    let b2 = bound * bound;
    let z = e * b2;
    let c = exact(s.count);
    let kr = k as real;
    lemma_close_half(c, n, (2 * k) as real);
    let part = exact(s.m2) / c;
    let v = scatter(q) / n;
    lemma_variance_bounded(q, bound);
    lemma_variance_apart(c, n, exact(s.m2), scatter(q), k, bound);
    let far = kr * ((8196 as real) * z);
    // The error is small next to the square of the bound.
    lemma_constant_inside(kr, 8196 as real, z);
    lemma_scale_order((4096 as real) * kr, most(), z);
    lemma_associate(4096 as real, kr, z);
    lemma_associate(most(), e, b2);
    lemma_commute(most(), e);
    assert(e * most() == one);
    assert(far <= (3 as real) * b2);
    assert(size(part) <= (4 as real) * b2);
    lemma_exact_order(s.count, fzero());
    lemma_quotient_error(s.m2, s.count);
    let f = fdiv(s.m2, s.count);
    lemma_error_scaled(exact(f) - part, part, (4 as real) * b2, e, w);
    lemma_constant_inside(e, 4 as real, b2);
    lemma_scale_order(one, kr, z);
    lemma_constant_inside(kr, 8208 as real, z);
    lemma_exact_order(f, fzero());
}

/// The variance of observations is not negative, and at most the square of their bound.
proof fn lemma_variance_bounded(q: Moments, bound: real)
    requires
        within(q, bound),
    ensures
        (0 as real) <= scatter(q) / q.count <= bound * bound,
        (0 as real) <= scatter(q) <= q.count * (bound * bound),
{
    lemma_least();
    let n = q.count;
    let b2 = bound * bound;
    let v = scatter(q) / n;
    let zero = 0 as real;
    lemma_quotient_back(scatter(q), n);
    lemma_quotient_back(q.sum, n);
    lemma_square_share(average(q), q.sum, n);
    lemma_associate(average(q), average(q), n);
    lemma_positive_square(average(q));
    lemma_positive_product(average(q) * average(q), n);
    lemma_commute(n, b2);
    lemma_cancel_order(v, b2, n);
    assert(zero * n == zero);
    lemma_cancel_order(zero, v, n);
}

/// How far the quotient of what is near lies from the variance.
proof fn lemma_variance_apart(c: real, n: real, m: real, top: real, k: int, bound: real)
    requires
        few(k),
        (1 as real) <= bound,
        (0 as real) < n,
        n <= (2 as real) * c,
        close(c, n, (2 * k) as real),
        size(m - top) <= scatter_error(k, n, bound),
        (0 as real) <= top / n <= bound * bound,
    ensures
        size(m / c - top / n) <= (k as real) * ((8196 as real) * (ulp() * (bound * bound))),
{
    lemma_small_errors();
    let e = ulp();
    let b2 = bound * bound;
    let z = e * b2;
    let kr = k as real;
    let two = 2 as real;
    let zero = 0 as real;
    let part = m / c;
    let v = top / n;
    let d = part - v;
    lemma_positive_square(bound);
    lemma_positive_product(e, b2);
    lemma_quotient_back(m, c);
    lemma_quotient_back(top, n);
    lemma_distribute(c, part, v);
    lemma_distribute(v, n, c);
    assert(d * c == (m - top) + v * (n - c));
    // The count's own error.
    let ku = (2 * k) as real * e;
    lemma_product_bound(v, n - c, b2, ku * n);
    lemma_associate(b2, ku, n);
    lemma_commute(b2, ku);
    lemma_associate((2 * k) as real, e, b2);
    assert((2 * k) as real == two * kr);
    lemma_associate(two, kr, z);
    let kz = kr * z;
    assert(ku * b2 == two * kz);
    assert(size(v * (n - c)) <= two * kz * n);
    // In all, so much for the count.
    let kn = kr * n;
    lemma_constant_inside(kn, 4096 as real, z);
    lemma_associate(kr, n, z);
    lemma_commute(n, z);
    lemma_associate(kr, z, n);
    assert(scatter_error(k, n, bound) == (4096 as real) * (kz * n));
    lemma_associate(two, kz, n);
    assert(size(d * c) <= (4098 as real) * (kz * n));
    lemma_positive_product(kr, z);
    lemma_scale_order(n, two * c, kz);
    lemma_constant_inside(kz, 2 as real, c);
    lemma_associate(8196 as real, kz, c);
    let far = (8196 as real) * kz;
    assert(size(d * c) <= far * c);
    lemma_distribute(c, zero, far);
    assert(zero * c == zero);
    lemma_cancel_order(d, far, c);
    lemma_cancel_order(-far, d, c);
    lemma_constant_inside(kr, 8196 as real, z);
}

/// Merging two lists that were pushed is pushing them one after the other. An empty one
/// changes nothing. Otherwise the count is exactly that of both, and mean and variance are
/// the arithmetic mean and the population variance of all observations, as near as one
/// rounding for each observation allows, whichever way they came about.
pub proof fn lemma_merging_is_pushing(xs: Seq<Double>, ys: Seq<Double>, bound: real)
    requires
        workable(bound),
        observed_within(xs, bound),
        observed_within(ys, bound),
        4096 * (xs.len() + ys.len()) <= 0x20_0000_0000_0000,
    ensures
        ({
            let a = pushed_all(xs, xs.len() as int);
            let b = pushed_all(ys, ys.len() as int);
            let n = (xs.len() + ys.len()) as int;
            let merged = pooled(a, b);
            let all = pushed_all(xs + ys, n);
            let q = moments_of(xs + ys, n);
            let near = spread_error(n, bound);
            &&& xs.len() == 0 || ys.len() == 0 ==> merged == all
            &&& n == 0 ==> merged == empty_summary()
            &&& n > 0 ==> {
                &&& merged.count == fcount(n)
                &&& all.count == fcount(n)
                &&& size(exact(merged.mean) - average(q)) <= mean_error(n, bound)
                &&& size(exact(all.mean) - average(q)) <= mean_error(n, bound)
                &&& size(exact(merged.spread()) - scatter(q) / (n as real)) <= near
                &&& size(exact(all.spread()) - scatter(q) / (n as real)) <= near
            }
        }),
{
    let a = pushed_all(xs, xs.len() as int);
    let b = pushed_all(ys, ys.len() as int);
    let n = (xs.len() + ys.len()) as int;
    let merged = pooled(a, b);
    let all = pushed_all(xs + ys, n);
    let q = moments_of(xs + ys, n);
    let joined = xs + ys;
    assert(observed_within(joined, bound)) by {
        assert forall|i: int| 0 <= i < joined.len() implies (#[trigger] joined[i]).finite() && size(
            exact(joined[i]),
        ) <= bound by {
            if i < xs.len() {
                assert(joined[i] == xs[i]);
            } else {
                assert(joined[i] == ys[i - xs.len()]);
            }
        }
    }
    if xs.len() == 0 {
        assert(joined =~= ys);
    }
    if ys.len() == 0 {
        assert(joined =~= xs);
    }
    lemma_exact_order(fzero(), fzero());
    lemma_small_errors();
    lemma_least();
    lemma_scales(1 as real, bound);
    if n == 0 {
        lemma_nought_added(fzero(), fzero());
    } else {
        lemma_pushed_stands_for(joined, n, bound);
        lemma_spread_near(all, q, n, bound);
        if xs.len() == 0 {
            lemma_exact_count(n);
            lemma_nought_added(fzero(), b.count);
            assert(merged == all);
        } else if ys.len() == 0 {
            lemma_exact_count(n);
            lemma_exact_order(a.count, fzero());
            lemma_nought_added(fzero(), a.count);
            assert(merged == all);
        } else {
            let k1 = xs.len() as int;
            let k2 = ys.len() as int;
            lemma_pushed_stands_for(xs, k1, bound);
            lemma_pushed_stands_for(ys, k2, bound);
            lemma_moments_joined(xs, ys, k2);
            lemma_counts_add(k1, k2);
            lemma_exact_count(k1);
            lemma_exact_count(k2);
            lemma_exact_count(n);
            lemma_exact_order(fcount(k1), fzero());
            lemma_exact_order(fcount(k2), fzero());
            lemma_exact_order(fcount(n), fzero());
            lemma_pooled_stands_for(
                a,
                b,
                moments_of(xs, k1),
                moments_of(ys, k2),
                k1,
                k2,
                bound,
            );
            lemma_spread_near(merged, q, n, bound);
        }
    }
}

} // verus!
