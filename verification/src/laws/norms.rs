//! What a channel's weight says: how far its read lies above or below its own norm, on both
//! sides of it.
use crate::closeness::{close, lemma_close_half, lemma_close_unscaled};
use crate::config::DiscriminationConfig;
use crate::double::{
    fabs, fadd, fcount, fdiv, fle, flt, fmin, fmul, fneg, fone, fsub, fzero, Double,
};
use crate::exact::{lemma_one, lemma_vanishing_quotient};
use crate::halves::{halves, lemma_halves};
use crate::ingest::input::Items;
use crate::laws::affine::{
    addition_error, comfortable, countable, exact_between, held_within, lemma_mean_near,
};
use crate::laws::distances::{
    lemma_gap_near, lemma_ratio_apart, lemma_root_middling, lemma_signless, middling,
};
use crate::laws::ranking::lemma_order_sorts;
use crate::laws::shrinking::held_between;
use crate::laws::solving::sum_of;
use crate::numeric::{ascending, order_of, total_keys};
use crate::precision::{
    exact, lemma_difference_error, lemma_exact_count, lemma_exact_order, lemma_least,
    lemma_product_error, lemma_quotient_error, lemma_small_errors, lemma_sum_error, limit, size,
    tiny, ulp,
};
use crate::reals::{
    lemma_associate, lemma_cancel_order, lemma_commute, lemma_distribute, lemma_positive_product,
    lemma_positive_square, lemma_product_bound, lemma_quotient_back, lemma_scale_order,
};
use crate::sorting::sorts_before;
use crate::summary::MeanVar;
use crate::weighting::discrimination::{
    discriminated, discrimination, held, items_reading, neutral_factor, pool_scores, shrunk,
    squash_argument, squashed, top_mean, weight_of, ChannelDiscrimination,
};
use vstd::prelude::*;

verus! {

/// A baseline that a read can be measured by: something counts behind it, and its variance and
/// the read's distance from its mean are clear of the smallest numbers and of overflow.
pub open spec fn gauges(baseline: MeanVar, x: Double) -> bool {
    let gap = size(exact(x) - exact(baseline.mean));
    &&& x.finite()
    &&& baseline.mean.finite()
    &&& flt(fzero(), baseline.count)
    &&& baseline.spread().finite()
    &&& middling((2 as real) * exact(baseline.spread()))
    &&& gap == (0 as real) || middling(gap)
}

/// How many deviations a read lies from the mean of a baseline, above it or below: the square
/// times the variance is the square of the distance, and the sign is that of the distance.
pub open spec fn deviates(baseline: MeanVar, x: Double, z: Double) -> bool {
    let gap = exact(x) - exact(baseline.mean);
    &&& z.finite()
    &&& gap > (0 as real) ==> exact(z) > (0 as real)
    &&& gap < (0 as real) ==> exact(z) < (0 as real)
    &&& gap == (0 as real) ==> exact(z) == (0 as real)
    &&& close(exact(z) * exact(z) * exact(baseline.spread()), gap * gap, 35 as real)
}

/// A quotient of a number is that of its size, with the sign.
proof fn lemma_signed_quotient(x: Double, y: Double)
    requires
        x.finite(),
        y.finite(),
        !y.negative(),
        !y.vanishes(),
        fdiv(fabs(x), y).finite(),
    ensures
        fdiv(x, y).finite(),
        exact(fdiv(x, y)) == if exact(x) < (0 as real) {
            -exact(fdiv(fabs(x), y))
        } else {
            exact(fdiv(fabs(x), y))
        },
{
    lemma_one();
    lemma_exact_order(x, fzero());
    lemma_exact_order(fzero(), x);
    crate::precision::lemma_exact_multiple(x);
    let p = fdiv(x, y);
    let q = fdiv(fabs(x), y);
    reveal(fdiv);
    crate::exact::lemma_magnitude_sign(x.unsigned());
    crate::exact::lemma_magnitude_sign(y.unsigned());
    crate::double::lemma_round_range(
        crate::rounding::magnitude(x.unsigned()) * crate::double::unit(),
        crate::rounding::magnitude(y.unsigned()),
    );
    crate::precision::lemma_exact_multiple(p);
    crate::precision::lemma_exact_multiple(q);
    if x.vanishes() {
        lemma_vanishing_quotient(x, y);
        lemma_vanishing_quotient(fabs(x), y);
        lemma_exact_order(p, p);
        lemma_exact_order(q, q);
    }
}

/// A read that a baseline gauges is standardized, and lies so many deviations from its mean, on
/// either side of it.
pub proof fn lemma_standardized_deviates(baseline: MeanVar, x: Double)
    requires
        gauges(baseline, x),
    ensures
        baseline.standardizes(x),
        deviates(baseline, x, baseline.standardized(x)),
{
    lemma_small_errors();
    lemma_least();
    lemma_one();
    let v = exact(baseline.spread());
    let two = 2 as real;
    let zero = 0 as real;
    let gap = exact(x) - exact(baseline.mean);
    let g = size(gap);
    let root = baseline.deviation();
    assert(close(two * v, two * v, 4 as real)) by {
        lemma_positive_product(4 as real, ulp());
        lemma_positive_product((4 as real) * ulp(), two * v);
    }
    lemma_root_middling(baseline.spread(), two * v);
    lemma_exact_order(root, fzero());
    lemma_exact_order(fzero(), root);
    crate::laws::affine::lemma_unsigned(root);
    lemma_exact_order(root, root);
    let d = fsub(x, baseline.mean);
    let m = fabs(d);
    lemma_gap_near(x, baseline.mean);
    lemma_ratio_apart(m, root, g, two * v);
    let q = fdiv(m, root);
    let y = exact(q);
    assert(d.finite()) by {
        lemma_finite_size(d);
    }
    lemma_signless(d);
    lemma_signed_quotient(d, root);
    let z = exact(baseline.standardized(x));
    assert(z * z == y * y) by {
        if z == -y {
            lemma_distribute(y, zero, y);
            lemma_distribute(-y, zero, y);
            assert((-y) * (-y) == y * y);
        }
    }
    // The statement without the factor of two.
    lemma_associate(y * y, two, v);
    lemma_commute(y * y, two);
    lemma_associate(two, y * y, v);
    lemma_commute(two, y * y * v);
    lemma_commute(two, g * g);
    lemma_close_unscaled(y * y * v, g * g, 35 as real, two);
    assert(g * g == gap * gap) by {
        lemma_distribute(gap, zero, gap);
        lemma_distribute(-gap, zero, gap);
        assert((-gap) * (-gap) == gap * gap);
    }
    // The sign.
    lemma_difference_sign(x, baseline.mean);
    lemma_nonnegative_quotient(m, root);
    if gap != zero {
        lemma_positive_product(g, g);
        lemma_close_half(y * y * v, gap * gap, 35 as real);
        if y == zero {
            assert(zero * zero == zero);
            assert(zero * v == zero);
        }
        assert(y > zero);
    } else {
        lemma_vanishing_quotient(m, root);
        lemma_exact_order(q, q);
        assert(y == zero);
    }
    assert(close(z * z * v, gap * gap, 35 as real));
}

proof fn lemma_finite_size(d: Double)
    requires
        fabs(d).finite(),
    ensures
        d.finite(),
{
}

/// A rounded difference has the sign of the exact one.
proof fn lemma_difference_sign(x: Double, y: Double)
    requires
        x.finite(),
        y.finite(),
        fsub(x, y).finite(),
    ensures
        exact(x) < exact(y) ==> exact(fsub(x, y)) < (0 as real),
        exact(x) > exact(y) ==> exact(fsub(x, y)) > (0 as real),
        exact(x) == exact(y) ==> exact(fsub(x, y)) == (0 as real),
{
    lemma_small_errors();
    lemma_difference_error(x, y);
    let gap = exact(x) - exact(y);
    lemma_scale_order(ulp(), (1 as real) / (2 as real), size(gap));
    assert(ulp() * (0 as real) == (0 as real));
}

/// A quotient of numbers that are not negative is not.
proof fn lemma_nonnegative_quotient(x: Double, y: Double)
    requires
        x.finite(),
        y.finite(),
        fdiv(x, y).finite(),
        exact(x) >= (0 as real),
        exact(y) > (0 as real),
    ensures
        exact(fdiv(x, y)) >= (0 as real),
{
    lemma_small_errors();
    lemma_exact_order(y, y);
    let q = exact(x) / exact(y);
    lemma_quotient_back(exact(x), exact(y));
    assert((0 as real) * exact(y) == (0 as real));
    lemma_cancel_order(0 as real, q, exact(y));
    crate::laws::sums::lemma_results_plain(x, y);
}

/// A pool's separation read, measured by its norm: so many deviations from the mean of a
/// baseline with enough observations that gauges it, and none where there is no read or too
/// few observations.
pub open spec fn separation_measured(
    raw: Option<Double>,
    baseline: MeanVar,
    cfg: DiscriminationConfig,
    z: Double,
) -> bool {
    &&& raw is Some && fle(cfg.min_count_for_z, baseline.count) && gauges(baseline, raw->0)
        ==> deviates(baseline, raw->0, z)
    &&& raw is None || !fle(cfg.min_count_for_z, baseline.count) ==> z.finite() && exact(z) == (
    0 as real)
}

/// The smaller of two reals.
pub open spec fn smaller(x: real, y: real) -> real {
    if x < y {
        x
    } else {
        y
    }
}

/// The logistic function, given the exponential of the negated argument.
pub open spec fn logistic(e: Double) -> real {
    if e.infinite() {
        0 as real
    } else {
        (1 as real) / ((1 as real) + exact(e))
    }
}

/// A factor that leans from one half toward `sigma`, by the evidence behind it.
pub open spec fn leaning(lambda: real, sigma: real) -> real {
    (1 as real) / (2 as real) + lambda * (sigma - (1 as real) / (2 as real))
}

/// An exponential as it comes back: infinite, or neither negative nor near overflow.
pub open spec fn exponential_like(e: Double) -> bool {
    (e.infinite() && !e.negative()) || (e.finite() && (0 as real) <= exact(e) <= limit())
}

/// The pool of a read as a share of a full one.
pub open spec fn pool_trust(n: int, cfg: DiscriminationConfig) -> real {
    smaller((n as real) / (cfg.shrink_pool_size as real), 1 as real)
}

/// The count of a reference as a share of one that is fully trusted.
pub open spec fn reference_trust(reference: MeanVar, cfg: DiscriminationConfig) -> real {
    smaller(exact(reference.count) / exact(cfg.min_count_for_z), 1 as real)
}

/// A quotient of two counts, held to one.
proof fn lemma_share_near(x: Double, y: Double)
    requires
        x.finite(),
        y.finite(),
        exact(x) >= (0 as real),
        exact(y) > (0 as real),
    ensures
        ({
            let s = fmin(fdiv(x, y), fone());
            &&& s.finite()
            &&& (0 as real) <= exact(s) <= (1 as real)
            &&& size(exact(s) - smaller(exact(x) / exact(y), 1 as real)) <= (3 as real) * ulp()
        }),
{
    lemma_small_errors();
    lemma_one();
    lemma_exact_order(fone(), fone());
    let one = 1 as real;
    let zero = 0 as real;
    let q = exact(x) / exact(y);
    let f = fdiv(x, y);
    lemma_exact_order(y, y);
    lemma_quotient_back(exact(x), exact(y));
    assert(zero * exact(y) == zero);
    lemma_cancel_order(zero, q, exact(y));
    crate::laws::ranking::lemma_quotient_known(x, y);
    if q <= limit() {
        lemma_quotient_error(x, y);
    }
    if f.finite() {
        lemma_quotient_error(x, y);
        lemma_nonnegative_quotient(x, y);
        lemma_exact_order(fone(), f);
        lemma_scale_order(ulp(), one / (1_000_000 as real), q);
        if q <= (2 as real) {
            lemma_scale_order(q, 2 as real, ulp());
        }
    } else {
        assert(f.infinite());
        lemma_unsigned_quotient(x, y);
        lemma_one_below_infinity(f);
    }
}

/// An infinite quotient of numbers that are not negative has no sign.
proof fn lemma_unsigned_quotient(x: Double, y: Double)
    requires
        x.finite(),
        y.finite(),
        exact(x) >= (0 as real),
        exact(y) > (0 as real),
        fdiv(x, y).infinite(),
    ensures
        !fdiv(x, y).negative(),
{
    lemma_one();
    lemma_exact_order(x, fzero());
    lemma_exact_order(fzero(), x);
    lemma_exact_order(fzero(), y);
    crate::exact::lemma_magnitude_sign(x.unsigned());
    crate::laws::affine::lemma_unsigned(y);
    lemma_exact_order(x, x);
    lemma_exact_order(y, y);
    if x.vanishes() {
        lemma_vanishing_quotient(x, y);
    } else {
        crate::laws::affine::lemma_unsigned(x);
        reveal(fdiv);
        let a = crate::rounding::magnitude(x.unsigned());
        let b = crate::rounding::magnitude(y.unsigned());
        let unit = crate::double::unit();
        crate::exact::lemma_magnitude_sign(y.unsigned());
        vstd::arithmetic::power2::lemma_pow2_pos(crate::double::UNIT_EXPONENT as nat);
        assert(a * unit >= 0) by (nonlinear_arith)
            requires
                a >= 0,
                unit >= 0,
        ;
        crate::double::lemma_round_range(a * unit, b);
    }
}

/// One is below infinity.
proof fn lemma_one_below_infinity(x: Double)
    requires
        x.infinite(),
        !x.negative(),
    ensures
        flt(fone(), x),
{
    lemma_one();
}

/// The computed logistic is near the exact one.
proof fn lemma_squashed_near(e: Double)
    requires
        exponential_like(e),
    ensures
        squashed(e).finite(),
        (0 as real) <= logistic(e) <= (1 as real),
        (0 as real) <= exact(squashed(e)) <= (2 as real),
        size(exact(squashed(e)) - logistic(e)) <= (4 as real) * ulp(),
{
    lemma_small_errors();
    lemma_one();
    lemma_exact_order(fone(), fone());
    let one = 1 as real;
    let zero = 0 as real;
    let u = ulp();
    if e.infinite() {
        reveal(fadd);
        reveal(fdiv);
        let q = squashed(e);
        assert(q.vanishes());
        lemma_exact_order(q, q);
    } else {
        let d = one + exact(e);
        lemma_unlimited_sum(e);
        lemma_sum_error(fone(), e);
        let s = fadd(fone(), e);
        let y = exact(s);
        lemma_scale_order(u, one / (1_000_000 as real), d);
        lemma_exact_order(s, s);
        let t = one / d;
        let q = one / y;
        lemma_quotient_back(one, d);
        lemma_quotient_back(one, y);
        assert(zero * d == zero && zero * y == zero);
        lemma_cancel_order(zero, t, d);
        lemma_cancel_order(zero, q, y);
        lemma_scale_order(one, d, t);
        lemma_commute(t, d);
        assert(t <= one);
        // q and t differ by a rounding of q.
        let ud = u * d;
        lemma_scale_order(y, d + ud, q);
        lemma_scale_order(d - ud, y, q);
        lemma_distribute(q, d, ud);
        lemma_associate(q, u, d);
        lemma_commute(q, u);
        let uq = u * q;
        lemma_distribute(d, q, uq);
        lemma_cancel_order(t, q + uq, d);
        lemma_cancel_order(q - uq, t, d);
        lemma_scale_order(u, one / (1_000_000 as real), q);
        lemma_scale_order(q, 2 as real, u);
        assert(size(q - t) <= (2 as real) * u && q <= (2 as real));
        lemma_quotient_error(fone(), s);
        lemma_nonnegative_quotient(fone(), s);
    }
}

/// One more than an exponential does not overflow.
proof fn lemma_unlimited_sum(e: Double)
    requires
        e.finite(),
        (0 as real) <= exact(e) <= limit(),
    ensures
        fadd(fone(), e).finite(),
{
    lemma_small_errors();
    lemma_one();
    lemma_exact_order(fone(), fone());
    let one = 1 as real;
    if exact(e) + one <= limit() {
        lemma_sum_error(fone(), e);
    } else {
        // The sum is below the square of the limit's root and more, and still finite.
        crate::precision::lemma_no_overflow_near_limit(fone(), e);
    }
}

/// A product of numbers near others, all of size at most `c`.
proof fn lemma_product_apart(x: real, a: real, y: real, b: real, c: real, ea: real, eb: real)
    requires
        size(x - a) <= ea,
        size(y - b) <= eb,
        size(a) <= c,
        size(y) <= c,
    ensures
        size(x * y - a * b) <= c * ea + c * eb,
{
    lemma_product_bound(x - a, y, ea, c);
    lemma_product_bound(a, y - b, c, eb);
    lemma_distribute(y, x, a);
    lemma_distribute(a, y, b);
    lemma_commute(ea, c);
}

/// An evidence weight between zero and one is held as it is.
proof fn lemma_held_exact(lambda: Double)
    requires
        lambda.finite(),
        (0 as real) <= exact(lambda) <= (1 as real),
    ensures
        held(lambda).finite(),
        exact(held(lambda)) == exact(lambda),
{
    lemma_one();
    lemma_exact_order(fone(), fone());
    lemma_exact_order(fzero(), fzero());
    lemma_exact_order(lambda, fone());
    lemma_exact_order(fone(), lambda);
    lemma_exact_order(fmin(lambda, fone()), fzero());
    lemma_exact_order(lambda, fzero());
}

/// The part of a factor that leans.
proof fn lemma_leaning_part(w: Double, l: real, s: Double, sig: real)
    requires
        w.finite(),
        (0 as real) <= exact(w) <= (1 as real),
        (0 as real) <= l <= (1 as real),
        size(exact(w) - l) <= (9 as real) * ulp(),
        s.finite(),
        (0 as real) <= exact(s) <= (2 as real),
        (0 as real) <= sig <= (1 as real),
        size(exact(s) - sig) <= (4 as real) * ulp(),
    ensures
        fmul(w, s).finite(),
        size(exact(fmul(w, s)) - l * sig) <= (29 as real) * ulp(),
{
    lemma_small_errors();
    let one = 1 as real;
    let two = 2 as real;
    let u = ulp();
    lemma_product_apart(exact(w), l, exact(s), sig, two, (9 as real) * u, (4 as real) * u);
    lemma_product_bound(exact(w), exact(s), one, two);
    lemma_product_error(w, s);
    lemma_scale_order(size(exact(w) * exact(s)), two, u);
}

/// The part of a factor that stays neutral.
proof fn lemma_neutral_part(w: Double, l: real)
    requires
        w.finite(),
        (0 as real) <= exact(w) <= (1 as real),
        (0 as real) <= l <= (1 as real),
        size(exact(w) - l) <= (9 as real) * ulp(),
    ensures
        fmul(fsub(fone(), w), neutral_factor()).finite(),
        size(
            exact(fmul(fsub(fone(), w), neutral_factor())) - ((1 as real) - l) * ((1 as real) / (
            2 as real)),
        ) <= (8 as real) * ulp(),
{
    lemma_small_errors();
    lemma_one();
    lemma_exact_order(fone(), fone());
    let one = 1 as real;
    let two = 2 as real;
    let half = one / two;
    let u = ulp();
    lemma_difference_error(fone(), w);
    let r = fsub(fone(), w);
    lemma_scale_order(size(one - exact(w)), one, u);
    lemma_halves(1);
    let nf = neutral_factor();
    assert(nf == halves(1));
    let x = exact(r);
    assert(exact(nf) == half);
    lemma_product_bound(x, half, two, half);
    lemma_product_error(r, nf);
    lemma_scale_order(size(x * half), one, u);
    assert(x * half == x / two);
    assert((one - l) * half == (one - l) / two);
}

/// A factor is its two parts.
proof fn lemma_parts_lean(l: real, sig: real)
    requires
        (0 as real) <= l <= (1 as real),
        (0 as real) <= sig <= (1 as real),
    ensures
        l * sig + ((1 as real) - l) * ((1 as real) / (2 as real)) == leaning(l, sig),
        (0 as real) <= l * sig <= l,
        (0 as real) <= leaning(l, sig) <= (1 as real),
{
    let one = 1 as real;
    let half = one / (2 as real);
    lemma_distribute(l, sig, half);
    lemma_distribute(half, one, l);
    lemma_positive_product(l, sig);
    lemma_scale_order(sig, one, l);
    lemma_scale_order(0 as real, one - l, half);
}

/// The computed factor is near the exact one.
proof fn lemma_shrunk_near(lambda: Double, l: real, e: Double)
    requires
        lambda.finite(),
        (0 as real) <= exact(lambda) <= (1 as real),
        (0 as real) <= l <= (1 as real),
        size(exact(lambda) - l) <= (9 as real) * ulp(),
        exponential_like(e),
    ensures
        shrunk(lambda, e).finite(),
        (0 as real) <= leaning(l, logistic(e)) <= (1 as real),
        size(exact(shrunk(lambda, e)) - leaning(l, logistic(e))) <= (64 as real) * ulp(),
        size(exact(shrunk(lambda, e))) <= (2 as real),
{
    lemma_small_errors();
    let u = ulp();
    let w = held(lambda);
    lemma_held_exact(lambda);
    lemma_squashed_near(e);
    let s = squashed(e);
    let sig = logistic(e);
    lemma_leaning_part(w, l, s, sig);
    lemma_neutral_part(w, l);
    let p = fmul(w, s);
    let q = fmul(fsub(fone(), w), neutral_factor());
    lemma_parts_lean(l, sig);
    let t = exact(p) + exact(q);
    assert(size(t) <= (3 as real));
    lemma_sum_error(p, q);
    lemma_scale_order(size(t), 3 as real, u);
}

/// The weight as it is computed is near the exact one.
proof fn lemma_weight_near(f: Double, a: real, h: Double, b: real, cfg: DiscriminationConfig)
    requires
        f.finite(),
        h.finite(),
        (0 as real) <= a <= (1 as real),
        (0 as real) <= b <= (1 as real),
        size(exact(f) - a) <= (64 as real) * ulp(),
        size(exact(h) - b) <= (64 as real) * ulp(),
        bounds_in_order(cfg),
    ensures
        weight_of(f, h, cfg).finite(),
        size(
            exact(weight_of(f, h, cfg)) - held_between(
                (4 as real) * (a * b),
                exact(cfg.g_floor),
                exact(cfg.g_upper_bound),
            ),
        ) <= (1024 as real) * ulp(),
{
    lemma_small_errors();
    let one = 1 as real;
    let two = 2 as real;
    let four = 4 as real;
    let u = ulp();
    lemma_exact_count(4);
    assert(size(exact(f)) <= two && size(exact(h)) <= two);
    lemma_product_error(fcount(4), f);
    let p = fmul(fcount(4), f);
    assert(four * exact(f) == exact(fcount(4)) * exact(f));
    lemma_scale_order(size(four * exact(f)), 8 as real, u);
    assert(size(exact(p) - four * a) <= (272 as real) * u);
    lemma_product_bound(exact(p), exact(h), (5 as real), two);
    lemma_product_error(p, h);
    let g = fmul(p, h);
    lemma_scale_order(size(exact(p) * exact(h)), 10 as real, u);
    lemma_associate(four, a, b);
    let t = four * (a * b);
    lemma_weight_sharper(exact(p), a, exact(h), b, exact(g));
    lemma_exact_order(g, cfg.g_upper_bound);
    lemma_exact_order(cfg.g_upper_bound, g);
    let low = fmin(g, cfg.g_upper_bound);
    lemma_exact_order(low, cfg.g_floor);
}

/// The error of the product, with the sizes that the factors have.
proof fn lemma_weight_sharper(p: real, a: real, h: real, b: real, g: real)
    requires
        (0 as real) <= a <= (1 as real),
        (0 as real) <= b <= (1 as real),
        size(p - (4 as real) * a) <= (272 as real) * ulp(),
        size(h - b) <= (64 as real) * ulp(),
        size(g - p * h) <= ulp() * size(p * h) + tiny(),
    ensures
        size(g - (4 as real) * (a * b)) <= (1024 as real) * ulp(),
{
    lemma_small_errors();
    let one = 1 as real;
    let u = ulp();
    let four = 4 as real;
    let x = p - four * a;
    let y = h - b;
    let more = one + one / (1000 as real);
    assert(size(h) <= more);
    lemma_product_bound(x, h, (272 as real) * u, more);
    lemma_product_bound(four * a, y, four, (64 as real) * u);
    lemma_distribute(h, p, four * a);
    lemma_distribute(four * a, h, b);
    lemma_associate(four, a, b);
    lemma_associate(272 as real, u, more);
    lemma_commute(u, more);
    lemma_associate(272 as real, more, u);
    lemma_scale_order((272 as real) * more, 273 as real, u);
    assert((272 as real) * u * more <= (273 as real) * u);
    assert(four * ((64 as real) * u) == (256 as real) * u);
    assert(size(p * h - four * (a * b)) <= (529 as real) * u);
    lemma_product_bound(p, h, 5 as real, more);
    lemma_scale_order(size(p * h), 10 as real, u);
}

/// Floor and cap of the weight are finite and in order.
pub open spec fn bounds_in_order(cfg: DiscriminationConfig) -> bool {
    &&& cfg.g_floor.finite()
    &&& cfg.g_upper_bound.finite()
    &&& exact(cfg.g_floor) <= exact(cfg.g_upper_bound)
}

/// The knobs that a weight depends on are usable.
pub open spec fn weighs_well(cfg: DiscriminationConfig) -> bool {
    &&& bounds_in_order(cfg)
    &&& 1 <= cfg.shrink_pool_size <= 0x20_0000_0000_0000
    &&& cfg.min_count_for_z.finite()
    &&& exact(cfg.min_count_for_z) > (0 as real)
    &&& cfg.g_slope.finite()
}

/// The argument of an exponential is the negated read times the slope, up to rounding.
pub open spec fn argues(x: Double, z: Double, cfg: DiscriminationConfig) -> bool {
    size(exact(cfg.g_slope) * exact(z)) <= limit() ==> x.finite() && size(
        exact(x) + exact(cfg.g_slope) * exact(z),
    ) <= ulp() * size(exact(cfg.g_slope) * exact(z)) + tiny()
}

proof fn lemma_argument_near(z: Double, cfg: DiscriminationConfig)
    requires
        z.finite(),
        cfg.g_slope.finite(),
    ensures
        argues(squash_argument(z, cfg.g_slope), z, cfg),
{
    let k = cfg.g_slope;
    crate::precision::lemma_exact_multiple(k);
    let a = exact(k);
    let b = exact(z);
    let zero = 0 as real;
    lemma_distribute(b, zero, a);
    assert(zero * b == zero);
    assert((-a) * b == -(a * b));
    if size(a * b) <= limit() {
        lemma_product_error(fneg(k), z);
    }
}

/// The places of the `k` best scores of a pool.
pub open spec fn picks_best(scores: Seq<Double>, chosen: Seq<int>, k: int) -> bool {
    &&& chosen.len() == k
    &&& chosen.no_duplicates()
    &&& forall|i: int| 0 <= i < k ==> 0 <= #[trigger] chosen[i] < scores.len()
    &&& forall|i: int, q: int|
        #![trigger chosen[i], scores[q]]
        0 <= i < k && 0 <= q < scores.len() && !chosen.contains(q) ==> exact(scores[q]) <= exact(
            scores[chosen[i]],
        )
}

/// The exact sum of the chosen scores.
pub open spec fn chosen_sum(scores: Seq<Double>, chosen: Seq<int>) -> real {
    sum_of(|i: int| exact(scores[chosen[i]]), chosen.len() as int)
}

/// A number is the mean of the `k` best scores of a pool, up to rounding.
pub open spec fn averages_best(scores: Seq<Double>, k: int, top: Double) -> bool {
    exists|chosen: Seq<int>| #[trigger]
        picks_best(scores, chosen, k) && forall|bound: real| #[trigger]
            held_within(scores, bound) && comfortable(scores.len() as int, bound) ==> top.finite()
                && size(exact(top) - chosen_sum(scores, chosen) / (k as real)) <= addition_error(
                scores.len() as int,
                bound,
            ) + (3 as real) * (ulp() * bound)
}

/// The sum of the last of a sorted pool is that of the places they come from.
proof fn lemma_chosen_sum(s: Seq<Double>, order: Seq<usize>, k: int, j: int)
    requires
        order.len() == s.len(),
        0 <= j <= k <= s.len(),
        forall|i: int| 0 <= i < order.len() ==> 0 <= #[trigger] order[i] < s.len(),
    ensures
        ({
            let n = s.len() as int;
            let sorted = Seq::new(s.len(), |i: int| s[order[i] as int]);
            let chosen = Seq::new(k as nat, |i: int| order[n - k + i] as int);
            exact_between(sorted, n - k, n - k + j) == sum_of(|i: int| exact(s[chosen[i]]), j)
        }),
    decreases j,
{
    if j > 0 {
        lemma_chosen_sum(s, order, k, j - 1);
    }
}

/// The mean of the top of a pool averages its best scores.
pub proof fn lemma_top_mean_averages_best(scores: Seq<Double>, k: int)
    requires
        countable(scores.len() as int),
        forall|i: int| 0 <= i < scores.len() ==> (#[trigger] scores[i]).finite(),
        0 < k <= scores.len(),
    ensures
        averages_best(scores, k, top_mean(ascending(scores), k)),
{
    let n = scores.len() as int;
    let keys = total_keys(scores);
    let order = order_of(keys);
    lemma_order_sorts(keys);
    let s = ascending(scores);
    let chosen = Seq::new(k as nat, |i: int| order[n - k + i] as int);
    assert forall|i: int| 0 <= i < k implies 0 <= #[trigger] chosen[i] < n by {
        assert(0 <= order[n - k + i] < n);
    }
    assert(chosen.no_duplicates()) by {
        assert forall|i: int, j: int| 0 <= i < j < k implies chosen[i] != chosen[j] by {
            assert(sorts_before(keys, order[n - k + i] as int, order[n - k + j] as int));
        }
    }
    assert forall|i: int, q: int|
        #![trigger chosen[i], scores[q]]
        0 <= i < k && 0 <= q < n && !chosen.contains(q) implies exact(scores[q]) <= exact(
        scores[chosen[i]],
    ) by {
        assert(order.contains(q as usize));
        let t = choose|t: int| 0 <= t < order.len() && order[t] == q as usize;
        if t >= n - k {
            assert(chosen[t - (n - k)] == q);
        }
        crate::laws::pools::lemma_ascends(scores, order, t, n - k + i);
    }
    assert(picks_best(scores, chosen, k));
    let top = top_mean(s, k);
    assert forall|bound: real| #[trigger]
        held_within(scores, bound) && comfortable(n, bound) implies top.finite() && size(
        exact(top) - chosen_sum(scores, chosen) / (k as real),
    ) <= addition_error(n, bound) + (3 as real) * (ulp() * bound) by {
        assert(held_within(s, bound)) by {
            assert forall|i: int| 0 <= i < s.len() implies (#[trigger] s[i]).finite() && size(
                exact(s[i]),
            ) <= bound by {
                assert(0 <= order[i] < n);
                assert(scores[order[i] as int].finite());
            }
        }
        lemma_mean_near(s, k, bound);
        lemma_chosen_sum(scores, order, k, k);
        assert(s =~= Seq::new(scores.len(), |i: int| scores[order[i] as int]));
    }
}

/// How many of a pool's best scores its goodness is read from.
pub open spec fn best_count(n: int, cfg: DiscriminationConfig) -> int {
    if cfg.top_m <= 1 {
        1
    } else if cfg.top_m <= n {
        cfg.top_m as int
    } else {
        n
    }
}

/// What a discrimination is made of.
pub open spec fn weighed_by<E: Fn(Double) -> Double>(
    d: ChannelDiscrimination,
    scores: Seq<Double>,
    separation: MeanVar,
    reference: MeanVar,
    cfg: DiscriminationConfig,
    exp: E,
    z: Double,
    x: Double,
    s: Double,
    top: Double,
    w: Double,
    y: Double,
    t: Double,
) -> bool {
    let n = scores.len() as int;
    let half = (1 as real) / (2 as real);
    let first = leaning(pool_trust(n, cfg), logistic(s));
    let second = if d.reference_cold {
        half
    } else {
        leaning(pool_trust(n, cfg) * reference_trust(reference, cfg), logistic(t))
    };
    // The separation, in deviations from the channel's own norm.
    &&& separation_measured(d.raw_separation, separation, cfg, z)
    &&& argues(x, z, cfg)
    &&& call_ensures(exp, (x,), s)
    // The goodness, in deviations from the reference.
    &&& averages_best(scores, best_count(n, cfg), top)
    &&& d.top_m_average == if n >= cfg.top_m && top.finite() {
        Some(top)
    } else {
        None
    }
    &&& gauges(reference, top) ==> !d.reference_cold && deviates(reference, top, w)
    &&& !flt(fzero(), reference.count) ==> d.reference_cold
    &&& !d.reference_cold ==> argues(y, w, cfg) && call_ensures(exp, (y,), t)
    // The weight: four times both factors, within its bounds.
    &&& d.g.finite()
    &&& size(
        exact(d.g) - held_between(
            (4 as real) * (first * second),
            exact(cfg.g_floor),
            exact(cfg.g_upper_bound),
        ),
    ) <= (1024 as real) * ulp()
}

/// An exponential function that returns what exponentials can be.
pub open spec fn exponentiates<E: Fn(Double) -> Double>(exp: E) -> bool {
    forall|x: Double, y: Double| #[trigger] call_ensures(exp, (x,), y) ==> exponential_like(y)
}

/// What the weight of a scored channel is: twice the logistic of how many deviations its
/// separation lies from the mean of its own baseline, above it or below, times twice that of
/// how many its best scores lie from its reference; each factor leans to neutral by how small
/// the pool is, the second also by how little backs the reference; a baseline with too few
/// observations and a missing reference are neutral; and the product is held to its bounds.
pub proof fn lemma_weight_measures_both_norms<Id, E: Fn(Double) -> Double>(
    items: Items<Id>,
    separation: MeanVar,
    reference: MeanVar,
    cfg: DiscriminationConfig,
    exp: E,
    d: ChannelDiscrimination,
)
    requires
        items is Scored,
        countable(items->Scored_0@.len() as int),
        forall|i: int|
            0 <= i < items->Scored_0@.len() ==> (#[trigger] items->Scored_0@[i]).1.finite(),
        weighs_well(cfg),
        exponentiates(exp),
        reference.count.finite(),
        exact(reference.count) >= (0 as real),
        discriminated(items, separation, reference, cfg, exp, d),
    ensures
        exists|
            z: Double,
            x: Double,
            s: Double,
            top: Double,
            w: Double,
            y: Double,
            t: Double,
        | #[trigger]
            weighed_by(
                d,
                pool_scores(items->Scored_0@),
                separation,
                reference,
                cfg,
                exp,
                z,
                x,
                s,
                top,
                w,
                y,
                t,
            ),
{
    lemma_small_errors();
    lemma_one();
    let scores = pool_scores(items->Scored_0@);
    let n = scores.len() as int;
    let r = items_reading(items, separation, reference, cfg);
    let (s, t) = choose|s: Double, t: Double|
        #![trigger discrimination(r, cfg, s, t)]
        {
            &&& call_ensures(exp, (squash_argument(r.separation_z, cfg.g_slope),), s)
            &&& r.goodness_z is Some ==> call_ensures(
                exp,
                (squash_argument(r.goodness_z->0, cfg.g_slope),),
                t,
            )
            &&& d == discrimination(r, cfg, s, t)
        };
    assert forall|i: int| 0 <= i < n implies (#[trigger] scores[i]).finite() by {
        assert(items->Scored_0@[i].1.finite());
    }
    let k = best_count(n, cfg);
    let top = top_mean(ascending(scores), k);
    lemma_top_mean_averages_best(scores, k);
    let z = r.separation_z;
    let x = squash_argument(z, cfg.g_slope);
    // The separation.
    lemma_exact_order(fzero(), fzero());
    if d.raw_separation is Some && fle(cfg.min_count_for_z, separation.count) && gauges(
        separation,
        d.raw_separation->0,
    ) {
        lemma_standardized_deviates(separation, d.raw_separation->0);
    }
    assert(z.finite());
    lemma_argument_near(z, cfg);
    // The goodness.
    if gauges(reference, top) {
        lemma_standardized_deviates(reference, top);
    }
    let w = if r.goodness_z is Some {
        r.goodness_z->0
    } else {
        fzero()
    };
    let y = squash_argument(w, cfg.g_slope);
    if r.goodness_z is Some {
        lemma_argument_near(w, cfg);
    }
    lemma_exact_order(reference.count, fzero());
    lemma_exact_order(fzero(), reference.count);
    // The factors.
    lemma_exact_count(n);
    lemma_exact_count(cfg.shrink_pool_size as int);
    lemma_share_near(fcount(n), fcount(cfg.shrink_pool_size as int));
    lemma_share_near(reference.count, cfg.min_count_for_z);
    lemma_trusts(n, reference, cfg);
    let a = pool_trust(n, cfg);
    let b = reference_trust(reference, cfg);
    lemma_shrunk_near(r.pool_factor, a, s);
    let f = shrunk(r.pool_factor, s);
    if r.goodness_z is Some {
        lemma_trust_product(r.pool_factor, a, r.reference_backing, b);
        lemma_shrunk_near(fmul(r.pool_factor, r.reference_backing), a * b, t);
        let h = shrunk(fmul(r.pool_factor, r.reference_backing), t);
        lemma_weight_near(f, leaning(a, logistic(s)), h, leaning(a * b, logistic(t)), cfg);
    } else {
        lemma_halves(1);
        assert(neutral_factor() == halves(1));
        lemma_weight_near(
            f,
            leaning(a, logistic(s)),
            neutral_factor(),
            (1 as real) / (2 as real),
            cfg,
        );
    }
    assert(weighed_by(d, scores, separation, reference, cfg, exp, z, x, s, top, w, y, t));
}

/// The trusts are between zero and one.
proof fn lemma_trusts(n: int, reference: MeanVar, cfg: DiscriminationConfig)
    requires
        weighs_well(cfg),
        0 < n,
        exact(reference.count) >= (0 as real),
    ensures
        (0 as real) <= pool_trust(n, cfg) <= (1 as real),
        (0 as real) <= reference_trust(reference, cfg) <= (1 as real),
{
    let zero = 0 as real;
    let p = cfg.shrink_pool_size as real;
    let m = exact(cfg.min_count_for_z);
    lemma_quotient_back(n as real, p);
    assert(zero * p == zero && zero * m == zero);
    lemma_cancel_order(zero, (n as real) / p, p);
    lemma_quotient_back(exact(reference.count), m);
    lemma_cancel_order(zero, exact(reference.count) / m, m);
}

/// The product of two trusts.
proof fn lemma_trust_product(x: Double, a: real, y: Double, b: real)
    requires
        x.finite(),
        y.finite(),
        (0 as real) <= exact(x) <= (1 as real),
        (0 as real) <= exact(y) <= (1 as real),
        (0 as real) <= a <= (1 as real),
        (0 as real) <= b <= (1 as real),
        size(exact(x) - a) <= (3 as real) * ulp(),
        size(exact(y) - b) <= (3 as real) * ulp(),
    ensures
        fmul(x, y).finite(),
        (0 as real) <= exact(fmul(x, y)) <= (1 as real),
        (0 as real) <= a * b <= (1 as real),
        size(exact(fmul(x, y)) - a * b) <= (9 as real) * ulp(),
{
    lemma_small_errors();
    lemma_one();
    let one = 1 as real;
    let u = ulp();
    lemma_product_apart(exact(x), a, exact(y), b, one, (3 as real) * u, (3 as real) * u);
    lemma_positive_product(a, b);
    lemma_scale_order(a, one, b);
    lemma_positive_product(exact(x), exact(y));
    lemma_scale_order(exact(x), one, exact(y));
    lemma_product_error(x, y);
    lemma_scale_order(size(exact(x) * exact(y)), one, u);
    crate::laws::sums::lemma_results_plain(x, y);
    lemma_at_most_one(x, y);
}

/// A product of numbers up to one is at most one.
proof fn lemma_at_most_one(x: Double, y: Double)
    requires
        x.finite(),
        y.finite(),
        (0 as real) <= exact(x) <= (1 as real),
        (0 as real) <= exact(y) <= (1 as real),
        fmul(x, y).finite(),
    ensures
        exact(fmul(x, y)) <= (1 as real),
{
    lemma_one();
    lemma_exact_order(x, fone());
    lemma_exact_order(y, fone());
    lemma_exact_order(fmul(x, y), fone());
    crate::precision::lemma_exact_multiple(x);
    crate::precision::lemma_exact_multiple(y);
    crate::precision::lemma_exact_multiple(fmul(x, y));
    crate::precision::lemma_unit_product(x, y);
}

/// An exponential function that tells positive arguments from negative ones.
pub open spec fn tells_signs<E: Fn(Double) -> Double>(exp: E) -> bool {
    forall|x: Double, y: Double| #[trigger]
        call_ensures(exp, (x,), y) ==> {
            &&& exponential_like(y)
            &&& x.finite() && (1 as real) / (1000 as real) <= exact(x) ==> y.infinite() || (
            1001 as real) / (1000 as real) <= exact(y)
            &&& x.finite() && exact(x) <= -(1 as real) / (1000 as real) ==> y.finite() && exact(y)
                <= (1999 as real) / (2000 as real)
        }
}

/// A channel that separates worse than its own norm is weighted below the neutral weight, and
/// one that separates better above it: where the pool is full, the norm has enough
/// observations, no reference has been learned, and the read lies a five-hundredth of a
/// deviation or more from the norm, in units of the slope.
pub proof fn lemma_separation_tells_against_its_norm<Id, E: Fn(Double) -> Double>(
    items: Items<Id>,
    separation: MeanVar,
    reference: MeanVar,
    cfg: DiscriminationConfig,
    exp: E,
    d: ChannelDiscrimination,
)
    requires
        items is Scored,
        countable(items->Scored_0@.len() as int),
        forall|i: int|
            0 <= i < items->Scored_0@.len() ==> (#[trigger] items->Scored_0@[i]).1.finite(),
        weighs_well(cfg),
        tells_signs(exp),
        reference.count.finite(),
        exact(reference.count) == (0 as real),
        items->Scored_0@.len() >= cfg.shrink_pool_size,
        (0 as real) < exact(cfg.g_slope) <= (0x10_0000 as real),
        exact(cfg.g_floor) <= (99 as real) / (100 as real),
        (101 as real) / (100 as real) <= exact(cfg.g_upper_bound),
        discriminated(items, separation, reference, cfg, exp, d),
        d.raw_separation is Some,
        fle(cfg.min_count_for_z, separation.count),
        gauges(separation, d.raw_separation->0),
        ({
            let gap = exact(cfg.g_slope) * (exact(d.raw_separation->0) - exact(separation.mean));
            exact(separation.spread()) <= (250000 as real) * (gap * gap)
        }),
        size(exact(d.raw_separation->0) - exact(separation.mean)) * size(
            exact(d.raw_separation->0) - exact(separation.mean),
        ) <= (0x100_0000_0000int as real) * exact(separation.spread()),
    ensures
        exact(d.raw_separation->0) < exact(separation.mean) ==> exact(d.g) < (1 as real),
        exact(d.raw_separation->0) > exact(separation.mean) ==> exact(d.g) > (1 as real),
{
    lemma_small_errors();
    lemma_one();
    lemma_weight_measures_both_norms(items, separation, reference, cfg, exp, d);
    let scores = pool_scores(items->Scored_0@);
    let (z, x, s, top, w, y, t) = choose|
        z: Double,
        x: Double,
        s: Double,
        top: Double,
        w: Double,
        y: Double,
        t: Double,
    | #[trigger]
        weighed_by(d, scores, separation, reference, cfg, exp, z, x, s, top, w, y, t);
    lemma_exact_order(fzero(), reference.count);
    assert(d.reference_cold);
    let n = scores.len() as int;
    let one = 1 as real;
    let half = one / (2 as real);
    let p = cfg.shrink_pool_size as real;
    lemma_quotient_back(n as real, p);
    assert(one * p == p);
    lemma_cancel_order(one, (n as real) / p, p);
    assert(pool_trust(n, cfg) == one);
    let sig = logistic(s);
    lemma_fully_trusted(sig);
    let k = exact(cfg.g_slope);
    let gap = exact(d.raw_separation->0) - exact(separation.mean);
    let v = exact(separation.spread());
    lemma_least();
    crate::laws::residuals::lemma_sizes_multiply(gap, gap);
    lemma_positive_square(gap);
    lemma_argument_large(k, exact(z), gap, v, exact(x));
    lemma_logistic_moves(s);
}

/// With full trust a factor is the logistic itself.
proof fn lemma_fully_trusted(sigma: real)
    ensures
        leaning(1 as real, sigma) == sigma,
        (4 as real) * (sigma * ((1 as real) / (2 as real))) == (2 as real) * sigma,
{
    let off = sigma - (1 as real) / (2 as real);
    let one = 1 as real;
    assert(one * off == off);
}

/// The argument is not small where the read is far from the norm.
proof fn lemma_argument_large(k: real, z: real, gap: real, v: real, x: real)
    requires
        (0 as real) < k <= (0x10_0000 as real),
        (0 as real) < v,
        close(z * z * v, gap * gap, 35 as real),
        gap > (0 as real) ==> z > (0 as real),
        gap < (0 as real) ==> z < (0 as real),
        v <= (250000 as real) * ((k * gap) * (k * gap)),
        gap * gap <= (0x100_0000_0000int as real) * v,
        size(k * z) <= limit() ==> size(x + k * z) <= ulp() * size(k * z) + tiny(),
    ensures
        gap > (0 as real) ==> x <= -(1 as real) / (1000 as real),
        gap < (0 as real) ==> (1 as real) / (1000 as real) <= x,
        size(k * z) <= limit(),
{
    lemma_small_errors();
    let one = 1 as real;
    let two = 2 as real;
    let zero = 0 as real;
    let zz = z * z;
    let gg = gap * gap;
    lemma_positive_square(z);
    lemma_positive_square(gap);
    lemma_close_half(zz * v, gg, 35 as real);
    // z is not too large.
    let big = 0x100_0000_0000int as real;
    lemma_associate(two, big, v);
    assert(zz * v <= two * big * v);
    lemma_cancel_order(zz, two * big, v);
    let b = 0x20_0000 as real;
    if size(z) > b {
        lemma_scale_order(b, size(z), b);
        lemma_scale_order(b, size(z), size(z));
        crate::laws::residuals::lemma_sizes_multiply(z, z);
        assert(size(z) * size(z) == zz);
        assert(b * b == (0x400_0000_0000int as real));
    }
    lemma_product_bound(k, z, 0x10_0000 as real, b);
    let kz = k * z;
    // (k z)^2 v is at least (1 - 35 u) (k gap)^2 >= v / 260000.
    let kk = k * k;
    lemma_positive_square(k);
    crate::laws::discounting::lemma_pairs(k, z, k, z);
    crate::laws::discounting::lemma_pairs(k, gap, k, gap);
    assert(kz * kz == kk * zz);
    assert((k * gap) * (k * gap) == kk * gg);
    lemma_associate(kk, zz, v);
    crate::closeness::lemma_close_scaled(zz * v, gg, 35 as real, kk);
    assert(close(kz * kz * v, kk * gg, 35 as real));
    let share = one / (1000 as real);
    lemma_scale_order((35 as real) * ulp(), share, kk * gg);
    assert(kk * gg * ((999 as real) / (1000 as real)) <= kz * kz * v);
    let m = one / (260000 as real);
    assert(m * v <= kz * kz * v);
    lemma_cancel_order(m, kz * kz, v);
    // So k z is at least a five-hundred-and-tenth in size.
    let low = one / (512 as real);
    if size(kz) < low {
        lemma_scale_order(size(kz), low, size(kz));
        lemma_scale_order(size(kz), low, low);
        crate::laws::residuals::lemma_sizes_multiply(kz, kz);
        assert(low * low < m);
    }
    lemma_scale_order(ulp(), one / (1_000_000 as real), size(kz));
    lemma_positive_product(k, z);
    lemma_positive_product(k, -z);
    lemma_distribute(k, zero, z);
    assert(k * zero == zero);
    assert(k * (-z) == -kz);
}

/// The logistic moves with the exponential.
proof fn lemma_logistic_moves(s: Double)
    requires
        exponential_like(s),
    ensures
        s.infinite() || (1001 as real) / (1000 as real) <= exact(s) ==> logistic(s) <= (4999 as real)
            / (10000 as real),
        s.finite() && exact(s) <= (1999 as real) / (2000 as real) ==> logistic(s) >= (50005 as real)
            / (100000 as real),
{
    let one = 1 as real;
    if s.finite() {
        let d = one + exact(s);
        let q = one / d;
        lemma_quotient_back(one, d);
        if (1001 as real) / (1000 as real) <= exact(s) {
            let c = (4999 as real) / (10000 as real);
            lemma_scale_order((2001 as real) / (1000 as real), d, c);
            lemma_cancel_order(q, c, d);
        }
        if exact(s) <= (1999 as real) / (2000 as real) {
            let c = (50005 as real) / (100000 as real);
            lemma_scale_order(d, (3999 as real) / (2000 as real), c);
            lemma_cancel_order(c, q, d);
        }
    }
}

} // verus!
