//! What the discounted weights are: shares of what solves the covariance system of the
//! channels, in which redundant channels weigh less.
use crate::closeness::{
    close, lemma_close_chain, lemma_close_half, lemma_close_product, lemma_close_reversed,
    lemma_close_scaled, lemma_product_near, lemma_root_close,
};
use crate::config::CouplingConfig;
use crate::double::{fadd, fcount, fmul, fone, froot, fzero, Double};
use crate::exact::{lemma_mul_zero, lemma_one};
use crate::laws::independence::{exact_sum, lemma_inverse_close, moderate};
use crate::laws::shrinking::{
    coupling_in_range, lemma_correlations_are_capped_and_shrunk, pair_counts, taken_correlation,
};
use crate::laws::solving::{
    entry_of, lemma_inverse_inverts, lemma_solution_solves, lemma_sum_same, solve_drift, sum_of,
};
use crate::laws::sums::{
    ample, lemma_plain_sum, lemma_positive_parts_plain, lemma_scaled_weight, lemma_sum_ordered,
    not_many,
};
use crate::numeric::fsum;
use crate::precision::{
    exact, least, lemma_exact_count, lemma_exact_order, lemma_least, lemma_small_errors,
    lemma_sum_error, limit, size, tiny, ulp,
};
use crate::reals::{
    lemma_associate, lemma_commute, lemma_distribute, lemma_positive_product, lemma_positive_square,
    lemma_product_bound, lemma_scale_order,
};
use crate::weighting::coupling::{
    channel_scale, correlation_matrix, coupled, covariance_matrix, effective_count, grid_sum,
    inverse_matrix, normalized, ones, positive_parts, raw_weights, strengths, PairBaseline,
};
use crate::weighting::linalg::{basis, factor_of, factors, solution};
use vstd::prelude::*;

verus! {

/// A number is a correlation over the roots of two weights, up to rounding: its square times
/// the weights is the square of the correlation.
pub open spec fn covaries(e: Double, correlation: real, g: real, h: real) -> bool {
    &&& e.finite()
    &&& exact(e) >= (0 as real)
    &&& (2 as real) * least() <= correlation ==> close(
        exact(e) * exact(e) * (g * h),
        correlation * correlation,
        56 as real,
    )
}

/// A matrix is the covariance of channels with the given weights and redundancies.
pub open spec fn describes(
    sigma: Seq<Seq<Double>>,
    g: Map<Seq<char>, Double>,
    redundancy: Map<(Seq<char>, Seq<char>), PairBaseline>,
    keys: Seq<Seq<char>>,
    cfg: CouplingConfig,
) -> bool {
    &&& sigma.len() == keys.len()
    &&& forall|i: int| 0 <= i < keys.len() ==> (#[trigger] sigma[i]).len() == keys.len()
    &&& forall|i: int, j: int|
        #![trigger sigma[i][j]]
        0 <= i < keys.len() && 0 <= j < keys.len() ==> {
            &&& i == j ==> covaries(sigma[i][j], 1 as real, exact(g[keys[i]]), exact(g[keys[i]]))
            &&& i != j ==> covaries(
                sigma[i][j],
                taken_correlation(redundancy, keys[i], keys[j], cfg),
                exact(g[keys[i]]),
                exact(g[keys[j]]),
            )
            &&& i != j && !pair_counts(redundancy, keys[i], keys[j], cfg) ==> exact(sigma[i][j])
                == (0 as real)
        }
}

/// What a number has above zero; one that is not finite has nothing.
pub open spec fn above(x: Double) -> real {
    if x.finite() && exact(x) > (0 as real) {
        exact(x)
    } else {
        0 as real
    }
}

/// What all numbers have above zero.
pub open spec fn all_above(x: Seq<Double>) -> real {
    sum_of(|j: int| above(x[j]), x.len() as int)
}

/// Weights are shared out by what the numbers have above zero, and sum to how many there are.
pub open spec fn shared_out(x: Seq<Double>, w: Seq<Double>) -> bool {
    let n = x.len() as real;
    let total = all_above(x);
    &&& w.len() == x.len()
    &&& total == (0 as real) ==> forall|i: int| 0 <= i < w.len() ==> #[trigger] w[i] == fone()
    &&& ample(total, x.len() as int) ==> forall|i: int|
        0 <= i < w.len() ==> (#[trigger] w[i]).finite() && size(
            exact(w[i]) * total - n * above(x[i]),
        ) <= ((8 * x.len() + 16) as real) * (ulp() * (n * above(x[i]))) + (8 as real) * (tiny() + tiny()
            * total)
}

/// The scale of a channel is the inverse root of its weight.
proof fn lemma_scale_is_inverse_root(g: Double)
    requires
        moderate(g),
    ensures
        channel_scale(g).finite(),
        !channel_scale(g).negative(),
        (1 as real) / (0x2000 as real) <= exact(channel_scale(g)) <= (0x2000 as real),
        close(exact(channel_scale(g)) * exact(channel_scale(g)) * exact(g), 1 as real, 9 as real),
{
    lemma_small_errors();
    lemma_root_close(g);
    let r = exact(froot(g));
    lemma_inverse_close(froot(g));
    let c = exact(channel_scale(g));
    let one = 1 as real;
    let two = 2 as real;
    let three = 3 as real;
    let cc = c * c;
    let x = exact(g);
    let rr = r * r;
    lemma_positive_square(c);
    lemma_close_scaled(x, rr, three, cc);
    let p = c * r;
    lemma_close_half(p, one, two);
    lemma_close_scaled(p, one, two, p);
    assert(p * one == p && one * p == p);
    lemma_close_chain(p * p, p, one, two, two);
    lemma_associate(p, c, r);
    lemma_associate(c, r, c);
    lemma_commute(r, c);
    lemma_associate(c, c, r);
    lemma_associate(cc, r, r);
    assert(p * p == cc * rr);
    lemma_close_chain(cc * x, cc * rr, one, three, 5 as real);
}

/// A correlation scaled by two channels is a covariance.
proof fn lemma_entry_covaries(r: Double, t: real, g: Double, h: Double)
    requires
        moderate(g),
        moderate(h),
        r.finite(),
        !r.negative(),
        (0 as real) <= t <= (1 as real),
        size(exact(r) - t) <= (3 as real) * (ulp() * t) + tiny(),
    ensures
        covaries(fmul(fmul(channel_scale(g), r), channel_scale(h)), t, exact(g), exact(h)),
        r == fzero() ==> exact(fmul(fmul(channel_scale(g), r), channel_scale(h))) == (0 as real),
{
    lemma_small_errors();
    lemma_least();
    lemma_one();
    lemma_scale_is_inverse_root(g);
    lemma_scale_is_inverse_root(h);
    let one = 1 as real;
    let two = 2 as real;
    let zero = 0 as real;
    let u = ulp();
    let a = channel_scale(g);
    let b = channel_scale(h);
    let x = exact(a);
    let y = exact(b);
    let v = exact(r);
    let wide = 0x2000 as real;
    let narrow = one / wide;
    lemma_scale_order(u, one / (1_000_000 as real), t);
    lemma_nonnegative(r);
    assert(v <= two);
    lemma_product_bound(x, v, wide, two);
    crate::precision::lemma_product_error(a, r);
    let m = fmul(a, r);
    lemma_unsigned(a, r);
    lemma_scale_order(u, one, size(x * v));
    lemma_product_bound(exact(m), y, (8 as real) * wide, wide);
    crate::precision::lemma_product_error(m, b);
    let e = fmul(m, b);
    lemma_unsigned(m, b);
    if r == fzero() {
        lemma_mul_zero(a);
        lemma_mul_zero(b);
        lemma_exact_order(fzero(), fzero());
    }
    if two * least() <= t {
        let l = least();
        let huge = 0x1_0000_0000_0000_0000int as real;
        // Nothing is among the smallest numbers.
        lemma_scale_order(l * l, l, u);
        lemma_scale_order(l, t, u);
        lemma_scale_order(0x4000_0000_0000 as real, huge, tiny());
        let few = 0x4000_0000_0000 as real;
        assert(few * tiny() <= u * t);
        assert(close(v, t, 4 as real)) by {
            lemma_associate(4 as real, u, t);
        }
        lemma_close_half(v, t, 4 as real);
        lemma_scale_order(t, two * v, u);
        lemma_chain_two(u, v);
        let xv = x * v;
        lemma_scale_order(narrow, x, v);
        lemma_scale_order(narrow * v, xv, u);
        lemma_narrow(u, v);
        assert(few * tiny() <= (0x4000 as real) * (u * xv));
        lemma_product_near(a, r);
        lemma_close_half(exact(m), xv, two);
        lemma_scale_order(xv, two * exact(m), u);
        lemma_chain_two(u, exact(m));
        let mv = exact(m);
        let my = mv * y;
        lemma_scale_order(narrow, y, mv);
        lemma_commute(mv, narrow);
        lemma_scale_order(narrow * mv, my, u);
        lemma_narrow(u, mv);
        lemma_positive_product(mv, y);
        assert(tiny() <= u * my);
        lemma_product_near(m, b);
        let ev = exact(e);
        lemma_close_scaled(mv, xv, two, y);
        lemma_close_chain(ev, my, xv * y, two, two);
        lemma_square_of_entry(ev, x, v, y, exact(g), exact(h), t);
    }
}

proof fn lemma_chain_two(u: real, v: real)
    ensures
        u * ((2 as real) * v) == (2 as real) * (u * v),
{
    lemma_associate(u, 2 as real, v);
    lemma_commute(u, 2 as real);
    lemma_associate(2 as real, u, v);
}

proof fn lemma_narrow(u: real, v: real)
    ensures
        u * ((1 as real) / (0x2000 as real) * v) == (1 as real) / (0x2000 as real) * (u * v),
{
    let k = (1 as real) / (0x2000 as real);
    lemma_associate(u, k, v);
    lemma_commute(u, k);
    lemma_associate(k, u, v);
}

/// A number without a sign stands for one that is not negative.
proof fn lemma_nonnegative(x: Double)
    requires
        x.finite(),
        !x.negative(),
    ensures
        exact(x) >= (0 as real),
{
    lemma_one();
    lemma_exact_order(fzero(), x);
    crate::exact::lemma_magnitude_sign(x.unsigned());
}

proof fn lemma_unsigned(x: Double, y: Double)
    requires
        x.finite(),
        y.finite(),
        !x.negative(),
        !y.negative(),
        fmul(x, y).finite(),
    ensures
        !fmul(x, y).negative(),
        exact(fmul(x, y)) >= (0 as real),
{
    crate::laws::shrinking::lemma_unsigned_product(x, y);
}

/// The square of an entry, times the weights.
proof fn lemma_square_of_entry(e: real, x: real, v: real, y: real, g: real, h: real, t: real)
    requires
        e >= (0 as real),
        x > (0 as real),
        y > (0 as real),
        v >= (0 as real),
        g > (0 as real),
        h > (0 as real),
        close(e, x * v * y, 5 as real),
        close(x * x * g, 1 as real, 9 as real),
        close(y * y * h, 1 as real, 9 as real),
        close(v, t, 4 as real),
    ensures
        close(e * e * (g * h), t * t, 56 as real),
{
    lemma_small_errors();
    let one = 1 as real;
    let p = x * v * y;
    let gh = g * h;
    lemma_close_product(e, p, e, p, 5 as real, 5 as real);
    lemma_positive_product(g, h);
    lemma_close_scaled(e * e, p * p, 15 as real, gh);
    // p p g h is (x x g) (y y h) v v.
    let a = x * x * g;
    let b = y * y * h;
    let vv = v * v;
    lemma_regroup(x, v, y, g, h);
    assert(p * p * gh == a * b * vv);
    lemma_positive_product(x, x);
    lemma_positive_product(y, y);
    lemma_positive_product(y * y, h);
    lemma_close_product(a, one, b, one, 9 as real, 9 as real);
    assert(one * one == one);
    lemma_positive_square(v);
    lemma_close_scaled(a * b, one, 27 as real, vv);
    assert(one * vv == vv);
    lemma_close_chain(e * e * gh, p * p * gh, vv, 15 as real, 27 as real);
    lemma_close_product(v, t, v, t, 4 as real, 4 as real);
    lemma_close_chain(e * e * gh, vv, t * t, 43 as real, 12 as real);
}

proof fn lemma_regroup(x: real, v: real, y: real, g: real, h: real)
    ensures
        (x * v * y) * (x * v * y) * (g * h) == (x * x * g) * (y * y * h) * (v * v),
{
    let p = x * v * y;
    // p p == (x x) (v v) (y y)
    let xv = x * v;
    lemma_pairs(xv, y, xv, y);
    lemma_pairs(x, v, x, v);
    let xx = x * x;
    let vv = v * v;
    let yy = y * y;
    assert(p * p == xx * vv * yy);
    // Move v v to the end.
    lemma_associate(xx, vv, yy);
    lemma_commute(vv, yy);
    lemma_associate(xx, yy, vv);
    assert(p * p == xx * yy * vv);
    lemma_associate(xx * yy, vv, g * h);
    lemma_commute(vv, g * h);
    lemma_associate(xx * yy, g * h, vv);
    lemma_pairs(xx, yy, g, h);
    assert(xx * yy * (g * h) == (xx * g) * (yy * h));
}

pub proof fn lemma_pairs(a: real, b: real, c: real, d: real)
    ensures
        (a * b) * (c * d) == (a * c) * (b * d),
{
    lemma_associate(a, b, c * d);
    lemma_associate(b, c, d);
    lemma_commute(b, c);
    lemma_associate(c, b, d);
    lemma_associate(a, c, b * d);
}

/// The positive parts, as numbers.
proof fn lemma_parts_above(x: Seq<Double>, k: int)
    requires
        0 <= k <= x.len(),
    ensures
        exact_sum(positive_parts(x), k) == sum_of(|j: int| above(x[j]), k),
        forall|i: int| 0 <= i < x.len() ==> exact(#[trigger] positive_parts(x)[i]) == above(x[i]),
    decreases k,
{
    lemma_one();
    lemma_exact_order(fzero(), fzero());
    assert forall|i: int| 0 <= i < x.len() implies exact(#[trigger] positive_parts(x)[i]) == above(
        x[i],
    ) by {
        if x[i].finite() {
            lemma_exact_order(x[i], fzero());
        }
    }
    if k > 0 {
        lemma_parts_above(x, k - 1);
        assert(exact(positive_parts(x)[k - 1]) == above(x[k - 1]));
    }
}

/// Normalized positive parts are shared out.
proof fn lemma_normalized_shared_out(x: Seq<Double>)
    requires
        not_many(x.len() as int),
    ensures
        shared_out(x, normalized(positive_parts(x))),
{
    lemma_small_errors();
    lemma_least();
    lemma_one();
    let n = x.len() as int;
    let nr = n as real;
    let c = positive_parts(x);
    let w = normalized(c);
    let t = all_above(x);
    let zero = 0 as real;
    let one = 1 as real;
    let u = ulp();
    lemma_positive_parts_plain(x);
    lemma_parts_above(x, n);
    let total = fsum(c, 0, n);
    let s = exact(total);
    if t == zero {
        lemma_plain_sum(c, n);
        assert(((2 * n) as real) * u * zero == zero);
        lemma_exact_order(fzero(), total);
    }
    if ample(t, n) {
        lemma_scale_order(one, nr, t);
        lemma_plain_sum(c, n);
        lemma_close_half(s, t, (2 * n) as real);
        lemma_exact_order(fzero(), total);
        lemma_exact_count(n);
        let huge = 0x1_0000_0000_0000_0000int as real;
        lemma_scale_order(2 as real, huge, tiny());
        lemma_scale_order(u, one, least() * least());
        assert(tiny() <= s);
        assert forall|i: int| 0 <= i < n implies (#[trigger] w[i]).finite() && size(
            exact(w[i]) * t - nr * above(x[i]),
        ) <= ((8 * n + 16) as real) * (u * (nr * above(x[i]))) + (8 as real) * (tiny() + tiny() * t) by {
            assert(c[i].finite());
            lemma_sum_ordered(c, i, n);
            lemma_scaled_weight(fcount(n), c[i], total, nr, t);
            lemma_positive_product(nr, above(x[i]));
            lemma_from_computed_sum(exact(w[i]), s, t, nr * above(x[i]), n);
        }
    }
}

/// From the computed sum to the exact one.
pub proof fn lemma_from_computed_sum(w: real, s: real, t: real, p: real, n: int)
    requires
        not_many(n),
        (0 as real) < t,
        (0 as real) < s,
        close(s, t, (2 * n) as real),
        s <= (2 as real) * t,
        (0 as real) <= p,
        size(w * s - p) <= (3 as real) * (ulp() * p) + (2 as real) * tiny() + tiny() * s,
    ensures
        size(w * t - p) <= ((8 * n + 16) as real) * (ulp() * p) + (8 as real) * (tiny() + tiny() * t),
{
    lemma_small_errors();
    let u = ulp();
    let one = 1 as real;
    let two = 2 as real;
    let k = (4 * n) as real;
    lemma_scale_order((2 * n) as real, 0x200_0000_0000int as real, u);
    lemma_close_reversed(s, t, (2 * n) as real);
    assert(two * ((2 * n) as real) == k);
    let ku = k * u;
    assert(size(t - s) <= ku * s);
    let q = w * s;
    let far = w * (t - s);
    lemma_distribute(w, t, s);
    lemma_product_bound(w, t - s, size(w), ku * s);
    lemma_associate(size(w), ku, s);
    lemma_commute(size(w), ku);
    lemma_associate(ku, size(w), s);
    lemma_size_back(w, s);
    assert(size(far) <= ku * size(q));
    let up = u * p;
    lemma_positive_product(u, p);
    lemma_scale_order(s, two * t, tiny());
    lemma_chain_two(tiny(), t);
    let wt = tiny() + tiny() * t;
    lemma_positive_product(tiny(), t);
    assert(size(q - p) <= (3 as real) * up + two * wt);
    lemma_scale_order(u, one, p);
    assert(size(q) <= (4 as real) * p + two * wt);
    lemma_scale_order(k, 0x400_0000_0000int as real, u);
    assert(ku <= one / (2 as real));
    lemma_positive_product(k, u);
    // size(q) <= p + 3 up + 2 wt, times ku.
    let m = p + (3 as real) * up + two * wt;
    lemma_scale_order(size(q), m, ku);
    lemma_distribute(ku, p + (3 as real) * up, two * wt);
    lemma_distribute(ku, p, (3 as real) * up);
    lemma_associate(k, u, p);
    lemma_scale_order(ku, one / (2 as real), (3 as real) * up);
    lemma_scale_order(ku, one / (2 as real), two * wt);
    assert(ku * m <= k * up + two * up + wt);
    assert((8 * n + 16) as real == two * k + (16 as real));
    lemma_distribute(up, two * k, 16 as real);
    lemma_associate(two, k, up);
    lemma_positive_product(k, up);
}

proof fn lemma_size_back(x: real, y: real)
    requires
        y > (0 as real),
    ensures
        size(x) * y == size(x * y),
{
    let zero = 0 as real;
    lemma_distribute(y, zero, x);
    assert(zero * y == zero);
    lemma_positive_product(x, y);
    lemma_positive_product(-x, y);
    assert((-x) * y == -(x * y));
}

/// The numbers solve the system against ones, up to rounding.
pub open spec fn solves_ones(sigma: Seq<Seq<Double>>, x: Seq<Double>) -> bool {
    (forall|j: int| 0 <= j < x.len() ==> (#[trigger] x[j]).finite()) ==> forall|i: int|
        0 <= i < x.len() ==> #[trigger] solves_row(sigma, x, i)
}

pub open spec fn solves_row(sigma: Seq<Seq<Double>>, x: Seq<Double>, i: int) -> bool {
    size(
        sum_of(|j: int| exact(entry_of(sigma, i, j)) * exact(x[j]), x.len() as int) - (1 as real),
    ) <= solve_drift(sigma, ones(x.len()), i)
}

/// What the weights are, whatever the redundancies: there is a matrix that describes the
/// channels, its diagonal the inverse discrimination weights, its other entries the capped and
/// shrunk correlations over the roots of the weights; there is what solves it against ones, or,
/// where it does not factor, the discrimination weights themselves; and the weights are shared
/// out by what these have above zero.
pub proof fn lemma_weights_solve_the_discounted_system(
    g: Map<Seq<char>, Double>,
    redundancy: Map<(Seq<char>, Seq<char>), PairBaseline>,
    keys: Seq<Seq<char>>,
    cfg: CouplingConfig,
)
    requires
        coupling_in_range(cfg),
        0 < keys.len() < 0x100_0000_0000,
        forall|i: int|
            0 <= i < keys.len() ==> g.contains_key(#[trigger] keys[i]) && moderate(g[keys[i]]),
    ensures
        exists|sigma: Seq<Seq<Double>>, x: Seq<Double>|
            #![trigger describes(sigma, g, redundancy, keys, cfg), shared_out(x, coupled(g, redundancy, keys, cfg))]
            {
                &&& describes(sigma, g, redundancy, keys, cfg)
                &&& x.len() == keys.len()
                &&& factors(sigma) ==> solves_ones(sigma, x)
                &&& !factors(sigma) ==> forall|i: int|
                    0 <= i < keys.len() ==> #[trigger] x[i] == g[keys[i]]
                &&& shared_out(x, coupled(g, redundancy, keys, cfg))
            },
{
    lemma_one();
    let n = keys.len() as int;
    let gv = strengths(g, keys);
    let r = correlation_matrix(redundancy, keys, cfg);
    let sigma = covariance_matrix(gv, r);
    let x = raw_weights(gv, r);
    assert forall|i: int| 0 <= i < n implies #[trigger] gv[i] == g[keys[i]] && moderate(gv[i]) by {
        assert(g.contains_key(keys[i]) && moderate(g[keys[i]]));
        lemma_exact_order(fzero(), g[keys[i]]);
    }
    lemma_small_errors();
    lemma_exact_order(fone(), fone());
    assert forall|i: int, j: int|
        #![trigger sigma[i][j]]
        0 <= i < n && 0 <= j < n implies {
        &&& i == j ==> covaries(sigma[i][j], 1 as real, exact(g[keys[i]]), exact(g[keys[i]]))
        &&& i != j ==> covaries(
            sigma[i][j],
            taken_correlation(redundancy, keys[i], keys[j], cfg),
            exact(g[keys[i]]),
            exact(g[keys[j]]),
        )
        &&& i != j && !pair_counts(redundancy, keys[i], keys[j], cfg) ==> exact(sigma[i][j]) == (
        0 as real)
    } by {
        assert(gv[i] == g[keys[i]] && gv[j] == g[keys[j]]);
        lemma_correlations_are_capped_and_shrunk(redundancy, keys, cfg, i, j);
        assert(sigma[i][j] == fmul(fmul(channel_scale(gv[i]), r[i][j]), channel_scale(gv[j])));
        if i == j {
            lemma_scale_order(0 as real, ulp(), 1 as real);
            lemma_entry_covaries(fone(), 1 as real, gv[i], gv[j]);
        } else {
            let t = taken_correlation(redundancy, keys[i], keys[j], cfg);
            let s = (1 as real) - exact(cfg.shrink_to_identity);
            lemma_scale_order(s, 1 as real, exact(cfg.discount_cap));
            lemma_entry_covaries(r[i][j], t, gv[i], gv[j]);
        }
    }
    assert(describes(sigma, g, redundancy, keys, cfg));
    lemma_normalized_shared_out(x);
    if factors(sigma) {
        if forall|j: int| 0 <= j < x.len() ==> (#[trigger] x[j]).finite() {
            assert forall|i: int| 0 <= i < n implies #[trigger] solves_row(sigma, x, i) by {
                lemma_solution_solves(sigma, ones(gv.len()), i);
                lemma_exact_order(fone(), fone());
                let a = |j: int|
                    exact(entry_of(sigma, i, j)) * exact(
                        solution(factor_of(sigma), ones(gv.len()))[j],
                    );
                let b = |j: int| exact(entry_of(sigma, i, j)) * exact(x[j]);
                lemma_sum_same(a, b, n);
            }
        }
    }
    assert(coupled(g, redundancy, keys, cfg) == normalized(positive_parts(x)));
}

/// The exact sum of the entries of a row.
pub open spec fn row_total(m: Seq<Seq<Double>>, i: int, n: int) -> real {
    sum_of(|j: int| exact(m[i][j]), n)
}

/// The exact sum of the entries of a square matrix.
pub open spec fn grid_total(m: Seq<Seq<Double>>) -> real {
    sum_of(|i: int| row_total(m, i, m.len() as int), m.len() as int)
}

/// The exact sum of the sizes of the entries of a row.
pub open spec fn row_heft(m: Seq<Seq<Double>>, i: int, n: int) -> real {
    sum_of(|j: int| size(exact(m[i][j])), n)
}

/// The exact sum of the sizes of the entries of a square matrix.
pub open spec fn grid_heft(m: Seq<Seq<Double>>) -> real {
    sum_of(|i: int| row_heft(m, i, m.len() as int), m.len() as int)
}

/// How far the additions can move the sum of so many entries.
pub open spec fn grid_error(k: int, heft: real) -> real {
    ((2 * k) as real) * (ulp() * heft)
}

/// Sums of sizes are not negative, and grow.
proof fn lemma_heft_grows(f: spec_fn(int) -> real, k: int, n: int)
    requires
        0 <= k <= n,
        forall|i: int| 0 <= i < n ==> #[trigger] f(i) >= (0 as real),
    ensures
        (0 as real) <= sum_of(f, k) <= sum_of(f, n),
    decreases n,
{
    if n > 0 {
        if k < n {
            lemma_heft_grows(f, k, n - 1);
            assert(f(n - 1) >= (0 as real));
        } else {
            lemma_heft_grows(f, n - 1, n - 1);
            assert(f(n - 1) >= (0 as real));
        }
    }
}

/// Finite entries throughout, whose sizes sum to something far from overflow.
pub open spec fn summable(m: Seq<Seq<Double>>) -> bool {
    &&& 0 < m.len() < 0x10_0000
    &&& forall|i: int, j: int|
        #![trigger m[i][j]]
        0 <= i < m.len() && 0 <= j < m.len() ==> m[i][j].finite()
    &&& (4 as real) * grid_heft(m) <= limit()
}

/// The computed sum up to a place is near the exact one.
proof fn lemma_grid_near(m: Seq<Seq<Double>>, i: int, j: int)
    requires
        summable(m),
        0 <= i <= m.len(),
        0 <= j <= m.len(),
        i == m.len() ==> j == 0,
    ensures
        ({
            let n = m.len() as int;
            let rows = sum_of(|a: int| row_total(m, a, n), i);
            let hefts = sum_of(|a: int| row_heft(m, a, n), i);
            let t = rows + if j > 0 {
                row_total(m, i, j)
            } else {
                0 as real
            };
            let h = hefts + if j > 0 {
                row_heft(m, i, j)
            } else {
                0 as real
            };
            &&& grid_sum(m, i, j).finite()
            &&& size(t) <= h
            &&& (0 as real) <= h <= grid_heft(m)
            &&& size(exact(grid_sum(m, i, j)) - t) <= grid_error(i * n + j, h)
        }),
    decreases i, j,
{
    lemma_small_errors();
    lemma_one();
    lemma_exact_order(fzero(), fzero());
    let n = m.len() as int;
    let zero = 0 as real;
    let one = 1 as real;
    let rt = |a: int| row_total(m, a, n);
    let rh = |a: int| row_heft(m, a, n);
    assert forall|a: int| 0 <= a < n implies #[trigger] rh(a) >= zero by {
        lemma_heft_grows(|b: int| size(exact(m[a][b])), 0, n);
    }
    lemma_heft_grows(rh, i, n);
    if j > 0 {
        lemma_grid_near(m, i, j - 1);
        let tf = |b: int| exact(m[i][b]);
        let hf = |b: int| size(exact(m[i][b]));
        lemma_heft_grows(rh, i + 1, n);
        assert(sum_of(rh, i + 1) == sum_of(rh, i) + rh(i));
        lemma_heft_grows(hf, j, n);
        lemma_heft_grows(hf, j - 1, n);
        let part = grid_sum(m, i, j - 1);
        let x = m[i][j - 1];
        assert(x.finite());
        assert(row_total(m, i, j) == sum_of(tf, j - 1) + tf(j - 1));
        assert(row_heft(m, i, j) == sum_of(hf, j - 1) + hf(j - 1));
        let t = sum_of(rt, i) + if j - 1 > 0 {
            row_total(m, i, j - 1)
        } else {
            zero
        };
        let h = sum_of(rh, i) + if j - 1 > 0 {
            row_heft(m, i, j - 1)
        } else {
            zero
        };
        assert(sum_of(tf, 0) == zero && sum_of(hf, 0) == zero);
        let k = i * n + (j - 1);
        assert(0 <= k < 0x100_0000_0000) by (nonlinear_arith)
            requires
                0 <= i < n,
                n < 0x10_0000,
                0 < j <= n,
                k == i * n + (j - 1),
        ;
        lemma_grid_step(k, t, h, exact(part), exact(x));
        lemma_sum_error(part, x);
        lemma_grid_added(k, t, h, exact(part), exact(x), exact(fadd(part, x)));
    } else if i > 0 {
        lemma_grid_near(m, i - 1, n);
        assert(sum_of(rt, i) == sum_of(rt, i - 1) + rt(i - 1));
        assert(sum_of(rh, i) == sum_of(rh, i - 1) + rh(i - 1));
        assert((i - 1) * n + n == i * n) by (nonlinear_arith);
    } else {
        assert(0 * n + 0 == 0);
        assert(ulp() * zero == zero);
        assert(zero * zero == zero);
    }
}

/// A partial sum is far from overflow.
proof fn lemma_grid_step(k: int, t: real, h: real, part: real, x: real)
    requires
        0 <= k < 0x100_0000_0000,
        size(t) <= h,
        (4 as real) * (h + size(x)) <= limit(),
        size(part - t) <= grid_error(k, h),
    ensures
        size(part) <= (2 as real) * h,
        size(part + x) <= limit(),
{
    lemma_small_errors();
    let u = ulp();
    let k2 = (2 * k) as real;
    lemma_scale_order(k2, 0x200_0000_0000int as real, u);
    lemma_associate(k2, u, h);
    lemma_scale_order(k2 * u, 1 as real, h);
}

/// One entry more.
proof fn lemma_grid_added(k: int, t: real, h: real, part: real, x: real, after: real)
    requires
        0 <= k,
        size(t) <= h,
        size(part) <= (2 as real) * h,
        size(part - t) <= grid_error(k, h),
        size(after - (part + x)) <= ulp() * size(part + x),
    ensures
        size(after - (t + x)) <= grid_error(k + 1, h + size(x)),
{
    lemma_small_errors();
    let u = ulp();
    let two = 2 as real;
    let k2 = (2 * k) as real;
    let all = h + size(x);
    lemma_scale_order(size(part + x), two * all, u);
    lemma_chain_two(u, all);
    lemma_scale_order(h, all, u);
    lemma_scale_order(u * h, u * all, k2);
    assert((2 * (k + 1)) as real == k2 + two);
    lemma_distribute(u * all, k2, two);
}

/// A matrix inverts another, column by column, up to rounding.
pub open spec fn inverts(r: Seq<Seq<Double>>, inv: Seq<Seq<Double>>) -> bool {
    forall|i: int, j: int|
        0 <= i < r.len() && 0 <= j < r.len() && (forall|k: int|
            0 <= k < r.len() ==> (#[trigger] inv[k][j]).finite()) ==> #[trigger] inverts_at(
            r,
            inv,
            i,
            j,
        )
}

pub open spec fn inverts_at(r: Seq<Seq<Double>>, inv: Seq<Seq<Double>>, i: int, j: int) -> bool {
    size(
        sum_of(|k: int| exact(entry_of(r, i, k)) * exact(inv[k][j]), r.len() as int) - if i == j {
            1 as real
        } else {
            0 as real
        },
    ) <= solve_drift(r, basis(r.len(), j), i)
}

/// What the effective number of channels is: the sum of the entries of the inverse of the
/// correlation matrix, up to rounding, held to the number of channels; and the number of
/// channels where the matrix has no inverse or the sum is not positive.
pub proof fn lemma_effective_channels_sum_the_inverse(r: Seq<Seq<Double>>)
    requires
        0 < r.len() < 0x10_0000,
    ensures
        !factors(r) ==> effective_count(r) == fcount(r.len() as int),
        factors(r) ==> exists|inv: Seq<Seq<Double>>| #[trigger]
            inverts(r, inv) && inv.len() == r.len() && (summable(inv) ==> {
                let e = exact(effective_count(r));
                let t = grid_total(inv);
                let n = r.len() as real;
                let err = grid_error((r.len() * r.len()) as int, grid_heft(inv));
                ||| e == n && (t <= err || n <= t + err)
                ||| e < n && size(e - t) <= err
            }),
{
    lemma_one();
    let n = r.len() as int;
    lemma_exact_count(n);
    if factors(r) {
        let inv = inverse_matrix(r);
        assert forall|i: int, j: int|
            0 <= i < n && 0 <= j < n && (forall|k: int|
                0 <= k < n ==> (#[trigger] inv[k][j]).finite()) implies #[trigger] inverts_at(
            r,
            inv,
            i,
            j,
        ) by {
            let col = solution(factor_of(r), basis(r.len(), j));
            assert forall|k: int| 0 <= k < n implies (#[trigger] col[k]).finite() by {
                assert(inv[k][j] == col[k]);
            }
            lemma_inverse_inverts(r, i, j);
            let a = |k: int| exact(entry_of(r, i, k)) * exact(col[k]);
            let b = |k: int| exact(entry_of(r, i, k)) * exact(inv[k][j]);
            lemma_sum_same(a, b, n);
        }
        assert(inverts(r, inv));
        if summable(inv) {
            lemma_grid_near(inv, n, 0);
            let total = grid_sum(inv, n, 0);
            lemma_exact_order(fzero(), total);
            lemma_exact_order(fcount(n), total);
            assert(n * n + 0 == n * n);
        }
    }
}

} // verus!
