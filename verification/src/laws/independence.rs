//! Laws of the weights with coupling off: the redundancies are not read, and every channel
//! is weighted in proportion to its discrimination weight.
use crate::closeness::{
    close, lemma_close_back, lemma_close_chain, lemma_close_half, lemma_close_more,
    lemma_close_reversed, lemma_close_scaled, lemma_close_unscaled, lemma_product_close,
    lemma_quotient_close, lemma_root_close, lemma_sum_close,
};
use crate::config::CouplingConfig;
use crate::double::{fadd, fcount, fdiv, feq, fle, flt, fmul, fone, froot, fzero, Double};
use crate::exact::{lemma_mul_one, lemma_mul_zero, lemma_one, lemma_plus_zero, lemma_zero_div};
use crate::laws::weights::{
    identity, lemma_coupling_off_is_independence, lemma_independent_channels_count_fully,
};
use crate::numeric::fsum;
use crate::precision::{exact, lemma_exact_count, lemma_exact_order, lemma_small_errors, limit, ulp};
use crate::reals::{
    lemma_associate, lemma_cancel_order, lemma_commute, lemma_distribute, lemma_quotient_back,
    lemma_scale_order,
};
use crate::weighting::coupling::{
    channel_scale, correlation_matrix, coupled, covariance_matrix, effective_count, normalized,
    ones, positive_parts, raw_weights, strengths, PairBaseline,
};
use crate::weighting::linalg::{
    back, back_rest, factor, factor_of, factors, forward, forward_rest, passes, residual, solution,
};
use vstd::prelude::*;

verus! {

/// With coupling off the redundancies do not matter, and all channels count in full.
pub proof fn lemma_coupling_off_ignores_redundancy(
    g: Map<Seq<char>, Double>,
    one: Map<(Seq<char>, Seq<char>), PairBaseline>,
    other: Map<(Seq<char>, Seq<char>), PairBaseline>,
    keys: Seq<Seq<char>>,
    cfg: CouplingConfig,
)
    requires
        !cfg.enabled,
        keys.len() <= 0x20_0000_0000_0000,
    ensures
        coupled(g, one, keys, cfg) == coupled(g, other, keys, cfg),
        effective_count(correlation_matrix(one, keys, cfg)) == fcount(keys.len() as int),
{
    lemma_coupling_off_is_independence(one, keys, cfg);
    lemma_coupling_off_is_independence(other, keys, cfg);
    lemma_independent_channels_count_fully(keys.len());
}

/// A matrix that is zero off its diagonal.
pub open spec fn diagonal(d: Seq<Double>) -> Seq<Seq<Double>> {
    Seq::new(
        d.len(),
        |i: int|
            Seq::new(
                d.len(),
                |j: int|
                    if i == j {
                        d[i]
                    } else {
                        fzero()
                    },
            ),
    )
}

/// A finite number above zero.
pub open spec fn above_zero(x: Double) -> bool {
    x.finite() && !x.negative() && !x.vanishes()
}

/// What the one equation of a channel on its own solves to.
pub open spec fn solved(v: Double) -> Double {
    fdiv(fdiv(fone(), froot(v)), froot(v))
}

/// The one equation of a channel on its own can be solved.
pub open spec fn solvable(v: Double) -> bool {
    &&& above_zero(v)
    &&& above_zero(froot(v))
    &&& above_zero(fdiv(fone(), froot(v)))
    &&& above_zero(solved(v))
}

pub open spec fn all_solvable(d: Seq<Double>) -> bool {
    forall|i: int| 0 <= i < d.len() ==> solvable(#[trigger] d[i])
}

proof fn lemma_diagonal_residual(d: Seq<Double>, i: int, j: int, k: int)
    requires
        all_solvable(d),
        0 <= k <= j <= i < d.len(),
    ensures
        residual(diagonal(d), i, j, k) == diagonal(d)[i][j],
    decreases i, j, k,
{
    if k > 0 {
        lemma_diagonal_residual(d, i, j, k - 1);
        lemma_diagonal_factor(d, i, k - 1);
        lemma_diagonal_factor(d, j, k - 1);
        lemma_one();
        lemma_mul_zero(fzero());
        lemma_plus_zero(fzero());
        assert(solvable(d[i]));
        lemma_plus_zero(d[i]);
    }
}

proof fn lemma_diagonal_factor(d: Seq<Double>, i: int, j: int)
    requires
        all_solvable(d),
        0 <= j <= i < d.len(),
    ensures
        factor(diagonal(d), i, j) == if i == j {
            froot(d[i])
        } else {
            fzero()
        },
    decreases i, j, j + 1,
{
    lemma_diagonal_residual(d, i, j, j);
    if i != j {
        lemma_diagonal_factor(d, j, j);
        assert(solvable(d[j]));
        lemma_zero_div(froot(d[j]));
    }
}

proof fn lemma_diagonal_factors(d: Seq<Double>)
    requires
        all_solvable(d),
    ensures
        factors(diagonal(d)),
{
    let m = diagonal(d);
    lemma_one();
    assert forall|i: int, j: int| 0 <= j <= i < d.len() implies #[trigger] passes(m, i, j) by {
        lemma_diagonal_residual(d, i, i, i);
        lemma_diagonal_factor(d, j, j);
        assert(solvable(d[i]));
        assert(solvable(d[j]));
        lemma_positive(d[i]);
        lemma_positive(froot(d[j]));
    }
}

/// A finite number above zero compares so.
proof fn lemma_positive(x: Double)
    requires
        above_zero(x),
    ensures
        exact(x) > (0 as real),
        flt(fzero(), x),
        !fle(x, fzero()),
        !feq(x, fzero()),
        !flt(x, fzero()),
{
    lemma_one();
    lemma_exact_order(x, fzero());
    lemma_exact_order(fzero(), x);
    lemma_sign(x);
}

/// The sign of a number is that of what it stands for.
pub proof fn lemma_sign(x: Double)
    requires
        x.finite(),
    ensures
        exact(x) > (0 as real) <==> above_zero(x),
{
    lemma_one();
    lemma_exact_order(x, fzero());
    lemma_exact_order(fzero(), x);
    crate::exact::lemma_magnitude_sign(x.unsigned());
}

proof fn lemma_diagonal_forward_rest(d: Seq<Double>, i: int, k: int)
    requires
        all_solvable(d),
        0 <= k <= i < d.len(),
    ensures
        forward_rest(factor_of(diagonal(d)), ones(d.len()), i, k) == fone(),
    decreases i, k,
{
    lemma_one();
    lemma_plus_zero(fone());
    if k > 0 {
        lemma_diagonal_forward_rest(d, i, k - 1);
        lemma_diagonal_forward(d, k - 1);
        lemma_diagonal_factor(d, i, k - 1);
        assert(solvable(d[k - 1]));
        lemma_mul_zero(fdiv(fone(), froot(d[k - 1])));
    }
}

proof fn lemma_diagonal_forward(d: Seq<Double>, i: int)
    requires
        all_solvable(d),
        0 <= i < d.len(),
    ensures
        forward(factor_of(diagonal(d)), ones(d.len()), i) == fdiv(fone(), froot(d[i])),
    decreases i, i + 1,
{
    lemma_diagonal_forward_rest(d, i, i);
    lemma_diagonal_factor(d, i, i);
}

/// The intermediate solution of a diagonal system.
spec fn halfway(d: Seq<Double>) -> Seq<Double> {
    Seq::new(d.len(), |i: int| fdiv(fone(), froot(d[i])))
}

proof fn lemma_diagonal_back_rest(d: Seq<Double>, i: int, k: int)
    requires
        all_solvable(d),
        0 <= i < k <= d.len(),
    ensures
        back_rest(factor_of(diagonal(d)), halfway(d), i, k) == halfway(d)[i],
    decreases d.len() - i, k,
{
    assert(solvable(d[i]));
    lemma_plus_zero(halfway(d)[i]);
    if k > i + 1 {
        lemma_diagonal_back_rest(d, i, k - 1);
        lemma_diagonal_back(d, k - 1);
        lemma_diagonal_factor(d, k - 1, i);
        assert(solvable(d[k - 1]));
        lemma_mul_zero(solved(d[k - 1]));
    }
}

proof fn lemma_diagonal_back(d: Seq<Double>, i: int)
    requires
        all_solvable(d),
        0 <= i < d.len(),
    ensures
        back(factor_of(diagonal(d)), halfway(d), i) == solved(d[i]),
    decreases d.len() - i, d.len() + 1,
{
    lemma_diagonal_back_rest(d, i, d.len() as int);
    lemma_diagonal_factor(d, i, i);
}

/// A diagonal system falls apart into one equation for each channel.
proof fn lemma_diagonal_solves(d: Seq<Double>)
    requires
        all_solvable(d),
    ensures
        solution(factor_of(diagonal(d)), ones(d.len())) == Seq::new(
            d.len(),
            |i: int| solved(d[i]),
        ),
{
    let l = factor_of(diagonal(d));
    let b = ones(d.len());
    let y = Seq::new(b.len(), |i: int| forward(l, b, i));
    assert forall|i: int| 0 <= i < d.len() implies #[trigger] y[i] == halfway(d)[i] by {
        lemma_diagonal_forward(d, i);
    }
    assert(y =~= halfway(d));
    assert forall|i: int| 0 <= i < d.len() implies #[trigger] back(l, y, i) == solved(d[i]) by {
        lemma_diagonal_back(d, i);
    }
    assert(solution(l, b) =~= Seq::new(d.len(), |i: int| solved(d[i])));
}

/// A discrimination weight of moderate size: from about a millionth to about a million.
pub open spec fn moderate(g: Double) -> bool {
    &&& g.finite()
    &&& (1 as real) / (0x10_0000 as real) <= exact(g) <= (0x10_0000 as real)
}

/// The variance of a channel with the given discrimination weight.
pub open spec fn variance_of(g: Double) -> Double {
    fmul(fmul(channel_scale(g), fone()), channel_scale(g))
}

/// An inverse of a number of moderate size is of moderate size.
pub proof fn lemma_inverse_close(r: Double)
    requires
        r.finite(),
        (1 as real) / (0x1000 as real) <= exact(r) <= (0x1000 as real),
    ensures
        above_zero(fdiv(fone(), r)),
        (1 as real) / (0x2000 as real) <= exact(fdiv(fone(), r)) <= (0x2000 as real),
        close(exact(fdiv(fone(), r)) * exact(r), 1 as real, 2 as real),
{
    lemma_small_errors();
    lemma_one();
    lemma_exact_order(fone(), fone());
    let b = exact(r);
    let high = 0x1000 as real;
    let low = (1 as real) / (0x1000 as real);
    let one = 1 as real;
    lemma_scale_order(b, high, ulp());
    lemma_scale_order(low, b, limit());
    lemma_quotient_close(fone(), r);
    let c = exact(fdiv(fone(), r));
    let p = c * b;
    lemma_close_half(p, one, 2 as real);
    let zero = 0 as real;
    assert(zero * b == zero);
    lemma_cancel_order(zero, c, b);
    lemma_scale_order(low, b, c);
    lemma_scale_order(b, high, c);
    lemma_commute(c, low);
    lemma_commute(c, high);
    assert(c * low <= p && p <= c * high);
    lemma_sign(fdiv(fone(), r));
}

/// The variance of a channel is close to the inverse of its discrimination weight.
proof fn lemma_variance_close(g: Double)
    requires
        moderate(g),
    ensures
        above_zero(channel_scale(g)),
        above_zero(variance_of(g)),
        (1 as real) / (0x40_0000 as real) <= exact(variance_of(g)) <= (0x40_0000 as real),
        close(exact(variance_of(g)) * exact(g), 1 as real, 12 as real),
{
    lemma_small_errors();
    lemma_root_close(g);
    let r = exact(froot(g));
    lemma_inverse_close(froot(g));
    let scale = channel_scale(g);
    let c = exact(scale);
    lemma_mul_one(scale);
    let one = 1 as real;
    let two = 2 as real;
    let three = 3 as real;
    let cc = c * c;
    let low = (1 as real) / (0x2000 as real);
    let high = 0x2000 as real;
    lemma_scale_order(low, c, low);
    lemma_scale_order(low, c, c);
    lemma_scale_order(c, high, c);
    lemma_scale_order(c, high, high);
    assert(low * low == one / (0x400_0000 as real));
    assert(high * high == (0x400_0000 as real));
    lemma_commute(c, low);
    lemma_commute(c, high);
    assert(low * low <= cc <= high * high);
    lemma_product_close(scale, scale);
    let v = exact(variance_of(g));
    let x = exact(g);
    lemma_close_scaled(v, cc, two, x);
    // The square of the scale, times the weight, is close to one.
    let rr = r * r;
    lemma_close_scaled(x, rr, three, cc);
    let p = c * r;
    lemma_close_half(p, one, two);
    lemma_close_scaled(p, one, two, p);
    assert(p * one == p && one * p == p);
    lemma_close_chain(p * p, p, one, two, two);
    lemma_associate(p, c, r);
    lemma_associate(c, r, c);
    lemma_commute(r, c);
    lemma_associate(c, c, r);
    lemma_associate(cc, r, r);
    assert(p * p == cc * rr);
    lemma_close_chain(cc * x, cc * rr, one, three, 5 as real);
    lemma_close_chain(v * x, cc * x, one, two, 9 as real);
    let vx = v * x;
    lemma_close_half(vx, one, 12 as real);
    let zero = 0 as real;
    assert(zero * x == zero);
    lemma_cancel_order(zero, v, x);
    let narrow = one / (0x10_0000 as real);
    let wide = 0x10_0000 as real;
    lemma_scale_order(narrow, x, v);
    lemma_scale_order(x, wide, v);
    assert(v * narrow <= vx && vx <= v * wide);
    lemma_sign(variance_of(g));
}

/// A channel's equation solves to its discrimination weight, up to rounding.
proof fn lemma_solved_close(g: Double)
    requires
        moderate(g),
    ensures
        solvable(variance_of(g)),
        close(exact(solved(variance_of(g))), exact(g), 23 as real),
{
    lemma_small_errors();
    lemma_variance_close(g);
    let variance = variance_of(g);
    let v = exact(variance);
    lemma_root_close(variance);
    lemma_sign(froot(variance));
    let s = exact(froot(variance));
    lemma_inverse_close(froot(variance));
    let inverse = fdiv(fone(), froot(variance));
    let y = exact(inverse);
    let one = 1 as real;
    let two = 2 as real;
    let three = 3 as real;
    let high = 0x1000 as real;
    let low = one / (0x1000 as real);
    lemma_scale_order(s, high, ulp());
    lemma_scale_order(low, s, limit());
    lemma_quotient_close(inverse, froot(variance));
    let x = exact(solved(variance));
    let xs = x * s;
    lemma_close_half(xs, y, two);
    let zero = 0 as real;
    assert(zero * s == zero);
    lemma_cancel_order(zero, x, s);
    if x == zero {
        assert(xs == zero);
    }
    lemma_sign(solved(variance));
    lemma_close_scaled(xs, y, two, s);
    lemma_close_chain(xs * s, y * s, one, two, two);
    let ss = s * s;
    lemma_associate(x, s, s);
    lemma_close_scaled(v, ss, three, x);
    lemma_close_chain(x * v, x * ss, one, three, 5 as real);
    let w = exact(g);
    lemma_close_scaled(x * v, one, 9 as real, w);
    lemma_close_scaled(v * w, one, 12 as real, x);
    lemma_associate(x, v, w);
    let p = x * v * w;
    assert(one * w == w && x * one == x);
    lemma_close_back(p, x, 12 as real);
    lemma_close_chain(x, p, w, 13 as real, 9 as real);
}

/// The exact sum of the first `n` numbers.
pub open spec fn exact_sum(s: Seq<Double>, n: int) -> real
    decreases n,
{
    if n <= 0 {
        0 as real
    } else {
        exact_sum(s, n - 1) + exact(s[n - 1])
    }
}

/// All discrimination weights are of moderate size.
pub open spec fn all_moderate(gv: Seq<Double>) -> bool {
    forall|i: int| 0 <= i < gv.len() ==> moderate(#[trigger] gv[i])
}

/// The weights of channels on their own, before they are normalized.
spec fn alone(gv: Seq<Double>) -> Seq<Double> {
    Seq::new(gv.len(), |i: int| solved(variance_of(gv[i])))
}

/// Without correlation the weights before normalization are those of channels on their own.
proof fn lemma_uncorrelated_weights(gv: Seq<Double>)
    requires
        all_moderate(gv),
    ensures
        positive_parts(raw_weights(gv, identity(gv.len()))) == alone(gv),
{
    lemma_one();
    let n = gv.len();
    let d = Seq::new(n, |i: int| variance_of(gv[i]));
    let sigma = covariance_matrix(gv, identity(n));
    assert forall|i: int| 0 <= i < n implies solvable(#[trigger] d[i]) by {
        assert(moderate(gv[i]));
        lemma_solved_close(gv[i]);
    }
    assert forall|i: int| 0 <= i < n implies #[trigger] sigma[i] == diagonal(d)[i] by {
        assert forall|j: int| 0 <= j < n implies #[trigger] sigma[i][j] == diagonal(d)[i][j] by {
            assert(moderate(gv[i]) && moderate(gv[j]));
            lemma_variance_close(gv[i]);
            lemma_variance_close(gv[j]);
            if i != j {
                lemma_mul_zero(channel_scale(gv[i]));
                lemma_mul_zero(channel_scale(gv[j]));
            }
        }
        assert(sigma[i] =~= diagonal(d)[i]);
    }
    assert(sigma =~= diagonal(d));
    lemma_diagonal_factors(d);
    lemma_diagonal_solves(d);
    let x = raw_weights(gv, identity(n));
    let c = positive_parts(x);
    assert forall|i: int| 0 <= i < n implies #[trigger] c[i] == alone(gv)[i] by {
        assert(solvable(d[i]));
        lemma_positive(solved(d[i]));
    }
    assert(c =~= alone(gv));
}

/// The rounding errors that a sum of so many weights has gathered.
pub open spec fn sum_errors(n: int) -> real {
    (23 + 2 * n) as real
}

/// The sum of discrimination weights of moderate size.
proof fn lemma_exact_sum_range(gv: Seq<Double>, k: int)
    requires
        all_moderate(gv),
        0 <= k <= gv.len(),
    ensures
        (0 as real) <= exact_sum(gv, k) <= (k as real) * (0x10_0000 as real),
        k > 0 ==> exact_sum(gv, k) >= (1 as real) / (0x10_0000 as real),
    decreases k,
{
    if k > 0 {
        lemma_exact_sum_range(gv, k - 1);
        assert(moderate(gv[k - 1]));
        let one = 1 as real;
        assert(k as real == ((k - 1) as real) + one);
        lemma_distribute(0x10_0000 as real, (k - 1) as real, one);
    }
}

/// The sum of the weights is close to the sum of the discrimination weights.
proof fn lemma_sum_near(gv: Seq<Double>, k: int)
    requires
        all_moderate(gv),
        0 <= k <= gv.len() <= 0x100_0000_0000,
    ensures
        fsum(alone(gv), 0, k).finite(),
        close(exact(fsum(alone(gv), 0, k)), exact_sum(gv, k), sum_errors(k)),
    decreases k,
{
    lemma_small_errors();
    lemma_one();
    lemma_exact_order(fzero(), fzero());
    let zero = 0 as real;
    if k == 0 {
        assert(sum_errors(0) * ulp() * zero == zero);
    } else {
        lemma_sum_near(gv, k - 1);
        lemma_exact_sum_range(gv, k - 1);
        assert(moderate(gv[k - 1]));
        lemma_solved_close(gv[k - 1]);
        let part = fsum(alone(gv), 0, k - 1);
        let x = alone(gv)[k - 1];
        assert(x == solved(variance_of(gv[k - 1])));
        let t = exact_sum(gv, k - 1);
        let g = exact(gv[k - 1]);
        let e = sum_errors(k - 1);
        let one = 1 as real;
        lemma_close_half(exact(part), t, e);
        lemma_close_half(exact(x), g, 23 as real);
        lemma_close_more(exact(x), g, 23 as real, e);
        let whole = exact(part) + exact(x);
        let next = exact_sum(gv, k);
        lemma_distribute(e * ulp(), t, g);
        assert(close(whole, next, e));
        assert((k - 1) as real <= (0x100_0000_0000int as real));
        lemma_sum_close(part, x);
        let sum = fadd(part, x);
        assert(one * e * ulp() <= one);
        lemma_close_chain(exact(sum), whole, next, one, e);
        assert(fsum(alone(gv), 0, k) == sum);
    }
}

/// A weight, times the sum of the discrimination weights, is close to the channel's own
/// discrimination weight times the number of channels.
proof fn lemma_weight_near(gv: Seq<Double>, k: int)
    requires
        all_moderate(gv),
        0 <= k < gv.len() <= 0x100_0000_0000,
    ensures
        normalized(alone(gv))[k].finite(),
        close(
            exact(normalized(alone(gv))[k]) * exact_sum(gv, gv.len() as int),
            (gv.len() as real) * exact(gv[k]),
            (76 + 4 * gv.len()) as real,
        ),
{
    lemma_small_errors();
    lemma_one();
    let n = gv.len() as int;
    let nr = n as real;
    let c = alone(gv);
    let one = 1 as real;
    let two = 2 as real;
    let zero = 0 as real;
    let total = fsum(c, 0, n);
    let s = exact(total);
    let t = exact_sum(gv, n);
    let e = sum_errors(n);
    lemma_sum_near(gv, n);
    lemma_exact_sum_range(gv, n);
    lemma_close_half(s, t, e);
    lemma_exact_order(fzero(), total);
    assert(flt(fzero(), total));
    assert(moderate(gv[k]));
    lemma_solved_close(gv[k]);
    let g = exact(gv[k]);
    let x = exact(c[k]);
    lemma_close_half(x, g, 23 as real);
    lemma_exact_count(n);
    let count = fcount(n);
    let nx = nr * x;
    let ng = nr * g;
    let narrow = one / (0x20_0000 as real);
    let wide = 0x20_0000 as real;
    lemma_scale_order(narrow, x, nr);
    lemma_scale_order(x, wide, nr);
    lemma_product_close(count, c[k]);
    let m = fmul(count, c[k]);
    lemma_close_half(exact(m), nx, two);
    let nw = nr * wide;
    lemma_scale_order(s, nw, ulp());
    lemma_associate(ulp(), nr, wide);
    lemma_commute(ulp(), nr);
    lemma_associate(nr, ulp(), wide);
    let share = one / (0x40_0000 as real);
    assert(ulp() * wide <= share);
    lemma_scale_order(ulp() * wide, share, nr);
    lemma_scale_order(narrow, s, limit());
    assert(nr <= (0x100_0000_0000int as real));
    lemma_quotient_close(m, total);
    let w = exact(fdiv(m, total));
    lemma_close_chain(w * s, exact(m), nx, two, two);
    lemma_close_scaled(x, g, 23 as real, nr);
    lemma_close_chain(w * s, nx, ng, 5 as real, 23 as real);
    lemma_close_reversed(s, t, e);
    lemma_close_half(w * s, exact(m), two);
    assert(zero * s == zero);
    lemma_cancel_order(zero, w, s);
    let back = two * e;
    lemma_close_scaled(t, s, back, w);
    assert(back * (29 as real) * ulp() <= one);
    lemma_close_chain(w * t, w * s, ng, back, 29 as real);
}

/// With coupling off every channel is weighted in proportion to its discrimination weight:
/// the weight is the channel's share of the sum of the discrimination weights, times the
/// number of channels, up to `76 + 4 n` relative rounding errors for `n` channels, where
/// the discrimination weights are of moderate size.
pub proof fn lemma_coupling_off_weighs_in_proportion(
    g: Map<Seq<char>, Double>,
    redundancy: Map<(Seq<char>, Seq<char>), PairBaseline>,
    keys: Seq<Seq<char>>,
    cfg: CouplingConfig,
    k: int,
)
    requires
        !cfg.enabled,
        forall|i: int|
            0 <= i < keys.len() ==> g.contains_key(#[trigger] keys[i]) && moderate(g[keys[i]]),
        0 <= k < keys.len() <= 0x100_0000_0000,
    ensures
        coupled(g, redundancy, keys, cfg)[k].finite(),
        close(
            exact(coupled(g, redundancy, keys, cfg)[k]),
            (keys.len() as real) * exact(g[keys[k]]) / exact_sum(
                strengths(g, keys),
                keys.len() as int,
            ),
            (76 + 4 * keys.len()) as real,
        ),
        exact_sum(strengths(g, keys), keys.len() as int) > (0 as real),
        forall|i: int| 0 <= i < keys.len() ==> #[trigger] strengths(g, keys)[i] == g[keys[i]],
{
    let gv = strengths(g, keys);
    lemma_one();
    assert forall|i: int| 0 <= i < keys.len() implies #[trigger] gv[i] == g[keys[i]] && moderate(
        gv[i],
    ) by {
        let x = g[keys[i]];
        assert(g.contains_key(keys[i]) && moderate(x));
        lemma_exact_order(fzero(), x);
    }
    lemma_coupling_off_is_independence(redundancy, keys, cfg);
    lemma_uncorrelated_weights(gv);
    lemma_weight_near(gv, k);
    lemma_exact_sum_range(gv, gv.len() as int);
    let t = exact_sum(gv, gv.len() as int);
    let w = exact(coupled(g, redundancy, keys, cfg)[k]);
    let ng = (gv.len() as real) * exact(gv[k]);
    lemma_quotient_back(ng, t);
    lemma_close_unscaled(w, ng / t, (76 + 4 * gv.len()) as real, t);
}

/// The weights of channels on their own sum to between half and twice what their
/// discrimination weights do.
proof fn lemma_alone_sum(gv: Seq<Double>, k: int)
    requires
        all_moderate(gv),
        0 <= k <= gv.len(),
    ensures
        exact_sum(gv, k) <= (2 as real) * exact_sum(alone(gv), k),
        exact_sum(alone(gv), k) <= (2 as real) * exact_sum(gv, k),
    decreases k,
{
    lemma_small_errors();
    if k > 0 {
        lemma_alone_sum(gv, k - 1);
        assert(moderate(gv[k - 1]));
        lemma_solved_close(gv[k - 1]);
        lemma_close_half(
            exact(solved(variance_of(gv[k - 1]))),
            exact(gv[k - 1]),
            23 as real,
        );
    }
}

/// What the system of channels without correlation solves to sums to something of moderate
/// size.
pub proof fn lemma_uncorrelated_sum(gv: Seq<Double>)
    requires
        all_moderate(gv),
        gv.len() > 0,
    ensures
        ({
            let c = positive_parts(raw_weights(gv, identity(gv.len())));
            let total = exact_sum(c, gv.len() as int);
            &&& c.len() == gv.len()
            &&& (1 as real) / (0x20_0000 as real) <= total <= (gv.len() as real) * (
            0x20_0000 as real)
        }),
{
    let n = gv.len() as int;
    lemma_uncorrelated_weights(gv);
    lemma_alone_sum(gv, n);
    lemma_exact_sum_range(gv, n);
    lemma_associate(2 as real, n as real, 0x10_0000 as real);
}

} // verus!
