//! Laws on what weights sum to: the number of channels, up to rounding.
use crate::closeness::{
    close, lemma_close_chain, lemma_close_half, lemma_close_sum, lemma_sum_close,
};
use crate::config::{is_non_negative, CouplingConfig};
use crate::double::{fadd, fcount, fdiv, flt, fmul, fone, fzero, Double};
use crate::exact::lemma_one;
use crate::fuser::{level_bases, tilted, tilted_raw, top_base};
use crate::laws::independence::{exact_sum, lemma_uncorrelated_sum, moderate};
use crate::laws::weights::lemma_coupling_off_is_independence;
use crate::numeric::fsum;
use crate::precision::{
    exact, least, lemma_exact_count, lemma_exact_order, lemma_least, lemma_product_error,
    lemma_quotient_error, lemma_small_errors, limit, size, tiny, ulp,
};
use crate::reals::{
    lemma_associate, lemma_cancel_order, lemma_commute, lemma_distribute, lemma_positive_product,
    lemma_product_bound, lemma_quotient_back, lemma_scale_order,
};
use crate::weighting::coupling::{
    correlation_matrix, coupled, positive_parts, raw_weights, strengths, PairBaseline,
};
use vstd::prelude::*;

verus! {

/// Finite numbers that are not negative.
pub open spec fn plain(c: Seq<Double>) -> bool {
    forall|i: int| 0 <= i < c.len() ==> (#[trigger] c[i]).finite() && exact(c[i]) >= (0 as real)
}

/// So few numbers that their roundings stay small.
pub open spec fn not_many(n: int) -> bool {
    0 < n <= 0x100_0000_0000
}

/// A sum that is neither among the smallest numbers nor near overflow.
pub open spec fn ample(total: real, n: int) -> bool {
    least() <= total && (16 as real) * ((n as real) * total) <= limit()
}

/// Sums of plain numbers, and each of them, are between nought and the sum of all.
pub proof fn lemma_sum_ordered(c: Seq<Double>, k: int, n: int)
    requires
        plain(c),
        0 <= k <= n <= c.len(),
    ensures
        (0 as real) <= exact_sum(c, k) <= exact_sum(c, n),
        k < n ==> exact(c[k]) <= exact_sum(c, n),
    decreases n,
{
    if n > 0 {
        assert(c[n - 1].finite());
        if k < n {
            lemma_sum_ordered(c, k, n - 1);
        } else {
            lemma_sum_ordered(c, n - 1, n - 1);
        }
    }
}

/// The computed sum of plain numbers is close to the exact one.
pub proof fn lemma_plain_sum(c: Seq<Double>, k: int)
    requires
        plain(c),
        not_many(c.len() as int),
        0 <= k <= c.len(),
        (4 as real) * exact_sum(c, c.len() as int) <= limit(),
    ensures
        fsum(c, 0, k).finite(),
        close(exact(fsum(c, 0, k)), exact_sum(c, k), (2 * k) as real),
    decreases k,
{
    lemma_small_errors();
    lemma_one();
    lemma_exact_order(fzero(), fzero());
    let n = c.len() as int;
    let u = ulp();
    if k > 0 {
        lemma_plain_sum(c, k - 1);
        lemma_sum_ordered(c, k - 1, n);
        lemma_sum_ordered(c, k, n);
        assert(c[k - 1].finite());
        let x = exact(c[k - 1]);
        let part = fsum(c, 0, k - 1);
        let t = exact_sum(c, k - 1);
        let one = 1 as real;
        let e = (2 * (k - 1)) as real;
        lemma_close_half(exact(part), t, e);
        lemma_positive_product(e, u);
        lemma_positive_product(e * u, x);
        lemma_close_sum(exact(part), t, x, x, e);
        lemma_sum_close(part, c[k - 1]);
        assert(one * e * u <= one);
        lemma_close_chain(exact(fadd(part, c[k - 1])), exact(part) + x, t + x, one, e);
        assert((2 * k) as real == one + e + one);
    } else {
        let zero = 0 as real;
        assert(zero * u * zero == zero);
    }
}

/// One weight, scaled to the number of channels, times the sum.
pub proof fn lemma_scaled_weight(count: Double, c: Double, total: Double, n: real, x: real)
    requires
        count.finite(),
        exact(count) == n,
        (1 as real) <= n,
        c.finite(),
        (0 as real) <= exact(c) <= x,
        total.finite(),
        tiny() <= exact(total),
        x <= (2 as real) * exact(total),
        (8 as real) * (n * x) <= limit(),
        (8 as real) * n <= limit(),
    ensures
        fdiv(fmul(count, c), total).finite(),
        size(exact(fdiv(fmul(count, c), total)) * exact(total) - n * exact(c)) <= (3 as real) * (
        ulp() * (n * exact(c))) + (2 as real) * tiny() + tiny() * exact(total),
{
    lemma_small_errors();
    let u = ulp();
    let w = tiny();
    let s = exact(total);
    let one = 1 as real;
    let zero = 0 as real;
    let t = n * exact(c);
    lemma_positive_product(n, exact(c));
    lemma_scale_order(exact(c), x, n);
    lemma_product_error(count, c);
    let m = fmul(count, c);
    let y = exact(m);
    lemma_scale_order(u, one / (1_000_000 as real), t);
    let q = y / s;
    lemma_quotient_back(y, s);
    // The quotient does not overflow.
    lemma_scale_order(x, (2 as real) * s, n);
    lemma_associate(n, 2 as real, s);
    lemma_commute(n, 2 as real);
    lemma_associate(2 as real, n, s);
    lemma_scale_order(u, one / (1_000_000 as real), n);
    lemma_exact_order(total, total);
    lemma_overflow_free(y, s, t, n);
    lemma_distribute(s, zero, limit());
    assert(zero * s == zero);
    lemma_cancel_order(q, limit(), s);
    lemma_cancel_order(-limit(), q, s);
    lemma_quotient_error(m, total);
    let r = exact(fdiv(m, total));
    // Multiplied back.
    let e = u * size(q) + w;
    lemma_distribute(s, r, q);
    lemma_scale_order(r - q, e, s);
    lemma_scale_order(-e, r - q, s);
    lemma_distribute(s, zero, e);
    lemma_distribute(s, u * size(q), w);
    lemma_associate(u, size(q), s);
    lemma_size_back(q, s);
    assert(size(r * s - y) <= u * size(y) + w * s);
    lemma_scale_order(size(y), (2 as real) * t + w, u);
    lemma_distribute(u, (2 as real) * t, w);
    lemma_associate(u, 2 as real, t);
    lemma_commute(u, 2 as real);
    lemma_associate(2 as real, u, t);
    lemma_scale_order(u, one, w);
}

proof fn lemma_size_back(x: real, y: real)
    requires
        y > (0 as real),
    ensures
        size(x) * y == size(x * y),
{
    let zero = 0 as real;
    lemma_distribute(y, zero, x);
    assert(zero * y == zero);
    lemma_positive_product(x, y);
    lemma_positive_product(-x, y);
    assert((-x) * y == -(x * y));
}

/// The quotient of a scaled weight by the sum stays far from overflow.
proof fn lemma_overflow_free(y: real, s: real, t: real, n: real)
    requires
        tiny() <= s,
        (1 as real) <= n,
        (0 as real) <= t,
        (8 as real) * n <= limit(),
        t <= (2 as real) * (n * s),
        size(y - t) <= ulp() * t + tiny(),
    ensures
        size(y) <= limit() * s,
{
    lemma_small_errors();
    let one = 1 as real;
    lemma_scale_order(ulp(), one / (1_000_000 as real), t);
    lemma_scale_order(one, n, s);
    lemma_scale_order((8 as real) * n, limit(), s);
    lemma_associate(8 as real, n, s);
}

/// The numbers scaled to sum to how many there are.
spec fn scaled(c: Seq<Double>) -> Seq<Double> {
    let n = c.len() as int;
    Seq::new(c.len(), |i: int| fdiv(fmul(fcount(n), c[i]), fsum(c, 0, n)))
}

/// The first `k` scaled numbers, times the sum of all, are near to the first `k` numbers times
/// how many there are.
proof fn lemma_scaled_sum(c: Seq<Double>, k: int)
    requires
        plain(c),
        not_many(c.len() as int),
        ample(exact_sum(c, c.len() as int), c.len() as int),
        0 <= k <= c.len(),
    ensures
        ({
            let n = c.len() as int;
            let s = exact(fsum(c, 0, n));
            let t = exact_sum(c, k);
            &&& forall|i: int| 0 <= i < k ==> (#[trigger] scaled(c)[i]).finite()
            &&& size(exact_sum(scaled(c), k) * s - (n as real) * t) <= (3 as real) * (ulp() * ((
            n as real) * t)) + (k as real) * ((2 as real) * tiny() + tiny() * s)
        }),
    decreases k,
{
    lemma_small_errors();
    lemma_least();
    let n = c.len() as int;
    let nr = n as real;
    let all = exact_sum(c, n);
    lemma_scale_order(1 as real, nr, all);
    lemma_plain_sum(c, n);
    let total = fsum(c, 0, n);
    let s = exact(total);
    lemma_close_half(s, all, (2 * n) as real);
    let e = (2 as real) * tiny() + tiny() * s;
    let zero = 0 as real;
    if k > 0 {
        lemma_scaled_sum(c, k - 1);
        lemma_exact_count(n);
        lemma_sum_ordered(c, k - 1, n);
        assert(c[k - 1].finite());
        let huge = 0x1_0000_0000_0000_0000int as real;
        lemma_scale_order(1 as real, huge, tiny());
        lemma_scale_order(ulp(), 1 as real, least() * least());
        assert(tiny() <= s);
        lemma_scaled_weight(fcount(n), c[k - 1], total, nr, all);
        let w = exact(scaled(c)[k - 1]);
        let x = exact(c[k - 1]);
        let before = exact_sum(scaled(c), k - 1);
        let t = exact_sum(c, k - 1);
        lemma_distribute(s, before, w);
        lemma_distribute(nr, t, x);
        lemma_distribute(ulp(), nr * t, nr * x);
        lemma_distribute(e, (k - 1) as real, 1 as real);
        assert(k as real == ((k - 1) as real) + (1 as real));
    } else {
        assert(zero * s == zero);
        assert(nr * zero == zero);
        assert(ulp() * zero == zero);
        assert(zero * e == zero);
    }
}

/// Numbers scaled to sum to how many there are do, up to rounding, and are finite.
proof fn lemma_scaled_sums_up(c: Seq<Double>)
    requires
        plain(c),
        not_many(c.len() as int),
        ample(exact_sum(c, c.len() as int), c.len() as int),
    ensures
        flt(fzero(), fsum(c, 0, c.len() as int)),
        forall|i: int| 0 <= i < c.len() ==> (#[trigger] scaled(c)[i]).finite(),
        close(
            exact_sum(scaled(c), c.len() as int),
            c.len() as real,
            (5 * c.len() + 6) as real,
        ),
{
    lemma_small_errors();
    lemma_least();
    lemma_one();
    let n = c.len() as int;
    let nr = n as real;
    let u = ulp();
    let one = 1 as real;
    let two = 2 as real;
    let t = exact_sum(c, n);
    lemma_scale_order(one, nr, t);
    lemma_plain_sum(c, n);
    lemma_scaled_sum(c, n);
    let total = fsum(c, 0, n);
    let s = exact(total);
    let k2 = (2 * n) as real;
    lemma_close_half(s, t, k2);
    lemma_exact_order(fzero(), total);
    let w = exact_sum(scaled(c), n);
    // What the smallest numbers add is below a rounding error.
    let huge = 0x1_0000_0000_0000_0000int as real;
    lemma_scale_order(8 as real, huge, tiny());
    lemma_scale_order(least() * least(), least(), u);
    lemma_scale_order(least(), t, u);
    assert((8 as real) * tiny() <= u * t);
    lemma_scale_order(s, two * t, tiny());
    lemma_scale_order((8 as real) * tiny(), u, t);
    lemma_eighth_of_rounding();
    lemma_associate(8 as real, tiny(), t);
    lemma_associate(tiny(), two, t);
    lemma_commute(tiny(), two);
    lemma_associate(two, tiny(), t);
    let e = two * tiny() + tiny() * s;
    assert(e <= u * t);
    lemma_scale_order(e, u * t, nr);
    lemma_associate(nr, u, t);
    lemma_commute(nr, u);
    lemma_associate(u, nr, t);
    let unt = u * (nr * t);
    assert(nr * e <= unt);
    assert(size(w * s - nr * t) <= (4 as real) * unt);
    // The weights sum to no more than twice their number.
    let zero = 0 as real;
    lemma_positive_product(nr, t);
    lemma_scale_order(u, one / (1_000_000 as real), nr * t);
    lemma_scale_order(t, two * s, nr);
    lemma_associate(nr, two, s);
    lemma_commute(nr, two);
    lemma_associate(two, nr, s);
    lemma_associate(4 as real, nr, s);
    assert(w * s <= (4 as real) * nr * s);
    assert(w * s >= zero);
    assert(zero * s == zero);
    lemma_cancel_order(w, (4 as real) * nr, s);
    lemma_cancel_order(zero, w, s);
    lemma_sum_refined(w, s, t, nr, n);
}

/// Eight of the smallest number are no more than a rounding error.
pub proof fn lemma_eighth_of_rounding()
    ensures
        (8 as real) * tiny() <= ulp(),
{
    lemma_small_errors();
    lemma_scale_order(ulp(), (1 as real) / (1_000_000 as real), ulp());
}

/// From the computed sum to the exact one.
proof fn lemma_sum_refined(w: real, s: real, t: real, nr: real, n: int)
    requires
        not_many(n),
        nr == n as real,
        (0 as real) < t,
        close(s, t, (2 * n) as real),
        (0 as real) <= w <= (4 as real) * nr,
        size(w * s - nr * t) <= (4 as real) * (ulp() * (nr * t)),
        t <= (2 as real) * s,
    ensures
        close(w, nr, (5 * n + 6) as real),
{
    lemma_small_errors();
    let u = ulp();
    let one = 1 as real;
    let two = 2 as real;
    let zero = 0 as real;
    let k2 = (2 * n) as real;
    let ku = k2 * u;
    // A first bound: w is at most twice the number.
    let rough = ku * t;
    lemma_product_bound(w, s - t, (4 as real) * nr, rough);
    lemma_distribute(w, s, t);
    lemma_associate((4 as real) * nr, ku, t);
    let nt = nr * t;
    lemma_positive_product(nr, t);
    lemma_scale_order(k2, 0x200_0000_0000int as real, u);
    assert(ku <= one / (4000 as real));
    lemma_scale_order(ku, one / (4000 as real), (4 as real) * nr);
    let part = one / (1000 as real);
    assert((4 as real) * nr * ku <= part * nr);
    lemma_scale_order((4 as real) * nr * ku, part * nr, t);
    lemma_associate(part, nr, t);
    assert((4 as real) * nr * ku * t <= part * nt);
    lemma_scale_order(u, one / (1_000_000 as real), nt);
    assert(w * s <= nt + (4 as real) * (u * nt));
    assert(w * t <= w * s + part * nt);
    let more = (5 as real) / (2 as real);
    assert(nt >= zero);
    assert(part * nt <= nt);
    assert((4 as real) * (u * nt) <= nt / (4 as real));
    assert(w * t <= more * nt);
    lemma_associate(more, nr, t);
    lemma_cancel_order(w, more * nr, t);
    // The second: with it, as many roundings as stated.
    lemma_sum_closer(w, s, t, nr, n);
}

proof fn lemma_sum_closer(w: real, s: real, t: real, nr: real, n: int)
    requires
        not_many(n),
        nr == n as real,
        (0 as real) < t,
        close(s, t, (2 * n) as real),
        (0 as real) <= w <= (5 as real) / (2 as real) * nr,
        size(w * s - nr * t) <= (4 as real) * (ulp() * (nr * t)),
    ensures
        close(w, nr, (5 * n + 6) as real),
{
    lemma_small_errors();
    let u = ulp();
    let k2 = (2 * n) as real;
    let ku = k2 * u;
    let most = (5 as real) / (2 as real) * nr;
    let rough = ku * t;
    lemma_product_bound(w, s - t, most, rough);
    lemma_distribute(w, s, t);
    lemma_associate(most, ku, t);
    let nt = nr * t;
    let unr = u * nr;
    lemma_associate(u, nr, t);
    let k5 = (5 * n) as real;
    assert(k2 * (5 as real) == k5 * (2 as real));
    lemma_commute(most, ku);
    lemma_associate(ku, (5 as real) / (2 as real), nr);
    lemma_commute(ku, (5 as real) / (2 as real));
    lemma_associate((5 as real) / (2 as real), k2, u);
    assert((5 as real) / (2 as real) * k2 == k5);
    assert(most * ku == k5 * u * nr);
    let k = (5 * n + 6) as real;
    assert(k == k5 + (6 as real));
    lemma_distribute(u, k5, 6 as real);
    lemma_distribute(nr, k5 * u, (6 as real) * u);
    lemma_associate(6 as real, u, nr);
    let d = w - nr;
    lemma_distribute(t, w, nr);
    let bound = k * u * nr;
    lemma_distribute(t, k5 * u * nr, (6 as real) * unr);
    lemma_associate(6 as real, unr, t);
    lemma_positive_product(u, nr);
    lemma_positive_product(unr, t);
    assert(size(d * t) <= bound * t);
    let zero = 0 as real;
    lemma_distribute(t, zero, bound);
    assert(zero * t == zero);
    lemma_cancel_order(d, bound, t);
    lemma_cancel_order(-bound, d, t);
}

/// Positive parts are finite and not negative.
pub proof fn lemma_positive_parts_plain(x: Seq<Double>)
    ensures
        plain(positive_parts(x)),
{
    lemma_one();
    lemma_exact_order(fzero(), fzero());
    let c = positive_parts(x);
    assert forall|i: int| 0 <= i < c.len() implies (#[trigger] c[i]).finite() && exact(c[i]) >= (
    0 as real) by {
        if x[i].finite() {
            lemma_exact_order(x[i], fzero());
        }
    }
}

/// Ones sum to how many there are.
proof fn lemma_ones_sum(c: Seq<Double>, k: int)
    requires
        0 <= k <= c.len(),
        forall|i: int| 0 <= i < c.len() ==> #[trigger] c[i] == fone(),
    ensures
        exact_sum(c, k) == k as real,
    decreases k,
{
    lemma_one();
    lemma_exact_order(fone(), fone());
    if k > 0 {
        lemma_ones_sum(c, k - 1);
        assert(c[k - 1] == fone());
    }
}

/// The weights that coupling gives are finite and sum to the number of channels, up to
/// `5 n + 6` relative rounding errors for `n` channels. This is so whether coupling is on or
/// off, as long as what the discounted system solves to, held at zero from below, sums to
/// nothing or to something neither among the smallest numbers nor near overflow.
pub proof fn lemma_weights_sum_to_channels(
    g: Map<Seq<char>, Double>,
    redundancy: Map<(Seq<char>, Seq<char>), PairBaseline>,
    keys: Seq<Seq<char>>,
    cfg: CouplingConfig,
)
    requires
        not_many(keys.len() as int),
        ({
            let c = positive_parts(
                raw_weights(strengths(g, keys), correlation_matrix(redundancy, keys, cfg)),
            );
            let total = exact_sum(c, c.len() as int);
            total == (0 as real) || ample(total, keys.len() as int)
        }),
    ensures
        coupled(g, redundancy, keys, cfg).len() == keys.len(),
        plain(coupled(g, redundancy, keys, cfg)),
        close(
            exact_sum(coupled(g, redundancy, keys, cfg), keys.len() as int),
            keys.len() as real,
            (5 * keys.len() + 6) as real,
        ),
{
    lemma_small_errors();
    lemma_least();
    lemma_one();
    lemma_exact_order(fone(), fone());
    let n = keys.len() as int;
    let x = raw_weights(strengths(g, keys), correlation_matrix(redundancy, keys, cfg));
    let c = positive_parts(x);
    let w = coupled(g, redundancy, keys, cfg);
    lemma_positive_parts_plain(x);
    let t = exact_sum(c, n);
    let zero = 0 as real;
    assert(c.len() == n);
    if t == zero {
        lemma_plain_sum(c, n);
        let total = fsum(c, 0, n);
        assert(((2 * n) as real) * ulp() * zero == zero);
        lemma_exact_order(fzero(), total);
        lemma_ones_sum(w, n);
        let k = (5 * n + 6) as real;
        lemma_positive_product(k, ulp());
        lemma_positive_product(k * ulp(), n as real);
    } else {
        lemma_scaled_sums_up(c);
        assert(w =~= scaled(c));
        lemma_scaled_plain(c);
    }
}

/// A number that stands for none below zero has a sign only where it is nought.
proof fn lemma_signed_nought(x: Double)
    requires
        x.finite(),
        exact(x) >= (0 as real),
        x.negative(),
    ensures
        x.vanishes(),
{
    lemma_one();
    lemma_exact_order(x, fzero());
    lemma_exact_order(fzero(), x);
    crate::exact::lemma_magnitude_sign(x.unsigned());
}

/// Products and quotients of numbers that are not negative are not.
pub proof fn lemma_results_plain(x: Double, y: Double)
    requires
        x.finite(),
        y.finite(),
        exact(x) >= (0 as real),
        exact(y) >= (0 as real),
    ensures
        fmul(x, y).finite() ==> exact(fmul(x, y)) >= (0 as real),
        fdiv(x, y).finite() && exact(y) > (0 as real) ==> exact(fdiv(x, y)) >= (0 as real),
{
    lemma_one();
    let p = fmul(x, y);
    let q = fdiv(x, y);
    if x.negative() {
        lemma_signed_nought(x);
    }
    if y.negative() {
        lemma_signed_nought(y);
        lemma_exact_order(y, y);
    }
    if p.finite() {
        lemma_exact_order(p, p);
        if x.vanishes() {
            crate::exact::lemma_vanishing_product(x, y);
        } else if y.vanishes() {
            crate::double::lemma_mul_commutes(x, y);
            crate::exact::lemma_vanishing_product(y, x);
        } else {
            reveal(fmul);
            let a = crate::rounding::magnitude(x.unsigned());
            let b = crate::rounding::magnitude(y.unsigned());
            crate::exact::lemma_magnitude_sign(x.unsigned());
            crate::exact::lemma_magnitude_sign(y.unsigned());
            assert(a * b >= 0) by (nonlinear_arith)
                requires
                    a >= 0,
                    b >= 0,
            ;
            vstd::arithmetic::power2::lemma_pow2_pos(crate::double::UNIT_EXPONENT as nat);
            crate::double::lemma_round_range(a * b, crate::double::unit());
            lemma_unsigned_plain(p);
        }
    }
    if q.finite() && exact(y) > (0 as real) {
        lemma_exact_order(q, q);
        lemma_exact_order(y, y);
        if x.vanishes() {
            crate::exact::lemma_vanishing_quotient(x, y);
        } else {
            reveal(fdiv);
            let a = crate::rounding::magnitude(x.unsigned());
            let b = crate::rounding::magnitude(y.unsigned());
            crate::exact::lemma_magnitude_sign(x.unsigned());
            crate::exact::lemma_magnitude_sign(y.unsigned());
            vstd::arithmetic::power2::lemma_pow2_pos(crate::double::UNIT_EXPONENT as nat);
            let u = crate::double::unit();
            assert(a * u >= 0) by (nonlinear_arith)
                requires
                    a >= 0,
                    u >= 0,
            ;
            crate::double::lemma_round_range(a * u, b);
            lemma_unsigned_plain(q);
        }
    }
}

proof fn lemma_unsigned_plain(x: Double)
    requires
        x.finite(),
        !x.negative(),
    ensures
        exact(x) >= (0 as real),
{
    lemma_one();
    lemma_exact_order(fzero(), x);
    crate::exact::lemma_magnitude_sign(x.unsigned());
}

/// Scaled numbers are not negative.
proof fn lemma_scaled_plain(c: Seq<Double>)
    requires
        plain(c),
        not_many(c.len() as int),
        ample(exact_sum(c, c.len() as int), c.len() as int),
        forall|i: int| 0 <= i < c.len() ==> (#[trigger] scaled(c)[i]).finite(),
    ensures
        plain(scaled(c)),
{
    lemma_small_errors();
    lemma_least();
    let n = c.len() as int;
    let nr = n as real;
    let t = exact_sum(c, n);
    let one = 1 as real;
    lemma_scale_order(one, nr, t);
    lemma_plain_sum(c, n);
    let total = fsum(c, 0, n);
    lemma_close_half(exact(total), t, (2 * n) as real);
    lemma_exact_count(n);
    let w = scaled(c);
    assert forall|i: int| 0 <= i < w.len() implies (#[trigger] w[i]).finite() && exact(w[i]) >= (
    0 as real) by {
        assert(c[i].finite());
        lemma_sum_ordered(c, i, n);
        lemma_positive_product(nr, exact(c[i]));
        lemma_scale_order(exact(c[i]), t, nr);
        lemma_product_error(fcount(n), c[i]);
        lemma_results_plain(fcount(n), c[i]);
        lemma_results_plain(fmul(fcount(n), c[i]), total);
    }
}

/// The largest base weight is one that no other exceeds.
proof fn lemma_top_base(bases: Seq<Double>, n: int)
    requires
        0 <= n <= bases.len(),
        forall|i: int| 0 <= i < bases.len() ==> is_non_negative(#[trigger] bases[i]),
    ensures
        top_base(bases, n).finite(),
        exact(top_base(bases, n)) >= (0 as real),
        forall|i: int| 0 <= i < n ==> exact(#[trigger] bases[i]) <= exact(top_base(bases, n)),
    decreases n,
{
    lemma_one();
    lemma_exact_order(fzero(), fzero());
    if n > 0 {
        lemma_top_base(bases, n - 1);
        assert(is_non_negative(bases[n - 1]));
        lemma_exact_order(fzero(), bases[n - 1]);
        lemma_exact_order(top_base(bases, n - 1), bases[n - 1]);
    }
}

/// A tilted weight before it is scaled is finite, not negative, and of the size of the weight.
proof fn lemma_tilted_raw_plain(weights: Seq<Double>, bases: Seq<Double>, k: int)
    requires
        plain(weights),
        not_many(weights.len() as int),
        bases.len() == weights.len(),
        forall|i: int| 0 <= i < bases.len() ==> is_non_negative(#[trigger] bases[i]),
        exact_sum(weights, weights.len() as int) <= (2 as real) * (weights.len() as real),
        0 <= k <= weights.len(),
    ensures
        plain(tilted_raw(weights, bases)),
        exact_sum(tilted_raw(weights, bases), k) <= (3 as real) * exact_sum(weights, k) + (
        k as real),
    decreases k,
{
    lemma_small_errors();
    lemma_one();
    lemma_exact_order(fzero(), fzero());
    let n = weights.len() as int;
    let raw = tilted_raw(weights, bases);
    let top = top_base(bases, n);
    lemma_top_base(bases, n);
    lemma_exact_order(fzero(), top);
    assert forall|i: int| 0 <= i < n implies (#[trigger] raw[i]).finite() && exact(raw[i]) >= (
    0 as real) && exact(raw[i]) <= (3 as real) * exact(weights[i]) + (1 as real) by {
        let w = weights[i];
        assert(w.finite());
        lemma_sum_ordered(weights, i, n);
        if flt(fzero(), top) {
            let b = bases[i];
            assert(is_non_negative(b));
            lemma_exact_order(fzero(), b);
            lemma_tilted_entry(w, b, top, n);
        }
    }
    if k > 0 {
        lemma_tilted_raw_plain(weights, bases, k - 1);
        assert(raw[k - 1].finite());
        assert(k as real == ((k - 1) as real) + (1 as real));
    }
}

proof fn lemma_tilted_entry(w: Double, b: Double, top: Double, n: int)
    requires
        not_many(n),
        w.finite(),
        (0 as real) <= exact(w) <= (2 as real) * (n as real),
        b.finite(),
        top.finite(),
        (0 as real) <= exact(b) <= exact(top),
        (0 as real) < exact(top),
    ensures
        ({
            let r = fmul(w, fdiv(b, top));
            &&& r.finite()
            &&& exact(r) >= (0 as real)
            &&& exact(r) <= (3 as real) * exact(w) + (1 as real)
        }),
{
    lemma_small_errors();
    let one = 1 as real;
    let zero = 0 as real;
    let t = exact(top);
    let q = exact(b) / t;
    lemma_quotient_back(exact(b), t);
    assert(zero * t == zero);
    lemma_cancel_order(q, one, t);
    lemma_cancel_order(zero, q, t);
    lemma_exact_order(top, top);
    lemma_quotient_error(b, top);
    lemma_scale_order(size(q), one, ulp());
    let f = fdiv(b, top);
    lemma_results_plain(b, top);
    assert(size(exact(f)) <= (2 as real));
    let x = exact(w);
    lemma_product_bound(x, exact(f), x, 2 as real);
    lemma_product_error(w, f);
    lemma_positive_product(x, exact(f));
    lemma_scale_order(ulp(), one / (1_000_000 as real), size(x * exact(f)));
    lemma_results_plain(w, f);
}

/// Tilting by declared base weights keeps the weights finite and what they sum to: the number
/// of channels, up to rounding, as long as a channel with a base weight above zero has kept a
/// weight.
pub proof fn lemma_tilted_weights_sum_to_channels(weights: Seq<Double>, bases: Seq<Double>)
    requires
        plain(weights),
        not_many(weights.len() as int),
        close(
            exact_sum(weights, weights.len() as int),
            weights.len() as real,
            (5 * weights.len() + 6) as real,
        ),
        bases.len() == weights.len(),
        forall|i: int| 0 <= i < bases.len() ==> is_non_negative(#[trigger] bases[i]),
        least() <= exact_sum(tilted_raw(weights, bases), weights.len() as int),
    ensures
        tilted(weights, bases).len() == weights.len(),
        plain(tilted(weights, bases)),
        close(
            exact_sum(tilted(weights, bases), weights.len() as int),
            weights.len() as real,
            (5 * weights.len() + 6) as real,
        ),
{
    lemma_small_errors();
    lemma_least();
    let n = weights.len() as int;
    let nr = n as real;
    let raw = tilted_raw(weights, bases);
    let u = ulp();
    let k = (5 * n + 6) as real;
    lemma_scale_order(k, 0x600_0000_0000int as real, u);
    lemma_close_half(exact_sum(weights, n), nr, k);
    lemma_tilted_raw_plain(weights, bases, n);
    let t = exact_sum(raw, n);
    assert(t <= (7 as real) * nr);
    lemma_scale_order(t, (7 as real) * nr, nr);
    lemma_associate(nr, 7 as real, nr);
    lemma_commute(nr, 7 as real);
    lemma_associate(7 as real, nr, nr);
    let top = 0x100_0000_0000int as real;
    lemma_scale_order(nr, top, nr);
    lemma_scale_order(nr, top, top);
    assert((16 as real) * (nr * t) <= (112 as real) * (top * top));
    assert((112 as real) * (top * top) <= limit());
    lemma_scaled_sums_up(raw);
    lemma_scaled_plain(raw);
    if !level_bases(bases) {
        assert(tilted(weights, bases) =~= scaled(raw));
    }
}

/// With coupling off, and discrimination weights of moderate size, the weights are finite and
/// sum to the number of channels, up to rounding.
pub proof fn lemma_weights_sum_with_coupling_off(
    g: Map<Seq<char>, Double>,
    redundancy: Map<(Seq<char>, Seq<char>), PairBaseline>,
    keys: Seq<Seq<char>>,
    cfg: CouplingConfig,
)
    requires
        !cfg.enabled,
        not_many(keys.len() as int),
        forall|i: int|
            0 <= i < keys.len() ==> g.contains_key(#[trigger] keys[i]) && moderate(g[keys[i]]),
    ensures
        plain(coupled(g, redundancy, keys, cfg)),
        close(
            exact_sum(coupled(g, redundancy, keys, cfg), keys.len() as int),
            keys.len() as real,
            (5 * keys.len() + 6) as real,
        ),
{
    lemma_small_errors();
    lemma_least();
    lemma_one();
    let n = keys.len() as int;
    let nr = n as real;
    let gv = strengths(g, keys);
    assert forall|i: int| 0 <= i < gv.len() implies moderate(#[trigger] gv[i]) by {
        let x = g[keys[i]];
        assert(g.contains_key(keys[i]) && moderate(x));
        lemma_exact_order(fzero(), x);
    }
    lemma_coupling_off_is_independence(redundancy, keys, cfg);
    lemma_uncorrelated_sum(gv);
    let c = positive_parts(raw_weights(gv, correlation_matrix(redundancy, keys, cfg)));
    let t = exact_sum(c, n);
    let top = 0x100_0000_0000int as real;
    let size_of = 0x20_0000 as real;
    lemma_scale_order(nr, top, size_of);
    lemma_scale_order(t, top * size_of, nr);
    lemma_scale_order(nr, top, top * size_of);
    assert((16 as real) * (top * (top * size_of)) <= limit());
    lemma_weights_sum_to_channels(g, redundancy, keys, cfg);
}

} // verus!
