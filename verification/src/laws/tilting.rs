//! What declared base weights do: they tilt the weights in proportion.
use crate::closeness::lemma_close_half;
use crate::config::is_non_negative;
use crate::double::{fcount, fdiv, feq, fmul, fzero, Double};
use crate::exact::{lemma_one, lemma_vanishing_product, lemma_vanishing_quotient};
use crate::fuser::{level_bases, tilted, tilted_raw, top_base};

use crate::laws::discounting::lemma_from_computed_sum;
use crate::laws::independence::exact_sum;
use crate::laws::solving::sum_of;
use crate::laws::sums::{
    ample, lemma_plain_sum, lemma_results_plain, lemma_scaled_weight, lemma_sum_ordered, plain,
};
use crate::numeric::fsum;
use crate::precision::{
    exact, least, lemma_exact_count, lemma_exact_order, lemma_least, lemma_product_error,
    lemma_quotient_error, lemma_small_errors, lemma_sum_error, limit, size, tiny, ulp,
};
use crate::reals::{
    lemma_associate, lemma_cancel_order, lemma_commute, lemma_distribute, lemma_positive_product,
    lemma_product_bound, lemma_quotient_back, lemma_scale_order,
};
use vstd::prelude::*;

verus! {

/// The largest base weight, without rounding: one that no other exceeds.
pub open spec fn highest(bases: Seq<Double>, top: real) -> bool {
    &&& exists|i: int| 0 <= i < bases.len() && exact(#[trigger] bases[i]) == top
    &&& forall|i: int| 0 <= i < bases.len() ==> exact(#[trigger] bases[i]) <= top
}

/// The share of a channel: its weight times its base weight, relative to the largest one.
pub open spec fn tilt_share(weights: Seq<Double>, bases: Seq<Double>, top: real, i: int) -> real {
    exact(weights[i]) * (exact(bases[i]) / top)
}

/// All shares together.
pub open spec fn tilt_total(weights: Seq<Double>, bases: Seq<Double>, top: real) -> real {
    sum_of(|i: int| tilt_share(weights, bases, top, i), weights.len() as int)
}

/// Weights and base weights that can be tilted: few, not negative, and not too large.
pub open spec fn tiltable(weights: Seq<Double>, bases: Seq<Double>) -> bool {
    &&& 0 < weights.len() <= 0x1_0000
    &&& bases.len() == weights.len()
    &&& plain(weights)
    &&& forall|i: int| 0 <= i < weights.len() ==> exact(#[trigger] weights[i]) <= (0x10_0000 as real)
    &&& forall|i: int| 0 <= i < bases.len() ==> is_non_negative(#[trigger] bases[i])
}

/// The largest base weight is found.
proof fn lemma_top_found(bases: Seq<Double>, n: int)
    requires
        0 <= n <= bases.len(),
        forall|i: int| 0 <= i < bases.len() ==> is_non_negative(#[trigger] bases[i]),
    ensures
        top_base(bases, n).finite(),
        exact(top_base(bases, n)) >= (0 as real),
        forall|i: int| 0 <= i < n ==> exact(#[trigger] bases[i]) <= exact(top_base(bases, n)),
        exact(top_base(bases, n)) > (0 as real) ==> exists|i: int|
            0 <= i < n && exact(#[trigger] bases[i]) == exact(top_base(bases, n)),
    decreases n,
{
    lemma_one();
    lemma_exact_order(fzero(), fzero());
    if n > 0 {
        lemma_top_found(bases, n - 1);
        assert(is_non_negative(bases[n - 1]));
        lemma_exact_order(fzero(), bases[n - 1]);
        lemma_exact_order(top_base(bases, n - 1), bases[n - 1]);
        if exact(top_base(bases, n - 1)) > (0 as real) {
            let i = choose|i: int|
                0 <= i < n - 1 && exact(#[trigger] bases[i]) == exact(top_base(bases, n - 1));
            assert(exact(bases[i]) == exact(top_base(bases, n - 1)));
        }
        assert(exact(bases[n - 1]) == exact(bases[n - 1]));
    }
}

/// The error of a share: a few roundings, and so much of the smallest number.
spec fn share_error(share: real) -> real {
    (4 as real) * (ulp() * share) + (0x20_0000 as real) * tiny()
}

/// One share as it is computed.
proof fn lemma_share_near(w: Double, b: Double, top: Double)
    requires
        w.finite(),
        (0 as real) <= exact(w) <= (0x10_0000 as real),
        b.finite(),
        top.finite(),
        (0 as real) <= exact(b) <= exact(top),
        (0 as real) < exact(top),
    ensures
        ({
            let r = fmul(w, fdiv(b, top));
            let t = exact(w) * (exact(b) / exact(top));
            &&& r.finite()
            &&& exact(r) >= (0 as real)
            &&& (0 as real) <= t <= exact(w)
            &&& size(exact(r) - t) <= share_error(t)
        }),
{
    lemma_small_errors();
    let one = 1 as real;
    let zero = 0 as real;
    let u = ulp();
    let tt = exact(top);
    let q = exact(b) / tt;
    let x = exact(w);
    lemma_quotient_back(exact(b), tt);
    assert(zero * tt == zero);
    lemma_cancel_order(q, one, tt);
    lemma_cancel_order(zero, q, tt);
    lemma_exact_order(top, top);
    lemma_quotient_error(b, top);
    let f = fdiv(b, top);
    lemma_results_plain(b, top);
    let t = x * q;
    lemma_positive_product(x, q);
    lemma_scale_order(q, one, x);
    // The rounded quotient, times the weight.
    let e = u * q + tiny();
    lemma_product_bound(x, exact(f) - q, x, e);
    lemma_distribute(x, exact(f), q);
    lemma_distribute(x, u * q, tiny());
    lemma_swap(x, u, q);
    lemma_scale_order(x, 0x10_0000 as real, tiny());
    let big = 0x10_0000 as real;
    assert(size(x * exact(f) - t) <= u * t + big * tiny());
    lemma_scale_order(u, one, t);
    lemma_product_bound(x, exact(f), big, 3 as real);
    lemma_product_error(w, f);
    lemma_results_plain(w, f);
    let p = x * exact(f);
    assert(size(p) <= (2 as real) * t + big * tiny());
    lemma_scale_order(size(p), (2 as real) * t + big * tiny(), u);
    lemma_distribute(u, (2 as real) * t, big * tiny());
    lemma_swap(u, 2 as real, t);
    lemma_swap(u, big, tiny());
    lemma_scale_order(u, one / (1_000_000 as real), tiny());
    lemma_scale_order(u * tiny(), one / (1_000_000 as real) * tiny(), big);
}

proof fn lemma_swap(a: real, b: real, c: real)
    ensures
        a * (b * c) == b * (a * c),
{
    lemma_associate(a, b, c);
    lemma_commute(a, b);
    lemma_associate(b, a, c);
}

/// The sum of the computed shares is near that of the exact ones.
proof fn lemma_shares_near(weights: Seq<Double>, bases: Seq<Double>, k: int)
    requires
        tiltable(weights, bases),
        exact(top_base(bases, bases.len() as int)) > (0 as real),
        0 <= k <= weights.len(),
    ensures
        ({
            let top = exact(top_base(bases, bases.len() as int));
            let raw = tilted_raw(weights, bases);
            let t = sum_of(|i: int| tilt_share(weights, bases, top, i), k);
            &&& plain(raw)
            &&& forall|i: int|
                0 <= i < raw.len() ==> size(
                    exact(#[trigger] raw[i]) - tilt_share(weights, bases, top, i),
                ) <= share_error(tilt_share(weights, bases, top, i)) && (0 as real) <= tilt_share(
                    weights,
                    bases,
                    top,
                    i,
                ) <= (0x10_0000 as real)
            &&& (0 as real) <= t <= (k as real) * (0x10_0000 as real)
            &&& size(exact_sum(raw, k) - t) <= (4 as real) * (ulp() * t) + (k as real) * ((
            0x20_0000 as real) * tiny())
        }),
    decreases k,
{
    lemma_small_errors();
    lemma_one();
    let n = bases.len() as int;
    let topd = top_base(bases, n);
    let top = exact(topd);
    let raw = tilted_raw(weights, bases);
    lemma_top_found(bases, n);
    lemma_exact_order(fzero(), topd);
    let f = |i: int| tilt_share(weights, bases, top, i);
    assert forall|i: int| 0 <= i < raw.len() implies (#[trigger] raw[i]).finite() && exact(raw[i])
        >= (0 as real) && size(exact(raw[i]) - tilt_share(weights, bases, top, i)) <= share_error(
        tilt_share(weights, bases, top, i),
    ) && (0 as real) <= tilt_share(weights, bases, top, i) <= (0x10_0000 as real) by {
        assert(weights[i].finite());
        assert(is_non_negative(bases[i]));
        lemma_exact_order(fzero(), bases[i]);
        assert(exact(weights[i]) <= (0x10_0000 as real));
        lemma_share_near(weights[i], bases[i], topd);
    }
    let zero = 0 as real;
    let c = (0x20_0000 as real) * tiny();
    if k > 0 {
        lemma_shares_near(weights, bases, k - 1);
        let t = sum_of(f, k - 1);
        let x = f(k - 1);
        assert(size(exact(raw[k - 1]) - x) <= share_error(x));
        lemma_distribute(ulp(), t, x);
        lemma_distribute(c, (k - 1) as real, 1 as real);
        lemma_distribute(0x10_0000 as real, (k - 1) as real, 1 as real);
        assert(k as real == ((k - 1) as real) + (1 as real));
    } else {
        assert(ulp() * zero == zero);
        assert(zero * c == zero);
        assert(zero * (0x10_0000 as real) == zero);
    }
}

/// Base weights tilt the weights in proportion: unless they are all alike, each channel's
/// weight is its share, its weight times its base weight, of all shares, times the number of
/// channels, up to rounding; and where they are all alike and above zero the weights stay as
/// they are.
pub proof fn lemma_base_weights_tilt_in_proportion(weights: Seq<Double>, bases: Seq<Double>, i: int)
    requires
        tiltable(weights, bases),
        0 <= i < weights.len(),
    ensures
        ({
            let n = weights.len() as real;
            let t = tilted(weights, bases);
            &&& t.len() == weights.len()
            &&& (forall|a: int, b: int|
                0 <= a < bases.len() && 0 <= b < bases.len() ==> exact(#[trigger] bases[a])
                    == exact(#[trigger] bases[b])) && exact(bases[0]) > (0 as real) ==> t
                == weights
            &&& forall|top: real| #[trigger]
                highest(bases, top) && top > (0 as real) && (2 as real) * least() <= tilt_total(
                    weights,
                    bases,
                    top,
                ) && !(forall|a: int| 0 <= a < bases.len() ==> exact(#[trigger] bases[a]) == top)
                    ==> t[i].finite() && size(
                    exact(t[i]) * tilt_total(weights, bases, top) - n * tilt_share(
                        weights,
                        bases,
                        top,
                        i,
                    ),
                ) <= ((64 * weights.len() + 64) as real) * (ulp() * (n * tilt_total(
                    weights,
                    bases,
                    top,
                )))
        }),
{
    lemma_small_errors();
    lemma_one();
    let n = weights.len() as int;
    let t = tilted(weights, bases);
    let topd = top_base(bases, n);
    lemma_top_found(bases, n);
    lemma_exact_order(fzero(), topd);
    assert forall|a: int| 0 <= a < n implies feq(#[trigger] bases[a], topd) == (exact(bases[a])
        == exact(topd)) by {
        assert(is_non_negative(bases[a]));
        lemma_exact_order(bases[a], topd);
        lemma_exact_order(topd, bases[a]);
    }
    if (forall|a: int, b: int|
        0 <= a < bases.len() && 0 <= b < bases.len() ==> exact(#[trigger] bases[a]) == exact(
            #[trigger] bases[b],
        )) && exact(bases[0]) > (0 as real) {
        let j = choose|j: int| 0 <= j < n && exact(#[trigger] bases[j]) == exact(topd);
        assert forall|a: int| 0 <= a < n implies feq(#[trigger] bases[a], topd) by {
            assert(exact(bases[a]) == exact(bases[j]));
        }
        assert(level_bases(bases));
    }
    assert forall|top: real| #[trigger]
        highest(bases, top) && top > (0 as real) && (2 as real) * least() <= tilt_total(weights, bases, top)
            && !(
        forall|a: int| 0 <= a < bases.len() ==> exact(#[trigger] bases[a]) == top) implies t[i].finite()
        && size(
        exact(t[i]) * tilt_total(weights, bases, top) - (n as real) * tilt_share(
            weights,
            bases,
            top,
            i,
        ),
    ) <= ((64 * n + 64) as real) * (ulp() * ((n as real) * tilt_total(weights, bases, top))) by {
        let h = choose|h: int| 0 <= h < bases.len() && exact(#[trigger] bases[h]) == top;
        assert(exact(bases[h]) <= exact(topd));
        let j = choose|j: int| 0 <= j < n && exact(#[trigger] bases[j]) == exact(topd);
        assert(exact(bases[j]) <= top);
        assert(exact(topd) == top);
        let a = choose|a: int| 0 <= a < bases.len() && exact(#[trigger] bases[a]) != top;
        assert(!feq(bases[a], topd));
        assert(!level_bases(bases));
        lemma_tilted_near(weights, bases, i);
    }
}

/// A tilted weight is near its share.
proof fn lemma_tilted_near(weights: Seq<Double>, bases: Seq<Double>, i: int)
    requires
        tiltable(weights, bases),
        0 <= i < weights.len(),
        exact(top_base(bases, bases.len() as int)) > (0 as real),
        !level_bases(bases),
        (2 as real) * least() <= tilt_total(
            weights,
            bases,
            exact(top_base(bases, bases.len() as int)),
        ),
    ensures
        ({
            let n = weights.len() as real;
            let top = exact(top_base(bases, bases.len() as int));
            let t = tilted(weights, bases);
            let total = tilt_total(weights, bases, top);
            &&& t[i].finite()
            &&& size(exact(t[i]) * total - n * tilt_share(weights, bases, top, i)) <= ((64
                * weights.len() + 64) as real) * (ulp() * (n * total))
        }),
{
    lemma_small_errors();
    lemma_least();
    lemma_one();
    let n = weights.len() as int;
    let nr = n as real;
    let u = ulp();
    let one = 1 as real;
    let two = 2 as real;
    let top = exact(top_base(bases, n));
    let raw = tilted_raw(weights, bases);
    let r = tilt_total(weights, bases, top);
    lemma_shares_near(weights, bases, n);
    let s = exact_sum(raw, n);
    let huge = 0x1_0000_0000_0000_0000int as real;
    let c = (0x20_0000 as real) * tiny();
    // What the smallest numbers add is below a rounding error.
    lemma_scale_order(least() * least(), least(), u);
    lemma_scale_order(least(), r, u);
    let ur = u * r;
    assert(huge * tiny() <= ur);
    lemma_scale_order(nr, 0x1_0000 as real, c);
    assert(nr * c <= ur);
    assert(size(s - r) <= (5 as real) * ur);
    lemma_scale_order(u, one / (1_000_000 as real), r);
    lemma_scale_order(one, nr, r);
    assert(r <= nr * (0x10_0000 as real));
    lemma_ample_shares(s, r, n);
    lemma_plain_sum(raw, n);
    let total = fsum(raw, 0, n);
    lemma_close_half(exact(total), s, (2 * n) as real);
    lemma_exact_order(fzero(), total);
    lemma_exact_count(n);
    assert(raw[i].finite());
    lemma_sum_ordered(raw, i, n);
    lemma_scale_order(2 as real, huge, tiny());
    lemma_scale_order(u, one, least() * least());
    lemma_scaled_weight(fcount(n), raw[i], total, nr, s);
    let t = tilted(weights, bases)[i];
    assert(t == fdiv(fmul(fcount(n), raw[i]), total));
    let p = nr * exact(raw[i]);
    lemma_positive_product(nr, exact(raw[i]));
    lemma_from_computed_sum(exact(t), exact(total), s, p, n);
    let f = |j: int| tilt_share(weights, bases, top, j);
    assert forall|j: int| 0 <= j < n implies #[trigger] f(j) >= (0 as real) by {
        assert(size(exact(raw[j]) - tilt_share(weights, bases, top, j)) <= share_error(
            tilt_share(weights, bases, top, j),
        ));
    }
    lemma_part_of_sum(f, n, i);
    lemma_scale_order(tilt_share(weights, bases, top, i), r, u);
    lemma_tilt_combined(exact(t), s, r, exact(raw[i]), tilt_share(weights, bases, top, i), n);
}

/// A term of a sum without negative ones is no more than the sum.
proof fn lemma_part_of_sum(f: spec_fn(int) -> real, n: int, i: int)
    requires
        0 <= i < n,
        forall|j: int| 0 <= j < n ==> #[trigger] f(j) >= (0 as real),
    ensures
        f(i) <= sum_of(f, n),
        (0 as real) <= sum_of(f, n),
    decreases n,
{
    assert(f(n - 1) >= (0 as real));
    if i < n - 1 {
        lemma_part_of_sum(f, n - 1, i);
    } else if n > 1 {
        lemma_part_of_sum(f, n - 1, 0);
    } else {
        assert(sum_of(f, 0) == (0 as real));
    }
}

/// The computed shares sum to something of moderate size.
proof fn lemma_ample_shares(s: real, r: real, n: int)
    requires
        0 < n <= 0x1_0000,
        (2 as real) * least() <= r,
        r <= (n as real) * (0x10_0000 as real),
        size(s - r) <= (5 as real) * (ulp() * r),
    ensures
        ample(s, n),
        least() <= s <= (2 as real) * r,
{
    lemma_small_errors();
    lemma_least();
    let nr = n as real;
    let one = 1 as real;
    let k = 0x1_0000 as real;
    let m = 0x10_0000 as real;
    lemma_scale_order(ulp(), one / (1_000_000 as real), r);
    lemma_scale_order(nr, k, m);
    assert(r <= k * m);
    lemma_scale_order(nr, k, s);
    lemma_scale_order(s, (2 as real) * (k * m), k);
    assert((16 as real) * (k * ((2 as real) * (k * m))) <= limit());
}

/// From the computed shares to the exact ones.
proof fn lemma_tilt_combined(t: real, s: real, r: real, x: real, share: real, n: int)
    requires
        0 < n <= 0x1_0000,
        (2 as real) * least() <= r,
        size(s - r) <= (5 as real) * (ulp() * r),
        (0 as real) <= x <= s,
        (0 as real) <= share <= r,
        size(x - share) <= (5 as real) * (ulp() * r),
        size(t * s - (n as real) * x) <= ((8 * n + 16) as real) * (ulp() * ((n as real) * x)) + (
        8 as real) * (tiny() + tiny() * s),
    ensures
        size(t * r - (n as real) * share) <= ((64 * n + 64) as real) * (ulp() * ((n as real) * r)),
{
    lemma_small_errors();
    lemma_least();
    let nr = n as real;
    let one = 1 as real;
    let two = 2 as real;
    let zero = 0 as real;
    let u = ulp();
    let ur = u * r;
    let nur = u * (nr * r);
    lemma_swap(u, nr, r);
    assert(nur == nr * ur);
    lemma_scale_order(u, one / (1_000_000 as real), r);
    assert(s <= two * r && s > zero);
    // The smallest numbers add less than a rounding error.
    let huge = 0x1_0000_0000_0000_0000int as real;
    lemma_scale_order(least() * least(), least(), u);
    lemma_scale_order(least(), r, u);
    lemma_scale_order(1000 as real, huge, tiny());
    lemma_scale_order(s, two * r, tiny());
    lemma_swap(tiny(), two, r);
    lemma_scale_order(u, one / (1000 as real), u);
    lemma_scale_order((1000 as real) * tiny(), u, r);
    lemma_associate(1000 as real, tiny(), r);
    lemma_scale_order(one, nr, ur);
    lemma_positive_product(u, r);
    assert((8 as real) * (tiny() + tiny() * s) <= nur);
    // The first error.
    let k = (8 * n + 16) as real;
    lemma_scale_order(x, two * r, nr);
    lemma_swap(nr, two, r);
    lemma_scale_order(nr * x, two * (nr * r), u);
    lemma_swap(u, two, nr * r);
    lemma_scale_order(u * (nr * x), two * nur, k);
    lemma_swap(k, two, nur);
    assert(size(t * s - nr * x) <= two * (k * nur) + nur);
    // The weight is at most twice the number of channels.
    lemma_scale_order(k, 0x10_0000 as real, nur);
    lemma_scale_order((0x10_0000 as real) * u, one / (100 as real), nr * r);
    lemma_associate(0x10_0000 as real, u, nr * r);
    lemma_positive_product(nr, r);
    lemma_scale_order(u, one / (1000 as real), nr * r);
    lemma_scale_order(r, two * s, nr);
    lemma_swap(nr, two, s);
    lemma_scale_order(x, s, nr);
    let nt = nr * r;
    let ns = nr * s;
    assert(k * nur <= one / (100 as real) * nt);
    assert(nur <= one / (1000 as real) * nt);
    assert(nt <= two * ns);
    assert(nr * x <= ns);
    assert(nr * x >= zero) by {
        lemma_positive_product(nr, x);
    }
    assert(size(t * s) <= two * ns);
    lemma_size(t, s);
    lemma_associate(two, nr, s);
    lemma_cancel_order(size(t), two * nr, s);
    // The other two.
    let e = (5 as real) * ur;
    lemma_product_bound(t, r - s, two * nr, e);
    lemma_product_bound(nr, x - share, nr, e);
    lemma_distribute(t, r, s);
    lemma_distribute(nr, x, share);
    lemma_swap(nr, 5 as real, ur);
    lemma_associate(two, nr, e);
    assert((64 * n + 64) as real == (8 as real) * k - (64 as real));
    let kk = (64 * n + 64) as real;
    lemma_distribute(nur, (8 as real) * k, 64 as real);
    lemma_associate(8 as real, k, nur);
    lemma_positive_product(k, nur);
    lemma_scale_order(24 as real, k, nur);
    lemma_positive_product(u, nr * r);
}

proof fn lemma_size(x: real, y: real)
    requires
        y > (0 as real),
    ensures
        size(x) * y == size(x * y),
{
    let zero = 0 as real;
    lemma_distribute(y, zero, x);
    assert(zero * y == zero);
    lemma_positive_product(x, y);
    lemma_positive_product(-x, y);
    assert((-x) * y == -(x * y));
}

/// A channel without a share has no weight: where no channel has both a weight and a base weight
/// above zero, all tilted weights are zero.
pub proof fn lemma_no_shares_no_weights(weights: Seq<Double>, bases: Seq<Double>, i: int)
    requires
        tiltable(weights, bases),
        0 <= i < weights.len(),
        forall|j: int|
            0 <= j < weights.len() ==> exact(#[trigger] weights[j]) == (0 as real) || exact(
                bases[j],
            ) == (0 as real),
    ensures
        tilted(weights, bases)[i].finite(),
        exact(tilted(weights, bases)[i]) == (0 as real),
{
    lemma_one();
    lemma_exact_order(fzero(), fzero());
    let n = weights.len() as int;
    let raw = tilted_raw(weights, bases);
    let topd = top_base(bases, n);
    lemma_top_found(bases, n);
    lemma_exact_order(fzero(), topd);
    lemma_exact_order(topd, topd);
    assert forall|j: int| 0 <= j < n implies (#[trigger] raw[j]).finite() && exact(raw[j]) == (
    0 as real) by {
        assert(weights[j].finite() && is_non_negative(bases[j]));
        lemma_exact_order(fzero(), bases[j]);
        if exact(topd) > (0 as real) {
            assert(exact(weights[j]) <= (0x10_0000 as real));
            lemma_share_near(weights[j], bases[j], topd);
            lemma_no_share(weights[j], bases[j], topd);
        }
    }
    lemma_nothing_adds_up(raw, n);
    lemma_exact_order(fzero(), fsum(raw, 0, n));
    if level_bases(bases) {
        assert(feq(bases[i], topd));
        lemma_exact_order(bases[i], topd);
        assert(exact(weights[i]) == (0 as real));
        assert(weights[i].finite());
    }
}

/// A share of nothing.
proof fn lemma_no_share(w: Double, b: Double, top: Double)
    requires
        w.finite(),
        b.finite(),
        top.finite(),
        exact(w) == (0 as real) || exact(b) == (0 as real),
        (0 as real) <= exact(b) <= exact(top),
        exact(top) > (0 as real),
    ensures
        fmul(w, fdiv(b, top)).finite(),
        exact(fmul(w, fdiv(b, top))) == (0 as real),
{
    lemma_exact_order(top, top);
    lemma_exact_order(w, w);
    lemma_exact_order(b, b);
    lemma_small_errors();
    let f = fdiv(b, top);
    let q = exact(b) / exact(top);
    lemma_quotient_back(exact(b), exact(top));
    assert((0 as real) * exact(top) == (0 as real));
    lemma_cancel_order(q, 1 as real, exact(top));
    lemma_cancel_order(0 as real, q, exact(top));
    lemma_quotient_error(b, top);
    if exact(w) == (0 as real) {
        lemma_vanishing_product(w, f);
    } else {
        lemma_vanishing_quotient(b, top);
        lemma_vanishing_product(f, w);
        crate::double::lemma_mul_commutes(f, w);
    }
    lemma_exact_order(fmul(w, f), fmul(w, f));
}

/// Noughts add up to nought.
proof fn lemma_nothing_adds_up(s: Seq<Double>, k: int)
    requires
        0 <= k <= s.len(),
        forall|j: int|
            0 <= j < s.len() ==> (#[trigger] s[j]).finite() && exact(s[j]) == (0 as real),
    ensures
        fsum(s, 0, k).finite(),
        exact(fsum(s, 0, k)) == (0 as real),
    decreases k,
{
    lemma_one();
    lemma_exact_order(fzero(), fzero());
    lemma_small_errors();
    if k > 0 {
        lemma_nothing_adds_up(s, k - 1);
        assert(s[k - 1].finite());
        lemma_sum_error(fsum(s, 0, k - 1), s[k - 1]);
        assert(ulp() * (0 as real) == (0 as real));
    }
}

} // verus!
