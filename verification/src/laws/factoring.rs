//! Two channels that are not all but alike are always discounted.
use crate::closeness::{close, lemma_root_close};
use crate::config::CouplingConfig;
use crate::double::{fdiv, fmul, froot, fsub, fzero, Double};
use crate::laws::discounting::{
    covaries, describes, lemma_weights_solve_the_discounted_system, shared_out, solves_ones,
};
use crate::laws::independence::moderate;
use crate::laws::shrinking::{coupling_in_range, pair_counts, taken_correlation};
use crate::exact::lemma_one;
use crate::precision::{
    exact, least, lemma_difference_error, lemma_exact_order, lemma_least, lemma_product_error,
    lemma_quotient_error, lemma_small_errors, limit, size, tiny, ulp,
};
use crate::reals::{
    lemma_associate, lemma_cancel_order, lemma_commute, lemma_distribute, lemma_positive_product,
    lemma_product_bound, lemma_quotient_back, lemma_scale_order,
};
use crate::weighting::coupling::{coupled, PairBaseline};
use crate::weighting::linalg::{factor, factors, passes, residual};
use vstd::prelude::*;

verus! {

/// The share by which a product must exceed a square.
spec fn margin() -> real {
    (1 as real) / (0x10_0000 as real)
}

/// A moderate number on a diagonal.
spec fn pivotal(x: Double) -> bool {
    &&& x.finite()
    &&& (1 as real) / (0x20_0000 as real) <= exact(x) <= (0x20_0000 as real)
}

/// The square of the lower entry over the root of the pivot.
proof fn lemma_lower_square(a: Double, b: Double, d: Double)
    requires
        pivotal(a),
        pivotal(d),
        b.finite(),
        (0 as real) <= exact(b),
        exact(b) * exact(b) <= ((1 as real) - margin()) * (exact(a) * exact(d)),
    ensures
        froot(a).finite(),
        exact(froot(a)) > (0 as real),
        fdiv(b, froot(a)).finite(),
        size(exact(fdiv(b, froot(a)))) <= limit(),
        exact(fdiv(b, froot(a))) * exact(fdiv(b, froot(a))) <= ((1 as real) - margin() / (
        4 as real)) * exact(d),
{
    lemma_small_errors();
    let one = 1 as real;
    let two = 2 as real;
    let zero = 0 as real;
    let u = ulp();
    let x = exact(a);
    let y = exact(d);
    let z = exact(b);
    let xy = x * y;
    lemma_root_close(a);
    let r = exact(froot(a));
    let rr = r * r;
    lemma_positive_product(r, r);
    // The products are moderate.
    let big = 0x20_0000 as real;
    lemma_scale_order(one / big, x, one / big);
    lemma_scale_order(one / big, y, x);
    lemma_product_bound(x, y, big, big);
    assert(xy >= one / big * (one / big));
    lemma_scale_order(one - margin(), one, xy);
    let bigger = 0x40_0000 as real;
    if z > bigger {
        lemma_scale_order(bigger, z, z);
        lemma_scale_order(bigger, z, bigger);
    }
    // The quotient.
    let q = z / r;
    lemma_quotient_back(z, r);
    assert(zero * r == zero);
    lemma_cancel_order(zero, q, r);
    let most = 0x1_0000_0000_0000int as real;
    lemma_scale_order(one / (0x1000 as real), r, most);
    lemma_cancel_order(q, most, r);
    assert(most + one <= limit());
    lemma_exact_order(froot(a), froot(a));
    lemma_quotient_error(b, froot(a));
    let t = exact(fdiv(b, froot(a)));
    lemma_scale_order(u, one / (1_000_000 as real), q);
    let e = u * z + tiny() * r;
    let v = t * r;
    // t r lies near z.
    lemma_distribute(r, t, q);
    lemma_product_bound(t - q, r, u * q + tiny(), r);
    lemma_distribute(r, u * q, tiny());
    lemma_associate(u, q, r);
    assert(size(v - z) <= e);
    lemma_positive_product(u, z);
    lemma_positive_product(tiny(), r);
    lemma_near_square(v, z, e);
    // The error is small next to the margin.
    let zz = z * z;
    let w = tiny() * r;
    lemma_scale_order(r, 0x1000 as real, tiny());
    lemma_scale_order(u, one / (0x1000_0000_0000 as real), z);
    lemma_error_terms(z, u, w, bigger);
    assert(v * v <= zz + (8 as real) * (u * zz) + (8 as real) * (bigger * w) + (8 as real) * (w
        * w));
    lemma_positive_product(z, z);
    lemma_scale_order(zz, xy, u);
    lemma_positive_product(w, w);
    assert(w <= u * u * (0x1000 as real));
    lemma_scale_order(w, one, w);
    assert(bigger * w <= u * u * (0x4_0000_0000int as real));
    assert((8 as real) * (bigger * w) + (8 as real) * (w * w) <= (9 as real) * (bigger * w));
    assert((9 as real) * (bigger * w) <= margin() / (8 as real) * (one / big * (one / big)));
    lemma_scale_order((8 as real) * u, margin() / (8 as real), xy);
    lemma_associate(8 as real, u, xy);
    lemma_scale_order(one / big * (one / big), xy, margin() / (8 as real));
    lemma_distribute(xy, one, margin());
    lemma_distribute(xy, one, margin() / two);
    lemma_halved_margin(xy);
    assert(v * v <= (one - margin() / two) * xy);
    // And back from t r to t.
    let tt = t * t;
    assert(v * v == tt * rr) by {
        lemma_associate(t * r, t, r);
        lemma_associate(t, r, t);
        lemma_commute(r, t);
        lemma_associate(t, t, r);
        lemma_associate(t * t, r, r);
    }
    lemma_scale_order(x, rr + (3 as real) * u * rr, y);
    lemma_back_to_square(tt, rr, x, y);
}

/// The square of what lies near a number.
proof fn lemma_near_square(v: real, z: real, e: real)
    requires
        size(v - z) <= e,
        z >= (0 as real),
    ensures
        v * v <= z * z + (2 as real) * (z * e) + e * e,
{
    let d = v - z;
    lemma_product_bound(d, d, e, e);
    lemma_product_bound(z, d, z, e);
    assert(v == z + d);
    lemma_distribute(v, z, d);
    lemma_distribute(z, z, d);
    lemma_distribute(d, z, d);
    lemma_commute(d, z);
    lemma_commute(v, z);
    lemma_commute(v, d);
}

/// The terms of the error of a square.
proof fn lemma_error_terms(z: real, u: real, w: real, top: real)
    requires
        (0 as real) <= z <= top,
        (0 as real) < u <= (1 as real) / (1_000_000 as real),
        w >= (0 as real),
    ensures
        ({
            let e = u * z + w;
            (2 as real) * (z * e) + e * e <= (8 as real) * (u * (z * z)) + (8 as real) * (top * w)
                + (8 as real) * (w * w)
        }),
{
    let e = u * z + w;
    let uz = u * z;
    lemma_positive_product(u, z);
    lemma_distribute(z, uz, w);
    lemma_associate(z, u, z);
    lemma_commute(z, u);
    lemma_associate(u, z, z);
    lemma_scale_order(z, top, w);
    lemma_distribute(e, uz, w);
    lemma_distribute(uz, uz, w);
    lemma_distribute(w, uz, w);
    lemma_commute(e, uz);
    lemma_commute(e, w);
    lemma_commute(w, uz);
    // (u z)(u z) <= u (z z), and u z <= top.
    lemma_scale_order(u, 1 as real, z);
    lemma_scale_order(uz, z, uz);
    assert(uz * z == u * (z * z));
    lemma_scale_order(uz, top, w);
    lemma_positive_product(z, z);
    lemma_positive_product(u, z * z);
    lemma_positive_product(top, w);
    lemma_positive_product(w, w);
}

proof fn lemma_halved_margin(x: real)
    requires
        x >= (0 as real),
    ensures
        margin() * x - margin() / (8 as real) * x - margin() / (8 as real) * x >= margin() / (
        2 as real) * x,
{
    let m = margin();
    assert(m == (8 as real) * (m / (8 as real)));
    assert(m / (2 as real) == (4 as real) * (m / (8 as real)));
    lemma_positive_product(m / (8 as real), x);
    lemma_associate(8 as real, m / (8 as real), x);
    lemma_associate(4 as real, m / (8 as real), x);
}

/// Dividing out the pivot.
proof fn lemma_back_to_square(tt: real, rr: real, x: real, y: real)
    requires
        rr > (0 as real),
        y > (0 as real),
        tt * rr <= ((1 as real) - margin() / (2 as real)) * (x * y),
        x <= rr + (3 as real) * ulp() * rr,
    ensures
        tt <= ((1 as real) - margin() / (4 as real)) * y,
{
    lemma_small_errors();
    let one = 1 as real;
    let k = one - margin() / (2 as real);
    let j = one + (3 as real) * ulp();
    lemma_distribute(rr, one, (3 as real) * ulp());
    assert(x <= j * rr);
    lemma_scale_order(x, j * rr, y);
    lemma_scale_order(x * y, j * rr * y, k);
    // k (j rr y) == (k j y) rr
    lemma_associate(k, j * rr, y);
    lemma_associate(k, j, rr);
    lemma_associate(k * j, rr, y);
    lemma_commute(rr, y);
    lemma_associate(k * j, y, rr);
    assert(tt * rr <= k * j * y * rr);
    lemma_cancel_order(tt, k * j * y, rr);
    lemma_distribute(k, one, (3 as real) * ulp());
    lemma_scale_order(k, one, (3 as real) * ulp());
    assert(k * j <= one - margin() / (4 as real));
    lemma_scale_order(k * j, one - margin() / (4 as real), y);
}

/// A matrix of two rows factors where the product of its diagonal exceeds the square of its
/// lower entry.
proof fn lemma_two_rows_factor(a: Seq<Seq<Double>>)
    requires
        a.len() == 2,
        a[0].len() == 2,
        a[1].len() == 2,
        pivotal(a[0][0]),
        pivotal(a[1][1]),
        a[1][0].finite(),
        (0 as real) <= exact(a[1][0]),
        exact(a[1][0]) * exact(a[1][0]) <= ((1 as real) - margin()) * (exact(a[0][0]) * exact(
            a[1][1],
        )),
    ensures
        factors(a),
{
    lemma_small_errors();
    lemma_one();
    let one = 1 as real;
    let d = a[1][1];
    let y = exact(d);
    lemma_exact_order(a[0][0], fzero());
    lemma_lower_square(a[0][0], a[1][0], d);
    let l = froot(a[0][0]);
    let t = fdiv(a[1][0], l);
    assert(residual(a, 0, 0, 0) == a[0][0]);
    assert(factor(a, 0, 0) == l);
    assert(residual(a, 1, 0, 0) == a[1][0]);
    assert(factor(a, 1, 0) == t);
    assert(residual(a, 1, 1, 0) == d);
    assert(residual(a, 1, 1, 1) == fsub(d, fmul(t, t)));
    lemma_exact_order(l, l);
    lemma_exact_order(l, fzero());
    lemma_exact_order(fzero(), l);
    let tt = exact(t) * exact(t);
    crate::reals::lemma_positive_square(exact(t));
    lemma_distribute(y, one, margin() / (4 as real));
    lemma_positive_product(margin() / (4 as real), y);
    assert(tt <= y);
    lemma_product_error(t, t);
    let p = exact(fmul(t, t));
    lemma_scale_order(tt, y, ulp());
    let low = one / (0x20_0000 as real);
    lemma_scale_order(ulp(), margin() / (16 as real), y);
    lemma_scale_order(low, y, margin() / (4 as real));
    assert(tiny() <= margin() / (16 as real) * y) by {
        lemma_scale_order(low, y, margin() / (16 as real));
        lemma_scale_order(ulp(), one / (0x10_0000_0000_0000 as real), ulp());
    }
    assert(margin() / (4 as real) * y == (4 as real) * (margin() / (16 as real) * y)) by {
        lemma_associate(4 as real, margin() / (16 as real), y);
    }
    lemma_positive_product(margin() / (16 as real), y);
    assert(p < y);
    let v = y - p;
    assert(size(v) <= limit());
    lemma_difference_error(d, fmul(t, t));
    lemma_scale_order(ulp(), one / (1_000_000 as real), v);
    lemma_exact_order(fsub(d, fmul(t, t)), fzero());
    assert forall|i: int, j: int| 0 <= j <= i < a.len() implies #[trigger] passes(a, i, j) by {
        if i == 0 {
            assert(passes(a, 0, 0));
        } else if j == 0 {
            assert(passes(a, 1, 0));
        } else {
            assert(passes(a, 1, 1));
        }
    }
    assert forall|i: int| 0 <= i < a.len() implies (#[trigger] a[i]).len() == a.len() by {
        if i == 0 {
            assert(a[0].len() == 2);
        } else {
            assert(a[1].len() == 2);
        }
    }
}

/// The inverse of a weight is what a diagonal entry holds.
proof fn lemma_diagonal_near(x: real, g: real)
    requires
        x >= (0 as real),
        g > (0 as real),
        close(x * x * (g * g), 1 as real, 56 as real),
    ensures
        (1 as real) - (56 as real) * ulp() <= x * g <= (1 as real) + (56 as real) * ulp(),
{
    lemma_small_errors();
    let one = 1 as real;
    let e = (56 as real) * ulp();
    let y = x * g;
    lemma_positive_product(x, g);
    assert(x * x * (g * g) == y * y) by {
        lemma_associate(x, x, g * g);
        lemma_associate(x, g, g);
        lemma_commute(x, g);
        lemma_associate(g, x, g);
        lemma_associate(x, g, x * g);
    }
    assert((56 as real) * ulp() * one == e);
    lemma_distribute(one - e, one, e);
    lemma_distribute(one + e, one, e);
    lemma_positive_product(e, one - e);
    lemma_positive_product(e, one + e);
    lemma_commute(e, one - e);
    lemma_commute(e, one + e);
    if y < one - e {
        lemma_scale_order(y, one - e, y);
        lemma_scale_order(y, one - e, one - e);
        lemma_scale_order(one - e, one, one - e);
    }
    if y > one + e {
        lemma_scale_order(one + e, y, y);
        lemma_scale_order(one + e, y, one + e);
        lemma_scale_order(one, one + e, one + e);
    }
}

/// Two channels whose correlation is taken to be less than one, and not among the smallest
/// numbers, are weighted by what solves their discounted system against ones: the matrix always
/// factors, and nothing falls back to the discrimination weights.
pub proof fn lemma_two_channels_are_discounted(
    g: Map<Seq<char>, Double>,
    redundancy: Map<(Seq<char>, Seq<char>), PairBaseline>,
    keys: Seq<Seq<char>>,
    cfg: CouplingConfig,
)
    requires
        coupling_in_range(cfg),
        keys.len() == 2,
        forall|i: int|
            0 <= i < keys.len() ==> g.contains_key(#[trigger] keys[i]) && moderate(g[keys[i]]),
        !pair_counts(redundancy, keys[1], keys[0], cfg) || (2 as real) * least()
            <= taken_correlation(redundancy, keys[1], keys[0], cfg) <= (1 as real) - (1 as real) / (
        0x4_0000 as real),
    ensures
        exists|sigma: Seq<Seq<Double>>, x: Seq<Double>|
            #![trigger describes(sigma, g, redundancy, keys, cfg), shared_out(x, coupled(g, redundancy, keys, cfg))]
            {
                &&& describes(sigma, g, redundancy, keys, cfg)
                &&& x.len() == keys.len()
                &&& solves_ones(sigma, x)
                &&& shared_out(x, coupled(g, redundancy, keys, cfg))
            },
{
    lemma_weights_solve_the_discounted_system(g, redundancy, keys, cfg);
    let (sigma, x) = choose|sigma: Seq<Seq<Double>>, x: Seq<Double>|
        #![trigger describes(sigma, g, redundancy, keys, cfg), shared_out(x, coupled(g, redundancy, keys, cfg))]
        {
            &&& describes(sigma, g, redundancy, keys, cfg)
            &&& x.len() == keys.len()
            &&& factors(sigma) ==> solves_ones(sigma, x)
            &&& !factors(sigma) ==> forall|i: int|
                0 <= i < keys.len() ==> #[trigger] x[i] == g[keys[i]]
            &&& shared_out(x, coupled(g, redundancy, keys, cfg))
        };
    assert(moderate(g[keys[0]]) && moderate(g[keys[1]]));
    assert(sigma[0].len() == 2 && sigma[1].len() == 2);
    let g0 = exact(g[keys[0]]);
    let g1 = exact(g[keys[1]]);
    assert(covaries(sigma[0][0], 1 as real, g0, g0));
    assert(covaries(sigma[1][1], 1 as real, g1, g1));
    let c = taken_correlation(redundancy, keys[1], keys[0], cfg);
    assert(covaries(sigma[1][0], c, g1, g0));
    lemma_least();
    lemma_pivots(sigma[0][0], sigma[1][1], sigma[1][0], g0, g1, c);
    lemma_two_rows_factor(sigma);
}

/// The entries of the matrix of two channels.
proof fn lemma_pivots(a: Double, d: Double, b: Double, g: real, h: real, c: real)
    requires
        (1 as real) / (0x10_0000 as real) <= g <= (0x10_0000 as real),
        (1 as real) / (0x10_0000 as real) <= h <= (0x10_0000 as real),
        (2 as real) * least() <= (1 as real),
        covaries(a, 1 as real, g, g),
        covaries(d, 1 as real, h, h),
        covaries(b, c, h, g),
        exact(b) == (0 as real) || (2 as real) * least() <= c,
        c <= (1 as real) - (1 as real) / (0x4_0000 as real),
        (0 as real) < least(),
    ensures
        pivotal(a),
        pivotal(d),
        exact(b) * exact(b) <= ((1 as real) - margin()) * (exact(a) * exact(d)),
{
    lemma_small_errors();
    let one = 1 as real;
    let u = ulp();
    let x = exact(a);
    let y = exact(d);
    let z = exact(b);
    assert(one * one == one);
    lemma_diagonal_near(x, g);
    lemma_diagonal_near(y, h);
    lemma_pivot_sized(x, g);
    lemma_pivot_sized(y, h);
    let xg = x * g;
    let yh = y * h;
    let low = one - (56 as real) * u;
    lemma_scale_order(low, xg, low);
    lemma_scale_order(low, yh, xg);
    lemma_distribute(low, one, (56 as real) * u);
    lemma_scale_order(low, one, (56 as real) * u);
    let gh = h * g;
    lemma_positive_product(h, g);
    let xy = x * y;
    assert(xy * gh == xg * yh) by {
        lemma_associate(xy, h, g);
        lemma_associate(x, y, h);
        lemma_associate(x, yh, g);
        lemma_commute(yh, g);
        lemma_associate(x, g, yh);
    }
    assert(xy * gh >= one - (112 as real) * u);
    let zz = z * z;
    let k = one - margin();
    if z == (0 as real) {
        assert(zz == (0 as real));
        lemma_positive_product(x, y);
        lemma_positive_product(k, xy);
    } else {
        lemma_scale_order(c, one, c);
        let cc = c * c;
        assert(cc <= one - one / (0x4_0000 as real));
        lemma_positive_product(c, c);
        lemma_scale_order(cc, one, (56 as real) * u);
        assert(zz * gh <= cc + (56 as real) * u * cc);
        assert((56 as real) * u * cc <= (56 as real) * u);
        lemma_scale_order(one - (112 as real) * u, xy * gh, k);
        lemma_associate(k, xy, gh);
        lemma_distribute(k, one, (112 as real) * u);
        lemma_scale_order(k, one, (112 as real) * u);
        assert(zz * gh <= k * xy * gh);
        lemma_cancel_order(zz, k * xy, gh);
    }
}

proof fn lemma_pivot_sized(x: real, g: real)
    requires
        (1 as real) / (0x10_0000 as real) <= g <= (0x10_0000 as real),
        x >= (0 as real),
        (1 as real) - (56 as real) * ulp() <= x * g <= (1 as real) + (56 as real) * ulp(),
    ensures
        (1 as real) / (0x20_0000 as real) <= x <= (0x20_0000 as real),
{
    lemma_small_errors();
    let one = 1 as real;
    let m = 0x10_0000 as real;
    lemma_scale_order(g, m, x);
    lemma_scale_order(one / m, g, x);
}

} // verus!
