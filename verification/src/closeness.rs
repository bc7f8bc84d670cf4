//! Relative closeness: a real number within so many rounding errors of another.
use crate::double::{fadd, fdiv, fmul, froot, Double};
use crate::precision::{
    exact, lemma_exact_order, lemma_product_error, lemma_quotient_error,
    lemma_root_error, lemma_small_errors, lemma_sum_error, limit, size, tiny, ulp,
};
use crate::reals::{
    lemma_associate, lemma_cancel_order, lemma_commute, lemma_distribute, lemma_positive_product,
    lemma_quotient_back, lemma_scale_order,
};
use vstd::prelude::*;

verus! {

/// The number `x` is within `k` relative rounding errors of `t`, which is not negative.
pub open spec fn close(x: real, t: real, k: real) -> bool {
    &&& t >= (0 as real)
    &&& k >= (0 as real)
    &&& size(x - t) <= k * ulp() * t
}

/// Closeness in one step, and in two, costs at most one rounding error more than the sum.
pub proof fn lemma_close_chain(x: real, y: real, z: real, j: real, k: real)
    requires
        close(x, y, j),
        close(y, z, k),
        j * k * ulp() <= (1 as real),
    ensures
        close(x, z, j + k + (1 as real)),
{
    lemma_small_errors();
    let u = ulp();
    let ju = j * u;
    let ku = k * u;
    lemma_positive_product(j, u);
    lemma_positive_product(k, u);
    // y <= z + ku * z, so ju * y <= ju * z + ju * (ku * z).
    lemma_scale_order(y, z + ku * z, ju);
    lemma_distribute(ju, z, ku * z);
    lemma_associate(ju, ku, z);
    lemma_associate(ju, k, u);
    lemma_associate(j, u, k);
    lemma_commute(u, k);
    lemma_associate(j, k, u);
    // ju * ku == (j * k * u) * u
    assert(ju * k == j * (u * k));
    assert(j * (u * k) == j * (k * u));
    assert(ju * k == j * k * u);
    let c = j * k * u;
    assert(ju * ku == c * u);
    lemma_scale_order(c, 1 as real, u);
    lemma_scale_order(ju * ku, u, z);
    let one = 1 as real;
    lemma_distribute(u, j + k, one);
    lemma_distribute(u, j, k);
    assert((j + k + one) * u == ju + ku + u);
    lemma_distribute(z, ju + ku, u);
    lemma_distribute(z, ju, ku);
    assert((ju + ku + u) * z == ju * z + ku * z + u * z);
}

/// Closeness is kept when both numbers are scaled.
pub proof fn lemma_close_scaled(x: real, t: real, k: real, s: real)
    requires
        close(x, t, k),
        s >= (0 as real),
    ensures
        close(x * s, t * s, k),
        close(s * x, s * t, k),
{
    let ku = k * ulp();
    let d = ku * t;
    lemma_distribute(s, x, t);
    lemma_commute(s, x);
    lemma_commute(s, t);
    lemma_positive_product(t, s);
    lemma_associate(ku, t, s);
    lemma_scale_order(x - t, d, s);
    lemma_scale_order(-d, x - t, s);
    let zero = 0 as real;
    lemma_distribute(s, zero, d);
    lemma_scale_order(zero, zero, s);
}

/// Closeness of scaled numbers is closeness of the numbers.
pub proof fn lemma_close_unscaled(x: real, t: real, k: real, s: real)
    requires
        close(x * s, t * s, k),
        s > (0 as real),
    ensures
        close(x, t, k),
{
    let ku = k * ulp();
    let d = ku * t;
    let zero = 0 as real;
    lemma_distribute(s, x, t);
    lemma_associate(ku, t, s);
    lemma_scale_order(zero, zero, s);
    lemma_cancel_order(zero, t, s);
    lemma_cancel_order(x - t, d, s);
    lemma_distribute(s, zero, d);
    lemma_cancel_order(-d, x - t, s);
}

/// Closeness costs at most one rounding error more the other way round.
pub proof fn lemma_close_back(x: real, t: real, k: real)
    requires
        close(x, t, k),
        k * (k + (1 as real)) * ulp() <= (1 as real),
    ensures
        close(t, x, k + (1 as real)),
        x >= (0 as real),
{
    lemma_small_errors();
    let u = ulp();
    let one = 1 as real;
    let zero = 0 as real;
    let ku = k * u;
    let k1 = k + one;
    lemma_positive_product(k, u);
    let d = ku * t;
    // x >= t - d, so k1 * x >= k1 * t - k1 * d, and k1 * d <= t.
    lemma_scale_order(t - d, x, k1);
    lemma_distribute(k1, t, d);
    lemma_associate(k1, ku, t);
    lemma_associate(k1, k, u);
    lemma_commute(k1, k);
    lemma_scale_order(k * k1 * u, one, t);
    assert(k1 * d <= t);
    lemma_distribute(t, k, one);
    assert(k1 * t == k * t + t);
    assert(k * t <= k1 * x);
    lemma_scale_order(k * t, k1 * x, u);
    lemma_associate(u, k, t);
    lemma_commute(u, k);
    lemma_associate(u, k1, x);
    lemma_commute(u, k1);
    assert(d <= k1 * u * x);
    lemma_positive_product(k, t);
    lemma_cancel_order(zero, x, k1);
}

/// A number close to another is between its half and its double.
pub proof fn lemma_close_half(x: real, t: real, k: real)
    requires
        close(x, t, k),
        k * ulp() <= (1 as real) / (2 as real),
    ensures
        t <= (2 as real) * x,
        x <= (2 as real) * t,
{
    let half = (1 as real) / (2 as real);
    lemma_scale_order(k * ulp(), half, t);
}

/// Closeness costs at most twice as much the other way round.
pub proof fn lemma_close_reversed(x: real, t: real, k: real)
    requires
        close(x, t, k),
        k * ulp() <= (1 as real) / (2 as real),
    ensures
        close(t, x, (2 as real) * k),
{
    lemma_small_errors();
    lemma_close_half(x, t, k);
    let two = 2 as real;
    let ku = k * ulp();
    lemma_positive_product(k, ulp());
    lemma_scale_order(t, two * x, ku);
    lemma_associate(ku, two, x);
    lemma_commute(ku, two);
    lemma_associate(two, k, ulp());
}

/// More rounding errors are allowed.
pub proof fn lemma_close_more(x: real, t: real, j: real, k: real)
    requires
        close(x, t, j),
        j <= k,
    ensures
        close(x, t, k),
{
    lemma_small_errors();
    lemma_scale_order(j, k, ulp());
    lemma_scale_order(j * ulp(), k * ulp(), t);
}

/// An error of the rounding and one smallest number is two rounding errors of what is not
/// itself among the smallest.
proof fn lemma_two_errors(x: real, t: real)
    requires
        t >= (0 as real),
        tiny() <= ulp() * t,
        size(x - t) <= ulp() * t + tiny(),
    ensures
        close(x, t, 2 as real),
{
    lemma_small_errors();
    let u = ulp();
    let one = 1 as real;
    lemma_distribute(u, one, one);
    assert((2 as real) * u == u + u);
    lemma_distribute(t, u, u);
}

/// A product is within two rounding errors, where it is not among the smallest numbers.
pub proof fn lemma_product_near(x: Double, y: Double)
    requires
        x.finite(),
        y.finite(),
        (0 as real) <= exact(x) * exact(y) <= limit(),
        tiny() <= ulp() * (exact(x) * exact(y)),
    ensures
        fmul(x, y).finite(),
        close(exact(fmul(x, y)), exact(x) * exact(y), 2 as real),
{
    lemma_small_errors();
    lemma_product_error(x, y);
    lemma_two_errors(exact(fmul(x, y)), exact(x) * exact(y));
}

/// A quotient, multiplied back, is within two rounding errors, where it is not among the
/// smallest numbers.
pub proof fn lemma_quotient_near(x: Double, y: Double)
    requires
        x.finite(),
        y.finite(),
        exact(y) > (0 as real),
        (0 as real) <= exact(x) <= limit() * exact(y),
        tiny() * exact(y) <= ulp() * exact(x),
    ensures
        fdiv(x, y).finite(),
        close(exact(fdiv(x, y)) * exact(y), exact(x), 2 as real),
{
    lemma_small_errors();
    let b = exact(y);
    let q = exact(x) / b;
    let zero = 0 as real;
    lemma_exact_order(y, y);
    lemma_quotient_back(exact(x), b);
    assert(zero * b == zero);
    lemma_cancel_order(zero, q, b);
    lemma_cancel_order(q, limit(), b);
    lemma_associate(ulp(), q, b);
    lemma_cancel_order(tiny(), ulp() * q, b);
    lemma_quotient_error(x, y);
    lemma_two_errors(exact(fdiv(x, y)), q);
    lemma_close_scaled(exact(fdiv(x, y)), q, 2 as real, b);
}

/// Closeness in two steps, whatever the first costs.
pub proof fn lemma_close_wide(x: real, y: real, z: real, j: real, k: real)
    requires
        close(x, y, j),
        close(y, z, k),
        k * ulp() <= (1 as real),
    ensures
        close(x, z, (2 as real) * j + k),
{
    lemma_small_errors();
    let u = ulp();
    let ju = j * u;
    let ku = k * u;
    let one = 1 as real;
    let two = 2 as real;
    lemma_positive_product(j, u);
    lemma_scale_order(ku, one, z);
    lemma_scale_order(y, two * z, ju);
    assert(y <= two * z);
    lemma_associate(ju, two, z);
    lemma_commute(ju, two);
    lemma_associate(two, j, u);
    lemma_distribute(u, two * j, k);
    lemma_distribute(z, two * ju, ku);
}

/// Sums of close numbers are close.
pub proof fn lemma_close_sum(x: real, a: real, y: real, b: real, k: real)
    requires
        close(x, a, k),
        close(y, b, k),
    ensures
        close(x + y, a + b, k),
{
    lemma_distribute(k * ulp(), a, b);
}

/// Products of close numbers are close.
pub proof fn lemma_close_product(x: real, a: real, y: real, b: real, j: real, k: real)
    requires
        close(x, a, j),
        close(y, b, k),
        y >= (0 as real),
        k * ulp() <= (1 as real),
    ensures
        close(x * y, a * b, (2 as real) * j + k),
{
    lemma_close_scaled(x, a, j, y);
    lemma_close_scaled(y, b, k, a);
    lemma_close_wide(x * y, a * y, a * b, j, k);
}

/// A product is within two rounding errors, where it is of moderate size.
pub proof fn lemma_product_close(x: Double, y: Double)
    requires
        x.finite(),
        y.finite(),
        ulp() <= exact(x) * exact(y) <= limit(),
    ensures
        fmul(x, y).finite(),
        close(exact(fmul(x, y)), exact(x) * exact(y), 2 as real),
{
    lemma_small_errors();
    lemma_scale_order(ulp(), exact(x) * exact(y), ulp());
    lemma_product_near(x, y);
}

/// A quotient, multiplied back, is within two rounding errors, where it is of moderate size.
pub proof fn lemma_quotient_close(x: Double, y: Double)
    requires
        x.finite(),
        y.finite(),
        exact(y) > (0 as real),
        ulp() * exact(y) <= exact(x) <= limit() * exact(y),
    ensures
        fdiv(x, y).finite(),
        close(exact(fdiv(x, y)) * exact(y), exact(x), 2 as real),
{
    lemma_small_errors();
    let b = exact(y);
    lemma_positive_product(ulp(), b);
    lemma_scale_order(ulp() * b, exact(x), ulp());
    lemma_associate(ulp(), ulp(), b);
    lemma_scale_order(tiny(), ulp() * ulp(), b);
    lemma_quotient_near(x, y);
}

/// A sum is within one rounding error.
pub proof fn lemma_sum_close(x: Double, y: Double)
    requires
        x.finite(),
        y.finite(),
        (0 as real) <= exact(x) + exact(y) <= limit(),
    ensures
        fadd(x, y).finite(),
        close(exact(fadd(x, y)), exact(x) + exact(y), 1 as real),
{
    lemma_sum_error(x, y);
    let one = 1 as real;
    assert(one * ulp() == ulp());
}

/// A positive number whose square is between two squares is between their roots.
proof fn lemma_square_order(r: real, low: real, high: real)
    requires
        r > (0 as real),
        low > (0 as real),
        high > (0 as real),
        low * low <= r * r <= high * high,
    ensures
        low <= r <= high,
{
    if r > high {
        lemma_positive_product(r - high, high);
        lemma_positive_product(r - high, r);
        lemma_distribute(high, r, high);
        lemma_distribute(r, r, high);
        lemma_commute(high, r);
    }
    if r < low {
        lemma_positive_product(low - r, low);
        lemma_positive_product(low - r, r);
        lemma_distribute(low, low, r);
        lemma_distribute(r, low, r);
        lemma_commute(low, r);
    }
}

/// The root of a number of moderate size is of moderate size, and its square is close to
/// the number.
pub proof fn lemma_root_close(x: Double)
    requires
        x.finite(),
        (1 as real) / (0x40_0000 as real) <= exact(x) <= (0x40_0000 as real),
    ensures
        froot(x).finite(),
        !froot(x).negative(),
        (1 as real) / (0x1000 as real) <= exact(froot(x)) <= (0x1000 as real),
        close(exact(x), exact(froot(x)) * exact(froot(x)), 3 as real),
{
    lemma_small_errors();
    lemma_root_error(x);
    let r = exact(froot(x));
    lemma_positive_product(r, r);
    lemma_close_half(exact(x), r * r, 3 as real);
    let low = (1 as real) / (0x1000 as real);
    let high = 0x1000 as real;
    assert(low * low == (1 as real) / (0x100_0000 as real));
    assert(high * high == (0x100_0000 as real));
    lemma_square_order(r, low, high);
}

} // verus!
