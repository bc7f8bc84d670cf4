//! Facts about real numbers.
use crate::precision::size;
use vstd::prelude::*;

verus! {

pub proof fn lemma_distribute(a: real, b: real, c: real)
    ensures
        a * (b + c) == a * b + a * c,
        a * (b - c) == a * b - a * c,
        (b + c) * a == b * a + c * a,
        (b - c) * a == b * a - c * a,
{
    assert(a * (b + c) == a * b + a * c) by (nonlinear_arith);
    assert(a * (b - c) == a * b - a * c) by (nonlinear_arith);
    assert((b + c) * a == b * a + c * a) by (nonlinear_arith);
    assert((b - c) * a == b * a - c * a) by (nonlinear_arith);
}

pub proof fn lemma_commute(a: real, b: real)
    ensures
        a * b == b * a,
{
    assert(a * b == b * a) by (nonlinear_arith);
}

pub proof fn lemma_associate(a: real, b: real, c: real)
    ensures
        a * (b * c) == a * b * c,
{
    assert(a * (b * c) == a * b * c) by (nonlinear_arith);
}

pub proof fn lemma_positive_product(x: real, y: real)
    ensures
        x > (0 as real) && y > (0 as real) ==> x * y > (0 as real),
        x >= (0 as real) && y >= (0 as real) ==> x * y >= (0 as real),
{
    assert(x > (0 as real) && y > (0 as real) ==> x * y > (0 as real)) by (nonlinear_arith);
    assert(x >= (0 as real) && y >= (0 as real) ==> x * y >= (0 as real)) by (nonlinear_arith);
}

pub proof fn lemma_positive_square(x: real)
    ensures
        x * x >= (0 as real),
{
    assert(x * x >= (0 as real)) by (nonlinear_arith);
}

/// Multiplying by a number that is not negative keeps the order.
pub proof fn lemma_scale_order(x: real, y: real, z: real)
    requires
        x <= y,
        (0 as real) <= z,
    ensures
        x * z <= y * z,
        z * x <= z * y,
{
    lemma_distribute(z, y, x);
    lemma_positive_product(y - x, z);
    lemma_positive_product(z, y - x);
}

/// A product is bounded by the product of the bounds.
pub proof fn lemma_product_bound(x: real, y: real, a: real, b: real)
    requires
        size(x) <= a,
        size(y) <= b,
    ensures
        size(x * y) <= a * b,
        a >= (0 as real),
        b >= (0 as real),
        a * b >= (0 as real),
{
    assert(-(a * b) <= x * y <= a * b && a * b >= (0 as real)) by (nonlinear_arith)
        requires
            -a <= x <= a,
            -b <= y <= b,
    ;
}

pub proof fn lemma_quotient_back(x: real, y: real)
    requires
        y > (0 as real),
    ensures
        x / y * y == x,
{
    assert(x / y * y == x) by (nonlinear_arith)
        requires
            y > (0 as real),
    ;
}

pub proof fn lemma_cancel(x: real, y: real, z: real)
    requires
        x * z == y * z,
        z > (0 as real),
    ensures
        x == y,
{
    lemma_distribute(z, y, x);
    lemma_distribute(z, x, y);
    lemma_positive_product(y - x, z);
    lemma_positive_product(x - y, z);
}

/// A squared sum over its count is the mean times the sum.
pub proof fn lemma_square_share(a: real, s: real, n: real)
    requires
        a * n == s,
        n > (0 as real),
    ensures
        s * s / n == a * s,
{
    lemma_quotient_back(s * s, n);
    // a * s * n == (a * n) * s
    lemma_associate(a, s, n);
    lemma_commute(s, n);
    lemma_associate(a, n, s);
    lemma_cancel(s * s / n, a * s, n);
}

/// The share of the second part in both, and the weight of the squared gap.
pub proof fn lemma_share_of_two(n1: real, n2: real, x: real, k: real)
    requires
        n1 > (0 as real),
        n2 > (0 as real),
        x * (n1 + n2) == n2,
        k == n1 * x,
    ensures
        n2 == k + x * n2,
        (0 as real) < x < (1 as real),
        (0 as real) < k,
        n1 <= (2 as real) * k || n2 <= (2 as real) * k,
        k <= n1,
        k <= n2,
{
    let n = n1 + n2;
    let half = (1 as real) / (2 as real);
    let one = 1 as real;
    lemma_distribute(x, n1, n2);
    lemma_commute(n1, x);
    // Above zero and below one.
    if x <= (0 as real) {
        lemma_scale_order(x, 0 as real, n);
    }
    if x >= one {
        lemma_scale_order(one, x, n);
    }
    lemma_positive_product(x, n1);
    lemma_positive_product(x, n2);
    lemma_scale_order(x, one, n1);
    // The smaller part has at most half of both.
    lemma_distribute(n, half, half);
    if n1 <= n2 {
        if x < half {
            lemma_positive_product(half - x, n);
            lemma_distribute(n, half, x);
        }
        lemma_scale_order(half, x, n1);
    } else {
        if x > half {
            lemma_positive_product(x - half, n);
            lemma_distribute(n, x, half);
        }
        lemma_scale_order(x, half, n2);
    }
}

/// Steiner's identity for two parts.
pub proof fn lemma_steiner(a: real, b: real, n1: real, n2: real, x: real, k: real)
    requires
        x * (n1 + n2) == n2,
        n2 == k + x * n2,
    ensures
        ({
            let gap = b - a;
            let c = a + gap * x;
            let s = a * n1 + b * n2;
            &&& c * (n1 + n2) == s
            &&& a * (a * n1) + b * (b * n2) - c * s == gap * gap * k
        }),
{
    let gap = b - a;
    let n = n1 + n2;
    let c = a + gap * x;
    let s = a * n1 + b * n2;
    let gx = gap * x;
    // c * n == a * n + gap * (x * n) == a * n + gap * n2
    lemma_distribute(n, a, gx);
    lemma_associate(gap, x, n);
    lemma_distribute(a, n1, n2);
    lemma_distribute(n2, b, a);
    assert(c * n == s);
    // The squares over the sum.
    lemma_distribute(s, a, gx);
    lemma_distribute(a, a * n1, b * n2);
    lemma_distribute(b * n2, b, a);
    assert(a * (a * n1) + b * (b * n2) - c * s == gap * (b * n2) - gx * s);
    // gx * s == gap * (x * s), and x * s == c * n2
    lemma_associate(gap, x, s);
    lemma_commute(x, s);
    lemma_associate(c, n, x);
    lemma_commute(n, x);
    assert(x * s == c * n2);
    lemma_distribute(gap, b * n2, c * n2);
    lemma_distribute(n2, b, c);
    // b - c == gap * (1 - x)
    assert(b - c == gap - gx);
    lemma_distribute(n2, gap, gx);
    lemma_associate(gap, x, n2);
    lemma_distribute(gap, n2, x * n2);
    assert((b - c) * n2 == gap * k);
    lemma_associate(gap, gap, k);
}

/// A mixture of two numbers lies within their bound.
pub proof fn lemma_between(a: real, b: real, x: real, bound: real)
    requires
        size(a) <= bound,
        size(b) <= bound,
        (0 as real) < x < (1 as real),
    ensures
        size(a + (b - a) * x) <= bound,
{
    let y = (1 as real) - x;
    lemma_distribute(x, b, a);
    lemma_distribute(a, 1 as real, x);
    lemma_commute(a, x);
    assert(a + (b - a) * x == y * a + b * x);
    lemma_scale_order(a, bound, y);
    lemma_scale_order(-bound, a, y);
    lemma_scale_order(b, bound, x);
    lemma_scale_order(-bound, b, x);
    lemma_distribute(bound, 1 as real, x);
    lemma_distribute(-bound, 1 as real, x);
    lemma_commute(y, bound);
    lemma_commute(y, -bound);
    lemma_commute(bound, x);
    lemma_commute(-bound, x);
}

/// An error in proportion to a number is bounded in proportion to a bound on the number.
pub proof fn lemma_error_scaled(t: real, v: real, top: real, e: real, w: real)
    requires
        size(t) <= e * size(v) + w,
        size(v) <= top,
        (0 as real) <= e,
    ensures
        size(t) <= e * top + w,
{
    lemma_scale_order(size(v), top, e);
}

/// Dividing by a positive number keeps the order.
pub proof fn lemma_cancel_order(x: real, y: real, z: real)
    requires
        x * z <= y * z,
        z > (0 as real),
    ensures
        x <= y,
{
    if x > y {
        lemma_distribute(z, x, y);
        lemma_positive_product(x - y, z);
    }
}

} // verus!
