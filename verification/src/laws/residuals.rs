//! Laws of the factorization and of the systems that it solves: how far the factor times its
//! transpose lies from the matrix, and the matrix times the solution from the right-hand side.
use crate::double::{fadd, fdiv, fmul, fsub, fzero, Double};
use crate::exact::lemma_one;
use crate::precision::{
    exact, lemma_difference_error, lemma_exact_order, lemma_product_error, lemma_quotient_error,
    lemma_root_error, lemma_small_errors, size, tiny, ulp,
};
use crate::reals::{
    lemma_associate, lemma_commute, lemma_distribute, lemma_positive_product, lemma_product_bound,
    lemma_quotient_back, lemma_scale_order,
};
use crate::weighting::linalg::{factor, factors, passes, residual};
use vstd::prelude::*;

verus! {

/// What is left of a number after the first `k` products have been taken from it.
pub open spec fn chain(
    start: Double,
    x: spec_fn(int) -> Double,
    y: spec_fn(int) -> Double,
    k: int,
) -> Double
    decreases k,
{
    if k <= 0 {
        start
    } else {
        fsub(chain(start, x, y, k - 1), fmul(x(k - 1), y(k - 1)))
    }
}

/// The exact sum of the first `k` products.
pub open spec fn dot(x: spec_fn(int) -> Double, y: spec_fn(int) -> Double, k: int) -> real
    decreases k,
{
    if k <= 0 {
        0 as real
    } else {
        dot(x, y, k - 1) + exact(x(k - 1)) * exact(y(k - 1))
    }
}

/// The exact sum of the sizes of the first `k` products.
pub open spec fn heft(x: spec_fn(int) -> Double, y: spec_fn(int) -> Double, k: int) -> real
    decreases k,
{
    if k <= 0 {
        0 as real
    } else {
        heft(x, y, k - 1) + size(exact(x(k - 1)) * exact(y(k - 1)))
    }
}

/// How far `k` roundings move a sum whose terms have the given size in all.
pub open spec fn drift_of(k: int, weight: real) -> real {
    (4 as real) * ((k as real) * (ulp() * weight)) + (2 as real) * ((k as real) * tiny())
}

/// A difference is finite only where both numbers are.
pub proof fn lemma_finite_difference(x: Double, y: Double)
    requires
        fsub(x, y).finite(),
    ensures
        x.finite(),
        y.finite(),
{
    reveal(fadd);
}

/// A product is finite only where both numbers are.
pub proof fn lemma_finite_product(x: Double, y: Double)
    requires
        fmul(x, y).finite(),
    ensures
        x.finite(),
        y.finite(),
{
    reveal(fmul);
}

/// A quotient by a finite number is finite only where the other is and this is not nought.
pub proof fn lemma_finite_quotient(x: Double, y: Double)
    requires
        fdiv(x, y).finite(),
        y.finite(),
    ensures
        x.finite(),
        !y.vanishes(),
{
    reveal(fdiv);
}

/// The sums of sizes only grow.
pub proof fn lemma_heft_grows(x: spec_fn(int) -> Double, y: spec_fn(int) -> Double, k: int)
    ensures
        (0 as real) <= heft(x, y, k),
        size(dot(x, y, k)) <= heft(x, y, k),
    decreases k,
{
    if k > 0 {
        lemma_heft_grows(x, y, k - 1);
    }
}

/// The drift of one rounding more.
proof fn lemma_drift_step(k: int, before: real, weight: real)
    requires
        0 < k,
        (0 as real) <= before <= weight,
    ensures
        drift_of(k - 1, before) + (4 as real) * (ulp() * weight) + (2 as real) * tiny() <= drift_of(
            k,
            weight,
        ),
{
    lemma_small_errors();
    let u = ulp();
    let j = (k - 1) as real;
    let one = 1 as real;
    assert(k as real == j + one);
    lemma_scale_order(before, weight, u);
    lemma_scale_order(u * before, u * weight, j);
    lemma_distribute(u * weight, j, one);
    lemma_distribute(tiny(), j, one);
}

/// The drift of few roundings is small.
proof fn lemma_drift_small(k: int, weight: real)
    requires
        0 <= k <= 0x100_0000_0000,
        (0 as real) <= weight,
    ensures
        (0 as real) <= drift_of(k, weight) <= weight / (1000 as real) + (2 as real) * ((k as real)
            * tiny()),
        (0 as real) <= (k as real) * tiny(),
        ulp() * ((k as real) * tiny()) <= tiny() / (8 as real),
{
    lemma_small_errors();
    let u = ulp();
    let kr = k as real;
    let top = 0x100_0000_0000int as real;
    lemma_positive_product(u, weight);
    lemma_positive_product(kr, u * weight);
    lemma_positive_product(kr, tiny());
    lemma_scale_order(kr, top, u * weight);
    lemma_associate(top, u, weight);
    lemma_scale_order(top * u, (1 as real) / (8000 as real), weight);
    lemma_associate(u, kr, tiny());
    lemma_scale_order(kr, top, u);
    lemma_scale_order(u * kr, (1 as real) / (8 as real), tiny());
}

/// One product more, taken with rounding.
proof fn lemma_drift_next(
    k: int,
    start: real,
    sum: real,
    heft: real,
    left: real,
    term: real,
    product: real,
    next: real,
)
    requires
        0 < k <= 0x100_0000_0000,
        size(sum) <= heft,
        size(left - (start - sum)) <= drift_of(k - 1, size(start) + heft),
        size(product - term) <= ulp() * size(term) + tiny(),
        size(next - (left - product)) <= ulp() * size(left - product),
    ensures
        size(next - (start - (sum + term))) <= drift_of(k, size(start) + (heft + size(term))),
{
    lemma_small_errors();
    let u = ulp();
    let w = tiny();
    let one = 1 as real;
    let before = size(start) + heft;
    let weight = size(start) + (heft + size(term));
    lemma_drift_small(k - 1, before);
    lemma_scale_order(u, one / (1000 as real), size(term));
    let v = left - product;
    let kw = ((k - 1) as real) * w;
    let rest = (2 as real) * kw + w;
    assert(size(v) <= (2 as real) * weight + rest);
    lemma_scale_order(size(v), (2 as real) * weight + rest, u);
    lemma_distribute(u, (2 as real) * weight, rest);
    lemma_distribute(u, (2 as real) * kw, w);
    lemma_chain_step(u, weight);
    lemma_chain_step(u, kw);
    lemma_scale_order(u, one / (8 as real), w);
    lemma_scale_order(size(term), weight, u);
    lemma_drift_step(k, before, weight);
}

/// Taking products from a number one after another leaves what taking them at once does, up to
/// the drift.
pub proof fn lemma_chain_near(
    start: Double,
    x: spec_fn(int) -> Double,
    y: spec_fn(int) -> Double,
    k: int,
)
    requires
        0 <= k <= 0x100_0000_0000,
        chain(start, x, y, k).finite(),
    ensures
        start.finite(),
        forall|m: int| 0 <= m < k ==> (#[trigger] x(m)).finite(),
        forall|m: int| 0 <= m < k ==> (#[trigger] y(m)).finite(),
        size(exact(chain(start, x, y, k)) - (exact(start) - dot(x, y, k))) <= drift_of(
            k,
            size(exact(start)) + heft(x, y, k),
        ),
    decreases k,
{
    lemma_small_errors();
    if k > 0 {
        let r = chain(start, x, y, k - 1);
        let a = x(k - 1);
        let b = y(k - 1);
        let p = fmul(a, b);
        lemma_finite_difference(r, p);
        lemma_finite_product(a, b);
        lemma_chain_near(start, x, y, k - 1);
        lemma_heft_grows(x, y, k - 1);
        lemma_product_error(a, b);
        lemma_difference_error(r, p);
        lemma_drift_next(
            k,
            exact(start),
            dot(x, y, k - 1),
            heft(x, y, k - 1),
            exact(r),
            exact(a) * exact(b),
            exact(p),
            exact(fsub(r, p)),
        );
    } else {
        lemma_drift_small(0, size(exact(start)));
    }
}

proof fn lemma_chain_step(u: real, weight: real)
    ensures
        u * ((2 as real) * weight) == (2 as real) * (u * weight),
{
    lemma_associate(u, 2 as real, weight);
    lemma_commute(u, 2 as real);
    lemma_associate(2 as real, u, weight);
}

/// The last number of a chain is the quotient of what is left: then all products, this one
/// with them, sum to the start, up to the drift.
pub proof fn lemma_divided(
    start: Double,
    x: spec_fn(int) -> Double,
    y: spec_fn(int) -> Double,
    k: int,
)
    requires
        0 <= k < 0x100_0000_0000,
        y(k) == fdiv(chain(start, x, y, k), x(k)),
        y(k).finite(),
        x(k).finite(),
    ensures
        start.finite(),
        forall|m: int| 0 <= m <= k ==> (#[trigger] x(m)).finite(),
        forall|m: int| 0 <= m <= k ==> (#[trigger] y(m)).finite(),
        size(exact(start) - dot(x, y, k + 1)) <= drift_of(
            k + 1,
            size(exact(start)) + heft(x, y, k + 1),
        ) + tiny() * size(exact(x(k))),
{
    lemma_small_errors();
    let left = chain(start, x, y, k);
    lemma_finite_quotient(left, x(k));
    lemma_chain_near(start, x, y, k);
    lemma_heft_grows(x, y, k);
    lemma_quotient_error(left, x(k));
    let p = exact(x(k));
    let r = exact(left);
    lemma_exact_order(x(k), x(k));
    lemma_times_back(exact(y(k)), r, p);
    lemma_divided_step(
        k,
        exact(start),
        dot(x, y, k),
        heft(x, y, k),
        r,
        p * exact(y(k)),
        tiny() * size(p),
    );
}

/// A rounded quotient, multiplied back.
proof fn lemma_times_back(q: real, r: real, p: real)
    requires
        p != (0 as real),
        size(q - r / p) <= ulp() * size(r / p) + tiny(),
    ensures
        size(p * q - r) <= ulp() * size(r) + tiny() * size(p),
{
    lemma_small_errors();
    let t = r / p;
    let zero = 0 as real;
    let u = ulp();
    if p > zero {
        lemma_quotient_back(r, p);
    } else {
        lemma_quotient_back(-r, -p);
        lemma_same_quotient(r, p);
        lemma_distribute(t, zero, p);
        assert(t * zero == zero);
    }
    assert(t * p == r);
    let e = u * size(t) + tiny();
    lemma_product_bound(q - t, p, e, size(p));
    lemma_distribute(p, q, t);
    lemma_commute(p, q);
    lemma_commute(p, t);
    lemma_distribute(size(p), u * size(t), tiny());
    lemma_associate(u, size(t), size(p));
    lemma_sizes_multiply(t, p);
}

proof fn lemma_same_quotient(r: real, p: real)
    requires
        p < (0 as real),
    ensures
        (-r) / (-p) == r / p,
{
    assert((-r) / (-p) == r / p) by (nonlinear_arith)
        requires
            p < (0 as real),
    ;
}

pub proof fn lemma_sizes_multiply(x: real, y: real)
    ensures
        size(x) * size(y) == size(x * y),
{
    let zero = 0 as real;
    lemma_distribute(y, zero, x);
    lemma_distribute(x, zero, y);
    lemma_distribute(-x, zero, y);
    assert(zero * y == zero && x * zero == zero && (-x) * zero == zero);
    assert((-x) * y == -(x * y));
    assert(x * (-y) == -(x * y));
    assert((-x) * (-y) == x * y);
    lemma_positive_product(x, y);
    lemma_positive_product(-x, y);
    lemma_positive_product(x, -y);
    lemma_positive_product(-x, -y);
}

proof fn lemma_divided_step(
    k: int,
    start: real,
    sum: real,
    heft: real,
    left: real,
    term: real,
    rest: real,
)
    requires
        0 <= k < 0x100_0000_0000,
        size(sum) <= heft,
        size(left - (start - sum)) <= drift_of(k, size(start) + heft),
        size(term - left) <= ulp() * size(left) + rest,
    ensures
        size(start - (sum + term)) <= drift_of(k + 1, size(start) + (heft + size(term))) + rest,
{
    lemma_small_errors();
    let u = ulp();
    let w = tiny();
    let before = size(start) + heft;
    let weight = size(start) + (heft + size(term));
    lemma_drift_small(k, before);
    let kw = (k as real) * w;
    let more = (2 as real) * kw;
    assert(size(left) <= (2 as real) * before + more);
    lemma_scale_order(size(left), (2 as real) * before + more, u);
    lemma_distribute(u, (2 as real) * before, more);
    lemma_chain_step(u, before);
    lemma_chain_step(u, kw);
    lemma_scale_order(before, weight, u);
    lemma_drift_step(k + 1, before, weight);
}

/// A row of a factor.
pub open spec fn row(a: Seq<Seq<Double>>, i: int) -> spec_fn(int) -> Double {
    |m: int| factor(a, i, m)
}

/// What is left of an entry is a chain.
proof fn lemma_residual_chain(a: Seq<Seq<Double>>, i: int, j: int, k: int)
    requires
        0 <= k <= j <= i,
    ensures
        residual(a, i, j, k) == chain(a[i][j], row(a, j), row(a, i), k),
    decreases k,
{
    if k > 0 {
        lemma_residual_chain(a, i, j, k - 1);
        crate::double::lemma_mul_commutes(factor(a, i, k - 1), factor(a, j, k - 1));
    }
}

/// The pivots of a matrix that factors are positive, and its factor is finite.
pub proof fn lemma_factor_finite(a: Seq<Seq<Double>>, i: int, j: int)
    requires
        factors(a),
        0 <= j <= i < a.len() <= 0x100_0000_0000,
    ensures
        factor(a, i, j).finite(),
        residual(a, i, i, i).finite(),
        exact(residual(a, i, i, i)) > (0 as real),
        exact(factor(a, i, i)) > (0 as real),
{
    lemma_one();
    assert(passes(a, i, i));
    let r = residual(a, i, i, i);
    lemma_exact_order(r, fzero());
    lemma_root_error(r);
    lemma_residual_chain(a, i, i, i);
    lemma_chain_near(a[i][i], row(a, i), row(a, i), i);
    if j < i {
        assert(row(a, i)(j).finite());
    }
}

/// How far rounding moves an entry of a factorization.
pub open spec fn factor_drift(a: Seq<Seq<Double>>, i: int, j: int) -> real {
    drift_of(j + 1, size(exact(a[i][j])) + heft(row(a, j), row(a, i), j + 1)) + tiny() * size(
        exact(factor(a, j, j)),
    )
}

/// The factor times its transpose gives the lower triangle of the matrix back, up to rounding:
/// so many relative errors of the entry and the products that make it up.
pub proof fn lemma_factor_gives_matrix(a: Seq<Seq<Double>>, i: int, j: int)
    requires
        factors(a),
        0 <= j <= i < a.len() <= 0x100_0000_0000,
    ensures
        factor(a, i, j).finite(),
        exact(factor(a, j, j)) > (0 as real),
        size(exact(a[i][j]) - dot(row(a, j), row(a, i), j + 1)) <= factor_drift(a, i, j),
{
    lemma_small_errors();
    lemma_factor_finite(a, i, j);
    lemma_factor_finite(a, j, j);
    lemma_residual_chain(a, i, j, j);
    let x = row(a, j);
    let y = row(a, i);
    if j < i {
        lemma_divided(a[i][j], x, y, j);
    } else {
        let r = residual(a, i, i, i);
        lemma_root_error(r);
        let l = exact(factor(a, i, i));
        lemma_chain_near(a[i][i], x, x, i);
        lemma_heft_grows(x, x, i);
        lemma_positive_product(l, l);
        lemma_rooted_step(i, exact(a[i][i]), dot(x, x, i), heft(x, x, i), exact(r), l * l);
        lemma_positive_product(tiny(), l);
    }
}

proof fn lemma_rooted_step(k: int, start: real, sum: real, heft: real, left: real, term: real)
    requires
        0 <= k < 0x100_0000_0000,
        size(sum) <= heft,
        (0 as real) <= term,
        size(left - (start - sum)) <= drift_of(k, size(start) + heft),
        size(term - left) <= (3 as real) * ulp() * term,
    ensures
        size(start - (sum + term)) <= drift_of(k + 1, size(start) + (heft + size(term))),
{
    lemma_small_errors();
    let u = ulp();
    let before = size(start) + heft;
    let weight = size(start) + (heft + size(term));
    lemma_associate(3 as real, u, term);
    lemma_scale_order(term, weight, u);
    lemma_drift_step(k + 1, before, weight);
}

} // verus!
