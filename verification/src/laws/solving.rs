//! Laws of the systems that a factorization solves: the matrix times the solution gives the
//! right-hand side, up to rounding.
use crate::double::{fdiv, fzero, Double};
use crate::exact::lemma_one;
use crate::laws::residuals::{
    chain, dot, drift_of, factor_drift, heft, lemma_divided, lemma_factor_finite,
    lemma_factor_gives_matrix, lemma_sizes_multiply, row,
};
use crate::precision::{exact, lemma_exact_order, size, tiny};
use crate::reals::{lemma_associate, lemma_commute, lemma_distribute, lemma_scale_order};
use crate::weighting::linalg::{
    back, back_rest, basis, factor, factor_of, factors, forward, forward_rest, solution,
};
use vstd::prelude::*;

verus! {

/// The sum of the first `n` values of a function.
pub open spec fn sum_of(f: spec_fn(int) -> real, n: int) -> real
    decreases n,
{
    if n <= 0 {
        0 as real
    } else {
        sum_of(f, n - 1) + f(n - 1)
    }
}

/// Sums of functions that agree are the same.
pub proof fn lemma_sum_same(f: spec_fn(int) -> real, g: spec_fn(int) -> real, n: int)
    requires
        forall|i: int| 0 <= i < n ==> #[trigger] f(i) == g(i),
    ensures
        sum_of(f, n) == sum_of(g, n),
    decreases n,
{
    if n > 0 {
        lemma_sum_same(f, g, n - 1);
        assert(f(n - 1) == g(n - 1));
    }
}

/// Sums of functions that are bounded are bounded.
pub proof fn lemma_sum_bounded(f: spec_fn(int) -> real, g: spec_fn(int) -> real, n: int)
    requires
        forall|i: int| 0 <= i < n ==> size(#[trigger] f(i)) <= g(i),
    ensures
        size(sum_of(f, n)) <= sum_of(g, n),
    decreases n,
{
    if n > 0 {
        lemma_sum_bounded(f, g, n - 1);
        assert(size(f(n - 1)) <= g(n - 1));
    }
}

/// The sum of sums is the sum of both.
pub proof fn lemma_sum_added(
    f: spec_fn(int) -> real,
    g: spec_fn(int) -> real,
    h: spec_fn(int) -> real,
    n: int,
)
    requires
        forall|i: int| 0 <= i < n ==> #[trigger] h(i) == f(i) + g(i),
    ensures
        sum_of(h, n) == sum_of(f, n) + sum_of(g, n),
    decreases n,
{
    if n > 0 {
        lemma_sum_added(f, g, h, n - 1);
        assert(h(n - 1) == f(n - 1) + g(n - 1));
    }
}

/// A factor leaves a sum.
pub proof fn lemma_sum_scaled(f: spec_fn(int) -> real, h: spec_fn(int) -> real, c: real, n: int)
    requires
        forall|i: int| 0 <= i < n ==> #[trigger] h(i) == c * f(i),
    ensures
        sum_of(h, n) == c * sum_of(f, n),
    decreases n,
{
    let zero = 0 as real;
    if n > 0 {
        lemma_sum_scaled(f, h, c, n - 1);
        assert(h(n - 1) == c * f(n - 1));
        lemma_distribute(c, sum_of(f, n - 1), f(n - 1));
    } else {
        assert(c * zero == zero);
    }
}

/// A double sum by rows.
pub open spec fn by_rows(f: spec_fn(int, int) -> real, n: int, m: int) -> real {
    sum_of(|i: int| sum_of(|j: int| f(i, j), m), n)
}

/// A double sum by columns.
pub open spec fn by_columns(f: spec_fn(int, int) -> real, n: int, m: int) -> real {
    sum_of(|j: int| sum_of(|i: int| f(i, j), n), m)
}

/// A double sum can be taken by rows or by columns.
pub proof fn lemma_sum_swapped(f: spec_fn(int, int) -> real, n: int, m: int)
    requires
        0 <= n,
        0 <= m,
    ensures
        by_rows(f, n, m) == by_columns(f, n, m),
    decreases n,
{
    if n > 0 {
        lemma_sum_swapped(f, n - 1, m);
        let outer = |i: int| sum_of(|j: int| f(i, j), m);
        assert(by_rows(f, n, m) == by_rows(f, n - 1, m) + outer(n - 1));
        let before = |j: int| sum_of(|i: int| f(i, j), n - 1);
        let last = |j: int| f(n - 1, j);
        let now = |j: int| sum_of(|i: int| f(i, j), n);
        assert forall|j: int| 0 <= j < m implies #[trigger] now(j) == before(j) + last(j) by {
            let g = |i: int| f(i, j);
            assert(sum_of(g, n) == sum_of(g, n - 1) + g(n - 1));
        }
        lemma_sum_added(before, last, now, m);
    } else {
        let now = |j: int| sum_of(|i: int| f(i, j), n);
        let none = |j: int| 0 as real;
        lemma_sum_same(now, none, m);
        lemma_sum_nothing(none, m);
    }
}

pub proof fn lemma_sum_nothing(f: spec_fn(int) -> real, n: int)
    requires
        forall|i: int| 0 <= i < n ==> #[trigger] f(i) == (0 as real),
    ensures
        sum_of(f, n) == (0 as real),
    decreases n,
{
    if n > 0 {
        lemma_sum_nothing(f, n - 1);
        assert(f(n - 1) == (0 as real));
    }
}

/// What follows a place adds nothing.
pub proof fn lemma_sum_cut(f: spec_fn(int) -> real, k: int, n: int)
    requires
        0 <= k <= n,
        forall|i: int| k <= i < n ==> #[trigger] f(i) == (0 as real),
    ensures
        sum_of(f, n) == sum_of(f, k),
    decreases n,
{
    if n > k {
        lemma_sum_cut(f, k, n - 1);
        assert(f(n - 1) == (0 as real));
    }
}

/// The terms of a product of two sequences.
spec fn terms(x: spec_fn(int) -> Double, y: spec_fn(int) -> Double) -> spec_fn(int) -> real {
    |m: int| exact(x(m)) * exact(y(m))
}

/// A sum of products is the sum of its terms.
proof fn lemma_dot_is_sum(x: spec_fn(int) -> Double, y: spec_fn(int) -> Double, k: int)
    ensures
        dot(x, y, k) == sum_of(terms(x, y), k),
    decreases k,
{
    if k > 0 {
        lemma_dot_is_sum(x, y, k - 1);
    }
}

/// The solution of the lower-triangular system, as a function of the place.
pub open spec fn halfway(a: Seq<Seq<Double>>, b: Seq<Double>) -> spec_fn(int) -> Double {
    |m: int| forward(factor_of(a), b, m)
}

/// What is left of a right-hand side is a chain.
proof fn lemma_forward_chain(a: Seq<Seq<Double>>, b: Seq<Double>, i: int, k: int)
    requires
        0 <= k <= i,
    ensures
        forward_rest(factor_of(a), b, i, k) == chain(b[i], row(a, i), halfway(a, b), k),
    decreases k,
{
    if k > 0 {
        lemma_forward_chain(a, b, i, k - 1);
    }
}

/// How far rounding moves an entry of the right-hand side.
pub open spec fn forward_drift(a: Seq<Seq<Double>>, b: Seq<Double>, i: int) -> real {
    drift_of(i + 1, size(exact(b[i])) + heft(row(a, i), halfway(a, b), i + 1)) + tiny() * size(
        exact(factor(a, i, i)),
    )
}

/// The lower triangle times the halfway solution gives the right-hand side, up to rounding.
pub proof fn lemma_forward_solves(a: Seq<Seq<Double>>, b: Seq<Double>, i: int)
    requires
        factors(a),
        0 <= i < a.len() < 0x100_0000_0000,
        forward(factor_of(a), b, i).finite(),
    ensures
        size(exact(b[i]) - dot(row(a, i), halfway(a, b), i + 1)) <= forward_drift(a, b, i),
{
    lemma_factor_finite(a, i, i);
    lemma_forward_chain(a, b, i, i);
    lemma_divided(b[i], row(a, i), halfway(a, b), i);
}

/// A column of a factor below its diagonal, and then the diagonal.
pub open spec fn column(a: Seq<Seq<Double>>, i: int) -> spec_fn(int) -> Double {
    |m: int|
        if m < a.len() - 1 - i {
            factor(a, i + 1 + m, i)
        } else {
            factor(a, i, i)
        }
}

/// The entries of a sequence after a place, and then the one at it.
pub open spec fn tail(x: Seq<Double>, i: int) -> spec_fn(int) -> Double {
    |m: int|
        if m < x.len() - 1 - i {
            x[i + 1 + m]
        } else {
            x[i]
        }
}

/// What is left of a halfway solution is a chain.
proof fn lemma_back_chain(a: Seq<Seq<Double>>, y: Seq<Double>, x: Seq<Double>, i: int, k: int)
    requires
        0 <= i < a.len(),
        y.len() == a.len(),
        x.len() == a.len(),
        forall|j: int| 0 <= j < a.len() ==> #[trigger] x[j] == back(factor_of(a), y, j),
        0 <= k <= a.len() - 1 - i,
    ensures
        back_rest(factor_of(a), y, i, i + 1 + k) == chain(y[i], column(a, i), tail(x, i), k),
    decreases k,
{
    if k > 0 {
        lemma_back_chain(a, y, x, i, k - 1);
        assert(x[i + k] == back(factor_of(a), y, i + k));
        assert(column(a, i)(k - 1) == factor(a, i + k, i));
        assert(tail(x, i)(k - 1) == x[i + k]);
    }
}

/// How far rounding moves an entry of the halfway solution.
pub open spec fn back_drift(a: Seq<Seq<Double>>, b: Seq<Double>, i: int) -> real {
    let n = a.len() as int;
    let x = solution(factor_of(a), b);
    drift_of(
        n - i,
        size(exact(forward(factor_of(a), b, i))) + heft(column(a, i), tail(x, i), n - i),
    ) + tiny() * size(exact(factor(a, i, i)))
}

/// The transposed lower triangle times the solution gives the halfway solution, up to rounding.
pub proof fn lemma_back_solves(a: Seq<Seq<Double>>, b: Seq<Double>, i: int)
    requires
        factors(a),
        b.len() == a.len(),
        0 <= i < a.len() < 0x100_0000_0000,
        solution(factor_of(a), b)[i].finite(),
    ensures
        forward(factor_of(a), b, i).finite(),
        size(
            exact(forward(factor_of(a), b, i)) - dot(
                column(a, i),
                tail(solution(factor_of(a), b), i),
                a.len() - i,
            ),
        ) <= back_drift(a, b, i),
{
    let n = a.len() as int;
    let l = factor_of(a);
    let y = Seq::new(b.len(), |j: int| forward(l, b, j));
    let x = solution(l, b);
    lemma_factor_finite(a, i, i);
    assert forall|j: int| 0 <= j < n implies #[trigger] x[j] == back(l, y, j) by {}
    lemma_back_chain(a, y, x, i, n - 1 - i);
    let c = column(a, i);
    let t = tail(x, i);
    assert(c(n - 1 - i) == factor(a, i, i));
    assert(t(n - 1 - i) == x[i]);
    assert(x[i] == fdiv(back_rest(l, y, i, n), l(i, i)));
    lemma_divided(y[i], c, t, n - 1 - i);
}

/// An entry of the symmetric matrix whose lower triangle is given.
pub open spec fn entry_of(a: Seq<Seq<Double>>, i: int, j: int) -> Double {
    if j <= i {
        a[i][j]
    } else {
        a[j][i]
    }
}

/// How far rounding moves an entry of the symmetric matrix.
pub open spec fn entry_drift(a: Seq<Seq<Double>>, i: int, j: int) -> real {
    if j <= i {
        factor_drift(a, i, j)
    } else {
        factor_drift(a, j, i)
    }
}

/// The factor as real numbers.
spec fn lower(a: Seq<Seq<Double>>, i: int, k: int) -> real {
    exact(factor(a, i, k))
}

proof fn lemma_lower_zero(a: Seq<Seq<Double>>, i: int, k: int)
    requires
        i < k,
    ensures
        lower(a, i, k) == (0 as real),
{
    lemma_one();
    lemma_exact_order(fzero(), fzero());
}

/// An entry of the factor times its transpose.
spec fn gram(a: Seq<Seq<Double>>, i: int, j: int) -> real {
    sum_of(|k: int| lower(a, i, k) * lower(a, j, k), a.len() as int)
}

/// The factor times its transpose gives the symmetric matrix, up to rounding.
proof fn lemma_gram_near(a: Seq<Seq<Double>>, i: int, j: int)
    requires
        factors(a),
        a.len() < 0x100_0000_0000,
        0 <= i < a.len(),
        0 <= j < a.len(),
    ensures
        size(exact(entry_of(a, i, j)) - gram(a, i, j)) <= entry_drift(a, i, j),
{
    let n = a.len() as int;
    let (p, q) = if j <= i {
        (i, j)
    } else {
        (j, i)
    };
    lemma_factor_gives_matrix(a, p, q);
    lemma_dot_is_sum(row(a, q), row(a, p), q + 1);
    let f = |k: int| lower(a, i, k) * lower(a, j, k);
    let g = terms(row(a, q), row(a, p));
    let zero = 0 as real;
    assert forall|k: int| 0 <= k < n implies #[trigger] f(k) == g(k) by {
        lemma_commute(lower(a, i, k), lower(a, j, k));
    }
    lemma_sum_same(f, g, n);
    assert forall|k: int| q + 1 <= k < n implies #[trigger] g(k) == zero by {
        lemma_lower_zero(a, q, k);
        assert(zero * lower(a, p, k) == zero);
    }
    lemma_sum_cut(g, q + 1, n);
}

/// A column of the factor times the solution, in the order of the places.
spec fn column_sum(a: Seq<Seq<Double>>, x: Seq<Double>, k: int) -> real {
    sum_of(|j: int| lower(a, j, k) * exact(x[j]), a.len() as int)
}

proof fn lemma_column_start(a: Seq<Seq<Double>>, x: Seq<Double>, k: int, m: int)
    requires
        0 <= k < a.len(),
        x.len() == a.len(),
        0 <= m <= a.len() - 1 - k,
    ensures
        sum_of(|j: int| lower(a, j, k) * exact(x[j]), k + 1 + m) == lower(a, k, k) * exact(x[k])
            + dot(column(a, k), tail(x, k), m),
    decreases m,
{
    let f = |j: int| lower(a, j, k) * exact(x[j]);
    let zero = 0 as real;
    if m > 0 {
        lemma_column_start(a, x, k, m - 1);
        assert(column(a, k)(m - 1) == factor(a, k + m, k));
        assert(tail(x, k)(m - 1) == x[k + m]);
        assert(f(k + m) == lower(a, k + m, k) * exact(x[k + m]));
    } else {
        assert forall|j: int| 0 <= j < k implies #[trigger] f(j) == zero by {
            lemma_lower_zero(a, j, k);
            assert(zero * exact(x[j]) == zero);
        }
        lemma_sum_nothing(f, k);
        assert(f(k) == lower(a, k, k) * exact(x[k]));
    }
}

/// The column sum is what the transposed system sums.
proof fn lemma_column_sum(a: Seq<Seq<Double>>, x: Seq<Double>, k: int)
    requires
        0 <= k < a.len(),
        x.len() == a.len(),
    ensures
        column_sum(a, x, k) == dot(column(a, k), tail(x, k), a.len() - k),
{
    let n = a.len() as int;
    lemma_column_start(a, x, k, n - 1 - k);
    assert(column(a, k)(n - 1 - k) == factor(a, k, k));
    assert(tail(x, k)(n - 1 - k) == x[k]);
}

/// A row of the factor times the halfway solution.
spec fn row_sum(a: Seq<Seq<Double>>, y: spec_fn(int) -> Double, i: int) -> real {
    sum_of(|k: int| lower(a, i, k) * exact(y(k)), a.len() as int)
}

proof fn lemma_row_sum(a: Seq<Seq<Double>>, y: spec_fn(int) -> Double, i: int)
    requires
        0 <= i < a.len(),
    ensures
        row_sum(a, y, i) == dot(row(a, i), y, i + 1),
{
    let n = a.len() as int;
    let f = |k: int| lower(a, i, k) * exact(y(k));
    let g = terms(row(a, i), y);
    let zero = 0 as real;
    lemma_dot_is_sum(row(a, i), y, i + 1);
    lemma_sum_same(f, g, n);
    assert forall|k: int| i + 1 <= k < n implies #[trigger] g(k) == zero by {
        lemma_lower_zero(a, i, k);
        assert(zero * exact(y(k)) == zero);
    }
    lemma_sum_cut(g, i + 1, n);
}

/// The factor times its transpose times the solution, taken either way.
proof fn lemma_gram_times(a: Seq<Seq<Double>>, x: Seq<Double>, i: int)
    requires
        0 <= i < a.len(),
        x.len() == a.len(),
    ensures
        sum_of(|j: int| gram(a, i, j) * exact(x[j]), a.len() as int) == sum_of(
            |k: int| lower(a, i, k) * column_sum(a, x, k),
            a.len() as int,
        ),
{
    let n = a.len() as int;
    let f = |j: int, k: int| lower(a, i, k) * (lower(a, j, k) * exact(x[j]));
    lemma_sum_swapped(f, n, n);
    let left = |j: int| gram(a, i, j) * exact(x[j]);
    let rows = |j: int| sum_of(|k: int| f(j, k), n);
    assert forall|j: int| 0 <= j < n implies #[trigger] left(j) == rows(j) by {
        let v = exact(x[j]);
        let g = |k: int| lower(a, i, k) * lower(a, j, k);
        let h = |k: int| f(j, k);
        assert forall|k: int| 0 <= k < n implies #[trigger] h(k) == v * g(k) by {
            lemma_associate(lower(a, i, k), lower(a, j, k), v);
            lemma_commute(g(k), v);
        }
        lemma_sum_scaled(g, h, v, n);
        lemma_commute(gram(a, i, j), v);
    }
    lemma_sum_same(left, rows, n);
    let right = |k: int| lower(a, i, k) * column_sum(a, x, k);
    let columns = |k: int| sum_of(|j: int| f(j, k), n);
    assert forall|k: int| 0 <= k < n implies #[trigger] columns(k) == right(k) by {
        let g = |j: int| lower(a, j, k) * exact(x[j]);
        let h = |j: int| f(j, k);
        lemma_sum_scaled(g, h, lower(a, i, k), n);
    }
    lemma_sum_same(columns, right, n);
}

/// How far rounding moves the matrix times the solution from the right-hand side: what it
/// moves in the factorization and in each of the two triangular systems.
pub open spec fn solve_drift(a: Seq<Seq<Double>>, b: Seq<Double>, i: int) -> real {
    let n = a.len() as int;
    let x = solution(factor_of(a), b);
    sum_of(|j: int| entry_drift(a, i, j) * size(exact(x[j])), n) + sum_of(
        |k: int| size(exact(factor(a, i, k))) * back_drift(a, b, k),
        n,
    ) + forward_drift(a, b, i)
}

/// The matrix times the solution gives the right-hand side, up to rounding: of a system whose
/// matrix factors and whose solution is finite.
pub proof fn lemma_solution_solves(a: Seq<Seq<Double>>, b: Seq<Double>, i: int)
    requires
        factors(a),
        b.len() == a.len(),
        0 <= i < a.len() < 0x100_0000_0000,
        forall|j: int| 0 <= j < a.len() ==> (#[trigger] solution(factor_of(a), b)[j]).finite(),
    ensures
        size(
            sum_of(
                |j: int|
                    exact(entry_of(a, i, j)) * exact(solution(factor_of(a), b)[j]),
                a.len() as int,
            ) - exact(b[i]),
        ) <= solve_drift(a, b, i),
{
    let n = a.len() as int;
    let x = solution(factor_of(a), b);
    let y = halfway(a, b);
    // The matrix is near the factor times its transpose.
    let whole = |j: int| exact(entry_of(a, i, j)) * exact(x[j]);
    let exactly = |j: int| gram(a, i, j) * exact(x[j]);
    let apart = |j: int| (exact(entry_of(a, i, j)) - gram(a, i, j)) * exact(x[j]);
    let apart_bound = |j: int| entry_drift(a, i, j) * size(exact(x[j]));
    assert forall|j: int| 0 <= j < n implies #[trigger] whole(j) == exactly(j) + apart(j) by {
        lemma_distribute(exact(x[j]), exact(entry_of(a, i, j)), gram(a, i, j));
    }
    lemma_sum_added(exactly, apart, whole, n);
    assert forall|j: int| 0 <= j < n implies size(#[trigger] apart(j)) <= apart_bound(j) by {
        let d = exact(entry_of(a, i, j)) - gram(a, i, j);
        lemma_gram_near(a, i, j);
        lemma_sizes_multiply(d, exact(x[j]));
        lemma_scale_order(size(d), entry_drift(a, i, j), size(exact(x[j])));
    }
    lemma_sum_bounded(apart, apart_bound, n);
    // The transposed system is near solved.
    lemma_gram_times(a, x, i);
    let through = |k: int| lower(a, i, k) * column_sum(a, x, k);
    let straight = |k: int| lower(a, i, k) * exact(y(k));
    let off = |k: int| lower(a, i, k) * (column_sum(a, x, k) - exact(y(k)));
    let off_bound = |k: int| size(exact(factor(a, i, k))) * back_drift(a, b, k);
    assert forall|k: int| 0 <= k < n implies #[trigger] through(k) == straight(k) + off(k) by {
        lemma_distribute(lower(a, i, k), column_sum(a, x, k), exact(y(k)));
    }
    lemma_sum_added(straight, off, through, n);
    assert forall|k: int| 0 <= k < n implies size(#[trigger] off(k)) <= off_bound(k) by {
        let d = column_sum(a, x, k) - exact(y(k));
        assert(x[k].finite());
        lemma_back_solves(a, b, k);
        lemma_column_sum(a, x, k);
        lemma_sizes_multiply(lower(a, i, k), d);
        lemma_scale_order(size(d), back_drift(a, b, k), size(lower(a, i, k)));
    }
    lemma_sum_bounded(off, off_bound, n);
    // And so is the lower one.
    assert(x[i].finite());
    lemma_back_solves(a, b, i);
    lemma_forward_solves(a, b, i);
    lemma_row_sum(a, y, i);
    assert(sum_of(straight, n) == row_sum(a, y, i));
}

/// The matrix times its computed inverse gives the identity, up to rounding: of a matrix that
/// factors and an inverse that is finite.
pub proof fn lemma_inverse_inverts(a: Seq<Seq<Double>>, i: int, j: int)
    requires
        factors(a),
        0 <= i < a.len() < 0x100_0000_0000,
        0 <= j < a.len(),
        forall|k: int|
            0 <= k < a.len() ==> (#[trigger] solution(factor_of(a), basis(a.len(), j))[k]).finite(),
    ensures
        size(
            sum_of(
                |k: int|
                    exact(entry_of(a, i, k)) * exact(
                        solution(factor_of(a), basis(a.len(), j))[k],
                    ),
                a.len() as int,
            ) - if i == j {
                1 as real
            } else {
                0 as real
            },
        ) <= solve_drift(a, basis(a.len(), j), i),
{
    lemma_one();
    lemma_exact_order(fzero(), fzero());
    lemma_solution_solves(a, basis(a.len(), j), i);
}

} // verus!
