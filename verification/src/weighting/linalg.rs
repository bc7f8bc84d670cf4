//! A tiny symmetric-positive-definite solver for the coupling matrix.
//!
//! Coupling assembles a regularized dimensionless covariance and needs its inverse, or
//! row-sums of its inverse, at a few channels. The solver is a Cholesky factorization
//! into a lower-triangular matrix and its transpose; it fails exactly where a pivot is
//! not positive, so a `None` doubles as the positive-definiteness check.
//!
//! Matrices are row-major and square. A ragged input, or a matrix that is not
//! positive-definite, returns `None`.
use crate::double::{fdiv, feq, fle, fmul, fone, froot, fsub, fzero, Double};
use vstd::prelude::*;

verus! {

/// The rows of a matrix.
pub open spec fn rows(a: Seq<Vec<Double>>) -> Seq<Seq<Double>> {
    Seq::new(a.len(), |i: int| a[i]@)
}

/// The entry of a matrix.
pub open spec fn entry(a: Seq<Vec<Double>>, i: int, j: int) -> Double {
    a[i]@[j]
}

/// Every row is as long as the matrix is high.
pub open spec fn square(a: Seq<Seq<Double>>) -> bool {
    forall|i: int| 0 <= i < a.len() ==> (#[trigger] a[i]).len() == a.len()
}

/// What is left of an entry after the first `k` products of the factor's rows are taken
/// off.
pub open spec fn residual(a: Seq<Seq<Double>>, i: int, j: int, k: int) -> Double
    decreases i, j, k,
{
    if 0 < k <= j <= i {
        fsub(
            residual(a, i, j, k - 1),
            fmul(factor(a, i, k - 1), factor(a, j, k - 1)),
        )
    } else {
        a[i][j]
    }
}

/// The entry of the lower-triangular factor.
pub open spec fn factor(a: Seq<Seq<Double>>, i: int, j: int) -> Double
    decreases i, j, j + 1,
{
    if !(0 <= j <= i) {
        fzero()
    } else if i == j {
        froot(residual(a, i, j, j))
    } else {
        fdiv(residual(a, i, j, j), factor(a, j, j))
    }
}

/// The factorization can pass an entry: the entry is finite, a diagonal residual is
/// positive and finite, and elsewhere the pivot of the column is usable.
pub open spec fn passes(a: Seq<Seq<Double>>, i: int, j: int) -> bool {
    a[i][j].finite() && if i == j {
        !fle(residual(a, i, i, i), fzero()) && residual(a, i, i, i).finite()
    } else {
        !feq(factor(a, j, j), fzero()) && factor(a, j, j).finite()
    }
}

/// The matrix is square and the factorization passes all of its lower triangle.
pub open spec fn factors(a: Seq<Seq<Double>>) -> bool {
    square(a) && forall|i: int, j: int| 0 <= j <= i < a.len() ==> #[trigger] passes(a, i, j)
}

/// The factor as a function of row and column.
pub open spec fn factor_of(a: Seq<Seq<Double>>) -> spec_fn(int, int) -> Double {
    |i: int, j: int| factor(a, i, j)
}

/// What is left of the right-hand side at `i` after the first `k` terms.
pub open spec fn forward_rest(
    l: spec_fn(int, int) -> Double,
    b: Seq<Double>,
    i: int,
    k: int,
) -> Double
    decreases i, k,
{
    if 0 < k <= i {
        fsub(forward_rest(l, b, i, k - 1), fmul(l(i, k - 1), forward(l, b, k - 1)))
    } else {
        b[i]
    }
}

/// Entry `i` of the solution of the lower-triangular system.
pub open spec fn forward(l: spec_fn(int, int) -> Double, b: Seq<Double>, i: int) -> Double
    decreases i, i + 1,
{
    if i < 0 {
        fzero()
    } else {
        fdiv(forward_rest(l, b, i, i), l(i, i))
    }
}

/// What is left of the right-hand side at `i` after the terms below row `k`.
pub open spec fn back_rest(
    l: spec_fn(int, int) -> Double,
    y: Seq<Double>,
    i: int,
    k: int,
) -> Double
    decreases y.len() - i, k,
{
    if 0 <= i && i + 1 < k <= y.len() {
        fsub(back_rest(l, y, i, k - 1), fmul(l(k - 1, i), back(l, y, k - 1)))
    } else {
        y[i]
    }
}

/// Entry `i` of the solution of the transposed system.
pub open spec fn back(l: spec_fn(int, int) -> Double, y: Seq<Double>, i: int) -> Double
    decreases y.len() - i, y.len() + 1,
{
    if i < 0 {
        fzero()
    } else {
        fdiv(back_rest(l, y, i, y.len() as int), l(i, i))
    }
}

/// The solution of the system with the given factor.
pub open spec fn solution(l: spec_fn(int, int) -> Double, b: Seq<Double>) -> Seq<Double> {
    let y = Seq::new(b.len(), |i: int| forward(l, b, i));
    Seq::new(b.len(), |i: int| back(l, y, i))
}

/// The vector with a one at `j` and zeros elsewhere.
pub open spec fn basis(n: nat, j: int) -> Seq<Double> {
    Seq::new(
        n,
        |i: int|
            if i == j {
                fone()
            } else {
                fzero()
            },
    )
}

/// The number of rows of a square matrix; `None` for a ragged one.
pub fn square_dim(a: &[Vec<Double>]) -> (n: Option<usize>)
    ensures
        n is Some <==> square(rows(a@)),
        n is Some ==> n->0 == a@.len(),
{
    let mut i: usize = 0;
    while i < a.len()
        invariant
            i <= a@.len(),
            forall|h: int| 0 <= h < i ==> (#[trigger] a@[h])@.len() == a@.len(),
        decreases a@.len() - i,
    {
        if a[i].len() != a.len() {
            assert(rows(a@)[i as int].len() != rows(a@).len());
            return None;
        }
        i += 1;
    }
    Some(a.len())
}

/// A vector of zeros.
fn zeros(n: usize) -> (v: Vec<Double>)
    ensures
        v@.len() == n,
        forall|i: int| 0 <= i < n ==> v@[i] == fzero(),
{
    let mut v: Vec<Double> = Vec::new();
    while v.len() < n
        invariant
            v@.len() <= n,
            forall|i: int| 0 <= i < v@.len() ==> v@[i] == fzero(),
        decreases n - v@.len(),
    {
        v.push(Double::zero());
    }
    v
}

/// The lower-triangular Cholesky factor of a matrix.
///
/// Returns `None` when the matrix is not square, contains a non-finite entry in its
/// lower triangle, or is not positive-definite. The upper triangle of the input is
/// ignored.
pub fn cholesky(a: &[Vec<Double>]) -> (l: Option<Vec<Vec<Double>>>)
    ensures
        l is Some <==> factors(rows(a@)),
        l is Some ==> l->0@.len() == a@.len() && square(rows(l->0@)) && forall|i: int, j: int|
            0 <= i < a@.len() && 0 <= j < a@.len() ==> #[trigger] entry(l->0@, i, j) == factor(
                rows(a@),
                i,
                j,
            ),
{
    let n: usize = match square_dim(a) {
        Some(n) => n,
        None => {
            return None;
        },
    };
    let mut l: Vec<Vec<Double>> = Vec::new();
    let mut i: usize = 0;
    while i < n
        invariant
            n == a@.len(),
            square(rows(a@)),
            i <= n,
            l@.len() == i,
            forall|h: int| 0 <= h < i ==> (#[trigger] l@[h])@.len() == n,
            forall|h: int, j: int|
                0 <= h < i && 0 <= j < n ==> #[trigger] entry(l@, h, j) == factor(rows(a@), h, j),
            forall|h: int, j: int| 0 <= j <= h < i ==> #[trigger] passes(rows(a@), h, j),
        decreases n - i,
    {
        let row = match factor_row(a, &l, i) {
            Some(row) => row,
            None => {
                return None;
            },
        };
        let ghost before = l@;
        l.push(row);
        proof {
            assert forall|h: int, j: int| 0 <= h < i + 1 && 0 <= j < n implies #[trigger] entry(
                l@,
                h,
                j,
            ) == factor(rows(a@), h, j) by {
                if h < i {
                    assert(entry(before, h, j) == factor(rows(a@), h, j));
                }
            }
        }
        i += 1;
    }
    Some(l)
}

/// Row `i` of the factor, given the rows above it.
fn factor_row(a: &[Vec<Double>], l: &Vec<Vec<Double>>, i: usize) -> (row: Option<Vec<Double>>)
    requires
        square(rows(a@)),
        i < a@.len(),
        l@.len() == i,
        forall|h: int| 0 <= h < i ==> (#[trigger] l@[h])@.len() == a@.len(),
        forall|h: int, j: int|
            0 <= h < i && 0 <= j < a@.len() ==> #[trigger] entry(l@, h, j) == factor(rows(a@), h, j),
    ensures
        row is Some <==> forall|j: int| 0 <= j <= i ==> #[trigger] passes(rows(a@), i as int, j),
        row is Some ==> row->0@.len() == a@.len() && forall|j: int|
            0 <= j < a@.len() ==> #[trigger] row->0@[j] == factor(rows(a@), i as int, j),
{
    let n: usize = a.len();
    let mut row: Vec<Double> = zeros(n);
    let mut j: usize = 0;
    while j <= i
        invariant
            square(rows(a@)),
            n == a@.len(),
            i < n,
            j <= i + 1,
            l@.len() == i,
            row@.len() == n,
            forall|h: int| 0 <= h < i ==> (#[trigger] l@[h])@.len() == a@.len(),
            forall|h: int, t: int|
                0 <= h < i && 0 <= t < a@.len() ==> #[trigger] entry(l@, h, t) == factor(rows(a@), h, t),
            forall|t: int| 0 <= t < j ==> #[trigger] row@[t] == factor(rows(a@), i as int, t),
            forall|t: int| j <= t < n ==> #[trigger] row@[t] == fzero(),
            forall|t: int| 0 <= t < j ==> #[trigger] passes(rows(a@), i as int, t),
        decreases i + 1 - j,
    {
        assert(rows(a@)[i as int].len() == n);
        let mut sum = a[i][j];
        if !sum.is_finite() {
            assert(!passes(rows(a@), i as int, j as int));
            return None;
        }
        let mut k: usize = 0;
        while k < j
            invariant
                k <= j <= i < n,
                n == a@.len(),
                l@.len() == i,
                row@.len() == n,
                forall|h: int| 0 <= h < i ==> (#[trigger] l@[h])@.len() == a@.len(),
                forall|h: int, t: int|
                    0 <= h < i && 0 <= t < a@.len() ==> #[trigger] entry(l@, h, t) == factor(
                        rows(a@),
                        h,
                        t,
                    ),
                forall|t: int| 0 <= t < j ==> #[trigger] row@[t] == factor(rows(a@), i as int, t),
                sum == residual(rows(a@), i as int, j as int, k as int),
            decreases j - k,
        {
            let other = if j < i {
                assert(l@[j as int]@.len() == n);
                assert(entry(l@, j as int, k as int) == factor(rows(a@), j as int, k as int));
                l[j][k]
            } else {
                row[k]
            };
            sum = sum - row[k] * other;
            k += 1;
        }
        if i == j {
            if sum.le(Double::zero()) || !sum.is_finite() {
                assert(!passes(rows(a@), i as int, j as int));
                return None;
            }
            row.set(j, sum.sqrt());
        } else {
            assert(l@[j as int]@.len() == n);
            let pivot = l[j][j];
            assert(entry(l@, j as int, j as int) == factor(rows(a@), j as int, j as int));
            if pivot == Double::zero() || !pivot.is_finite() {
                assert(!passes(rows(a@), i as int, j as int));
                return None;
            }
            row.set(j, sum / pivot);
        }
        assert(passes(rows(a@), i as int, j as int));
        j += 1;
    }
    assert forall|t: int| 0 <= t < n implies #[trigger] row@[t] == factor(rows(a@), i as int, t) by {}
    Some(row)
}

/// Solves the system of a lower-triangular matrix.
fn forward_substitution(
    l: &[Vec<Double>],
    b: &[Double],
    Ghost(f): Ghost<spec_fn(int, int) -> Double>,
) -> (y: Vec<Double>)
    requires
        square(rows(l@)),
        b@.len() == l@.len(),
        forall|i: int, j: int| 0 <= j <= i < l@.len() ==> #[trigger] entry(l@, i, j) == f(i, j),
    ensures
        y@.len() == b@.len(),
        forall|i: int| 0 <= i < y@.len() ==> #[trigger] y@[i] == forward(f, b@, i),
{
    let n: usize = l.len();
    let mut y: Vec<Double> = Vec::new();
    let mut i: usize = 0;
    while i < n
        invariant
            n == l@.len(),
            square(rows(l@)),
            b@.len() == n,
            forall|h: int, j: int| 0 <= j <= h < l@.len() ==> #[trigger] entry(l@, h, j) == f(h, j),
            i <= n,
            y@.len() == i,
            forall|h: int| 0 <= h < i ==> #[trigger] y@[h] == forward(f, b@, h),
        decreases n - i,
    {
        assert(rows(l@)[i as int].len() == n);
        let mut sum = b[i];
        let mut k: usize = 0;
        while k < i
            invariant
                k <= i < n,
                n == l@.len(),
                l@[i as int]@.len() == n,
                y@.len() == i,
                forall|h: int, j: int|
                    0 <= j <= h < l@.len() ==> #[trigger] entry(l@, h, j) == f(h, j),
                forall|h: int| 0 <= h < i ==> #[trigger] y@[h] == forward(f, b@, h),
                sum == forward_rest(f, b@, i as int, k as int),
            decreases i - k,
        {
            assert(entry(l@, i as int, k as int) == f(i as int, k as int));
            sum = sum - l[i][k] * y[k];
            k += 1;
        }
        assert(entry(l@, i as int, i as int) == f(i as int, i as int));
        y.push(sum / l[i][i]);
        i += 1;
    }
    y
}

/// Solves the system of the transpose of a lower-triangular matrix.
fn back_substitution(
    l: &[Vec<Double>],
    y: &[Double],
    Ghost(f): Ghost<spec_fn(int, int) -> Double>,
) -> (x: Vec<Double>)
    requires
        square(rows(l@)),
        y@.len() == l@.len(),
        forall|i: int, j: int| 0 <= j <= i < l@.len() ==> #[trigger] entry(l@, i, j) == f(i, j),
    ensures
        x@.len() == y@.len(),
        forall|i: int| 0 <= i < x@.len() ==> #[trigger] x@[i] == back(f, y@, i),
{
    let n: usize = l.len();
    let mut x: Vec<Double> = zeros(n);
    let mut i: usize = n;
    while i > 0
        invariant
            n == l@.len(),
            square(rows(l@)),
            y@.len() == n,
            forall|h: int, j: int| 0 <= j <= h < l@.len() ==> #[trigger] entry(l@, h, j) == f(h, j),
            i <= n,
            x@.len() == n,
            forall|h: int| i <= h < n ==> #[trigger] x@[h] == back(f, y@, h),
        decreases i,
    {
        i -= 1;
        let mut sum = y[i];
        let mut k: usize = i + 1;
        while k < n
            invariant
                i < k <= n,
                n == l@.len(),
                square(rows(l@)),
                y@.len() == n,
                x@.len() == n,
                forall|h: int, j: int|
                    0 <= j <= h < l@.len() ==> #[trigger] entry(l@, h, j) == f(h, j),
                forall|h: int| i < h < n ==> #[trigger] x@[h] == back(f, y@, h),
                sum == back_rest(f, y@, i as int, k as int),
            decreases n - k,
        {
            assert(rows(l@)[k as int].len() == n);
            assert(entry(l@, k as int, i as int) == f(k as int, i as int));
            sum = sum - l[k][i] * x[k];
            k += 1;
        }
        assert(rows(l@)[i as int].len() == n);
        assert(entry(l@, i as int, i as int) == f(i as int, i as int));
        x.set(i, sum / l[i][i]);
    }
    x
}

/// Solves a symmetric-positive-definite system.
///
/// Returns `None` when the matrix does not factor or when the length of the right-hand
/// side does not match.
pub fn solve_spd(a: &[Vec<Double>], b: &[Double]) -> (x: Option<Vec<Double>>)
    ensures
        x is Some <==> factors(rows(a@)) && b@.len() == a@.len(),
        x is Some ==> x->0@ == solution(factor_of(rows(a@)), b@),
{
    let n: usize = match square_dim(a) {
        Some(n) => n,
        None => {
            return None;
        },
    };
    if b.len() != n {
        return None;
    }
    let l = match cholesky(a) {
        Some(l) => l,
        None => {
            return None;
        },
    };
    let ghost f = factor_of(rows(a@));
    let y = forward_substitution(l.as_slice(), b, Ghost(f));
    let x = back_substitution(l.as_slice(), y.as_slice(), Ghost(f));
    proof {
        assert(y@ =~= Seq::new(b@.len(), |i: int| forward(f, b@, i)));
        assert(x@ =~= solution(f, b@));
    }
    Some(x)
}

/// The inverse of a symmetric-positive-definite matrix, solved column by column.
pub fn inverse_spd(a: &[Vec<Double>]) -> (inverse: Option<Vec<Vec<Double>>>)
    ensures
        inverse is Some <==> factors(rows(a@)),
        inverse is Some ==> inverse->0@.len() == a@.len() && square(rows(inverse->0@)) && forall|
            i: int,
            j: int,
        |
            0 <= i < a@.len() && 0 <= j < a@.len() ==> #[trigger] entry(inverse->0@, i, j)
                == solution(factor_of(rows(a@)), basis(a@.len(), j))[i],
{
    let l = match cholesky(a) {
        Some(l) => l,
        None => {
            return None;
        },
    };
    let n: usize = a.len();
    let ghost f = factor_of(rows(a@));
    let mut columns: Vec<Vec<Double>> = Vec::new();
    let mut j: usize = 0;
    while j < n
        invariant
            n == a@.len(),
            f == factor_of(rows(a@)),
            l@.len() == n,
            square(rows(l@)),
            forall|h: int, t: int|
                0 <= h < n && 0 <= t < n ==> #[trigger] entry(l@, h, t) == factor(rows(a@), h, t),
            j <= n,
            columns@.len() == j,
            forall|h: int|
                0 <= h < j ==> (#[trigger] columns@[h])@ == solution(f, basis(n as nat, h)),
        decreases n - j,
    {
        let mut e = zeros(n);
        e.set(j, Double::one());
        let y = forward_substitution(l.as_slice(), e.as_slice(), Ghost(f));
        let x = back_substitution(l.as_slice(), y.as_slice(), Ghost(f));
        proof {
            assert(e@ =~= basis(n as nat, j as int));
            assert(y@ =~= Seq::new(e@.len(), |i: int| forward(f, e@, i)));
            assert(x@ =~= solution(f, e@));
        }
        columns.push(x);
        j += 1;
    }
    let mut rows: Vec<Vec<Double>> = Vec::new();
    let mut i: usize = 0;
    while i < n
        invariant
            n == a@.len(),
            columns@.len() == n,
            forall|h: int|
                0 <= h < n ==> (#[trigger] columns@[h])@ == solution(f, basis(n as nat, h)),
            i <= n,
            rows@.len() == i,
            forall|h: int| 0 <= h < i ==> (#[trigger] rows@[h])@.len() == n,
            forall|h: int, t: int|
                0 <= h < i && 0 <= t < n ==> #[trigger] entry(rows@, h, t) == solution(
                    f,
                    basis(n as nat, t),
                )[h],
        decreases n - i,
    {
        let mut row: Vec<Double> = Vec::new();
        let mut t: usize = 0;
        while t < n
            invariant
                n == a@.len(),
                i < n,
                columns@.len() == n,
                forall|h: int|
                    0 <= h < n ==> (#[trigger] columns@[h])@ == solution(f, basis(n as nat, h)),
                t <= n,
                row@.len() == t,
                forall|h: int|
                    0 <= h < t ==> #[trigger] row@[h] == solution(f, basis(n as nat, h))[i as int],
            decreases n - t,
        {
            assert(columns@[t as int]@.len() == n);
            row.push(columns[t][i]);
            t += 1;
        }
        let ghost before = rows@;
        rows.push(row);
        proof {
            assert forall|h: int, c: int| 0 <= h < i + 1 && 0 <= c < n implies #[trigger] entry(
                rows@,
                h,
                c,
            ) == solution(f, basis(n as nat, c))[h] by {
                if h < i {
                    assert(entry(before, h, c) == solution(f, basis(n as nat, c))[h]);
                }
            }
        }
        i += 1;
    }
    Some(rows)
}

} // verus!
