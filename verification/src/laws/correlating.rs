//! What an anchor's rank correlation is.
use crate::double::{fadd, fcount, fdiv, fmul, fneg, fone, froot, fzero, Double};
use crate::closeness::close;
use crate::exact::lemma_one;
use crate::halves::lemma_halves;
use crate::ingest::anchor::Anchor;
use crate::laws::anchors::lemma_overlap_finite;
use crate::laws::presence::{
    area, below, deviation, doubled_rank, even, lemma_counted, lemma_mean_product,
    lemma_midrank_exact, lemma_midranks_add, lemma_products_sized, lemma_root_large,
    lemma_shared_lengths, lemma_squares_tell, rank_sum, rankable, varies,
};
use crate::laws::shrinking::held_between;
use crate::numeric::fsum;
use crate::precision::{
    exact, lemma_difference_error, lemma_exact_count, lemma_exact_order, lemma_product_error,
    lemma_quotient_error, lemma_root_error, lemma_small_errors, lemma_sum_error, limit, size, tiny,
    ulp,
};
use crate::reals::{
    lemma_associate, lemma_cancel_order, lemma_commute, lemma_distribute, lemma_positive_product,
    lemma_product_bound, lemma_quotient_back, lemma_scale_order,
};
use crate::weighting::coupling::{
    common_length, deviation_products, linear_correlation, mean_of, midranks_of, overlap,
    rank_correlation, raw_correlation, shared_scores,
};
use vstd::prelude::*;

verus! {

/// The rank of a number in a sample, counted from the lowest, with the middle of their places
/// for those that are equal.
pub open spec fn place(s: Seq<Double>, i: int) -> real {
    let fewer = Set::new(|j: int| 0 <= j < s.len() && exact(s[j]) < exact(s[i]));
    let level = Set::new(|j: int| 0 <= j < s.len() && exact(s[j]) == exact(s[i]));
    (fewer.len() as real) + ((level.len() + 1) as real) / (2 as real)
}

/// The sum of the first `k` ranks.
pub open spec fn places(s: Seq<Double>, k: int) -> real
    decreases k,
{
    if k <= 0 {
        0 as real
    } else {
        places(s, k - 1) + place(s, k - 1)
    }
}

/// How far a rank lies from the mean of all.
pub open spec fn displaced(s: Seq<Double>, i: int) -> real {
    place(s, i) - places(s, s.len() as int) / (s.len() as real)
}

/// The sum of the products of the first `k` ranks' distances from their means.
pub open spec fn comoment(s: Seq<Double>, t: Seq<Double>, k: int) -> real
    decreases k,
{
    if k <= 0 {
        0 as real
    } else {
        comoment(s, t, k - 1) + displaced(s, k - 1) * displaced(t, k - 1)
    }
}

/// The rounding of a sum of products over `n` ranks.
pub open spec fn slack(n: int) -> real {
    let m = n as real;
    (52 as real) * (m * (m * (ulp() * (m * m))))
}

/// A number is the third of three sums over the roots of the first two, up to rounding.
pub open spec fn relates(r: real, a: real, b: real, c: real) -> bool {
    exists|x: real, y: real| #[trigger] relates_by(r, a, b, c, x, y)
}

/// The same, given the two roots.
pub open spec fn relates_by(r: real, a: real, b: real, c: real, x: real, y: real) -> bool {
    &&& x > (0 as real)
    &&& y > (0 as real)
    &&& close(a, x * x, 3 as real)
    &&& close(b, y * y, 3 as real)
    &&& size(r * (x * y) - c) <= (16 as real) * (ulp() * (size(c) + x * y))
}

/// The rank of a number is what is computed.
proof fn lemma_place(s: Seq<Double>, i: int)
    requires
        rankable(s),
        forall|j: int| 0 <= j < s.len() ==> (#[trigger] s[j]).finite(),
        0 <= i < s.len(),
    ensures
        midranks_of(s)[i].finite(),
        exact(midranks_of(s)[i]) == place(s, i),
        place(s, i) == (doubled_rank(s, i) as real) / (2 as real),
        (1 as real) <= place(s, i) <= (2 as real) * (s.len() as real),
{
    let fewer = Set::new(|j: int| 0 <= j < s.len() && exact(s[j]) < exact(s[i]));
    let level = Set::new(|j: int| 0 <= j < s.len() && exact(s[j]) == exact(s[i]));
    assert forall|j: int| fewer.contains(j) == #[trigger] below(s, s[i]).contains(j) by {
        if 0 <= j < s.len() {
            lemma_exact_order(s[j], s[i]);
        }
    }
    assert forall|j: int| level.contains(j) == #[trigger] even(s, s[i]).contains(j) by {
        if 0 <= j < s.len() {
            lemma_exact_order(s[j], s[i]);
        }
    }
    assert(fewer =~= below(s, s[i]));
    assert(level =~= even(s, s[i]));
    lemma_counted(s, s[i]);
    lemma_midrank_exact(s, i);
    lemma_halves(doubled_rank(s, i));
}

/// The sum of the ranks is what is computed.
proof fn lemma_places(s: Seq<Double>, k: int)
    requires
        rankable(s),
        forall|j: int| 0 <= j < s.len() ==> (#[trigger] s[j]).finite(),
        0 <= k <= s.len(),
    ensures
        places(s, k) == (rank_sum(s, k) as real) / (2 as real),
    decreases k,
{
    if k > 0 {
        lemma_places(s, k - 1);
        lemma_place(s, k - 1);
    }
}

/// The mean of the ranks is what is computed, up to rounding.
proof fn lemma_mean_place(s: Seq<Double>)
    requires
        rankable(s),
        forall|j: int| 0 <= j < s.len() ==> (#[trigger] s[j]).finite(),
    ensures
        ({
            let m = s.len() as real;
            let mean = places(s, s.len() as int) / m;
            &&& mean_of(midranks_of(s)).finite()
            &&& (0 as real) <= mean <= (2 as real) * m
            &&& size(exact(mean_of(midranks_of(s))) - mean) <= (3 as real) * (ulp() * m)
        }),
{
    lemma_small_errors();
    let n = s.len() as int;
    let m = n as real;
    let zero = 0 as real;
    let two = 2 as real;
    let xs = midranks_of(s);
    lemma_places(s, n);
    lemma_midranks_add(s, n);
    let k = rank_sum(s, n);
    lemma_halves(k);
    lemma_exact_count(n);
    lemma_exact_order(fcount(n), fcount(n));
    let total = places(s, n);
    let mean = total / m;
    lemma_quotient_back(total, m);
    assert(((4 * n) * n) as real == ((4 * n) as real) * m) by (nonlinear_arith)
        requires
            m == n as real,
    ;
    assert((4 * n) as real == (4 as real) * m);
    lemma_associate(4 as real, m, m);
    lemma_associate(two, m, m);
    assert(total <= (two * m) * m);
    assert(zero * m == zero);
    lemma_cancel_order(mean, two * m, m);
    lemma_cancel_order(zero, mean, m);
    assert(two * m <= limit());
    lemma_quotient_error(fsum(xs, 0, n), fcount(n));
    lemma_scale_order(mean, two * m, ulp());
    lemma_scale_order(1 as real, m, ulp());
    lemma_associate(ulp(), two, m);
    lemma_commute(ulp(), two);
    lemma_associate(two, ulp(), m);
}

/// A distance from the mean is what is computed, up to rounding.
proof fn lemma_displaced(s: Seq<Double>, i: int)
    requires
        rankable(s),
        forall|j: int| 0 <= j < s.len() ==> (#[trigger] s[j]).finite(),
        0 <= i < s.len(),
    ensures
        deviation(s, i).finite(),
        size(displaced(s, i)) <= (2 as real) * (s.len() as real),
        size(exact(deviation(s, i)) - displaced(s, i)) <= (7 as real) * (ulp() * (s.len() as real)),
{
    lemma_small_errors();
    lemma_mean_place(s);
    lemma_place(s, i);
    let m = s.len() as real;
    let x = midranks_of(s)[i];
    let y = mean_of(midranks_of(s));
    let w = ulp() * m;
    let d = exact(x) - exact(y);
    let one = 1 as real;
    lemma_scale_order(ulp(), one / (1_000_000 as real), m);
    assert(size(d) <= (3 as real) * m);
    assert((3 as real) * m <= limit());
    lemma_difference_error(x, y);
    lemma_scale_order(size(d), (3 as real) * m, ulp());
    lemma_associate(ulp(), 3 as real, m);
    lemma_commute(ulp(), 3 as real);
    lemma_associate(3 as real, ulp(), m);
}

/// A product of two such distances.
proof fn lemma_displaced_product(x: Double, y: Double, d: real, e: real, m: real)
    requires
        x.finite(),
        y.finite(),
        (1 as real) <= m <= (0x200_0000 as real),
        size(d) <= (2 as real) * m,
        size(e) <= (2 as real) * m,
        size(exact(x) - d) <= (7 as real) * (ulp() * m),
        size(exact(y) - e) <= (7 as real) * (ulp() * m),
    ensures
        fmul(x, y).finite(),
        size(exact(fmul(x, y))) <= (5 as real) * (m * m),
        size(exact(fmul(x, y)) - d * e) <= (46 as real) * (ulp() * (m * m)),
        size(d * e) <= (4 as real) * (m * m),
{
    lemma_small_errors();
    let one = 1 as real;
    let u = ulp();
    let w = u * m;
    let q = m * m;
    let p = u * q;
    lemma_scale_order(u, one / (1_000_000 as real), m);
    lemma_positive_product(u, m);
    lemma_associate(u, m, m);
    assert(w * m == p);
    let a = exact(x);
    let b = exact(y);
    assert(size(b) <= (3 as real) * m);
    assert(size(a) <= (3 as real) * m);
    lemma_product_bound(a - d, b, (7 as real) * w, (3 as real) * m);
    lemma_product_bound(d, b - e, (2 as real) * m, (7 as real) * w);
    lemma_product_bound(d, e, (2 as real) * m, (2 as real) * m);
    lemma_product_bound(a, b, (3 as real) * m, (3 as real) * m);
    lemma_distribute(b, a, d);
    lemma_distribute(d, b, e);
    lemma_commute(w, m);
    assert((7 as real) * w * ((3 as real) * m) == (21 as real) * p) by {
        lemma_scaled_pair(7 as real, w, 3 as real, m);
    }
    assert((2 as real) * m * ((7 as real) * w) == (14 as real) * p) by {
        lemma_scaled_pair(2 as real, m, 7 as real, w);
    }
    assert((2 as real) * m * ((2 as real) * m) == (4 as real) * q) by {
        lemma_scaled_pair(2 as real, m, 2 as real, m);
    }
    assert((3 as real) * m * ((3 as real) * m) == (9 as real) * q) by {
        lemma_scaled_pair(3 as real, m, 3 as real, m);
    }
    assert(size(a * b - d * e) <= (35 as real) * p);
    lemma_scale_order(one, m, m);
    lemma_scale_order(m, 0x200_0000 as real, m);
    assert(q >= one);
    lemma_scale_order(one, q, u);
    assert((9 as real) * q <= limit());
    lemma_product_error(x, y);
    lemma_scale_order(size(a * b), (9 as real) * q, u);
    lemma_associate(u, 9 as real, q);
    lemma_commute(u, 9 as real);
    lemma_associate(9 as real, u, q);
    lemma_scale_order(u, one / (1_000_000 as real), q);
}

proof fn lemma_scaled_pair(j: real, x: real, k: real, y: real)
    ensures
        j * x * (k * y) == j * k * (x * y),
{
    lemma_associate(j, x, k * y);
    lemma_associate(x, k, y);
    lemma_commute(x, k);
    lemma_associate(k, x, y);
    lemma_associate(j, k, x * y);
}

/// A sum of such products is what is computed, up to rounding.
proof fn lemma_comoment(s: Seq<Double>, t: Seq<Double>, k: int)
    requires
        rankable(s),
        rankable(t),
        s.len() == t.len(),
        forall|j: int| 0 <= j < s.len() ==> (#[trigger] s[j]).finite(),
        forall|j: int| 0 <= j < t.len() ==> (#[trigger] t[j]).finite(),
        0 <= k <= s.len(),
    ensures
        ({
            let m = s.len() as real;
            let v = deviation_products(midranks_of(s), midranks_of(t), k);
            &&& v.finite()
            &&& size(exact(v)) <= (k as real) * ((6 as real) * (m * m))
            &&& size(exact(v) - comoment(s, t, k)) <= (k as real) * ((46 as real) * (ulp() * (m
                * m)) + (6 as real) * (m * (ulp() * (m * m))))
        }),
    decreases k,
{
    lemma_small_errors();
    lemma_one();
    lemma_exact_order(fzero(), fzero());
    let n = s.len() as int;
    let m = n as real;
    let one = 1 as real;
    let u = ulp();
    let q = m * m;
    let p = u * q;
    let step = (46 as real) * p + (6 as real) * (m * p);
    let six = (6 as real) * q;
    if k > 0 {
        lemma_comoment(s, t, k - 1);
        lemma_displaced(s, k - 1);
        lemma_displaced(t, k - 1);
        let d = displaced(s, k - 1);
        let e = displaced(t, k - 1);
        let term = fmul(deviation(s, k - 1), deviation(t, k - 1));
        lemma_displaced_product(deviation(s, k - 1), deviation(t, k - 1), d, e, m);
        let part = deviation_products(midranks_of(s), midranks_of(t), k - 1);
        let kr = k as real;
        assert((k - 1) as real == kr - one);
        lemma_distribute(six, kr, one);
        lemma_distribute(step, kr, one);
        let v = exact(part) + exact(term);
        assert(size(v) <= kr * six - q);
        lemma_scale_order(one, m, m);
        lemma_scale_order(m, 0x200_0000 as real, m);
        lemma_scale_order(kr, m, six);
        lemma_scale_order(six, (6 as real) * ((0x200_0000 as real) * (0x200_0000 as real)), m);
        lemma_scale_order(m, 0x200_0000 as real, six);
        assert(size(v) <= limit());
        lemma_sum_error(part, term);
        lemma_scale_order(size(v), m * six, u);
        assert(u * (m * six) == (6 as real) * (m * p)) by {
            lemma_commute(m, six);
            lemma_associate(6 as real, q, m);
            lemma_commute(q, m);
            lemma_associate(u, 6 as real, m * q);
            lemma_commute(u, 6 as real);
            lemma_associate(6 as real, u, m * q);
            lemma_associate(u, m, q);
            lemma_commute(u, m);
            lemma_associate(m, u, q);
        }
        // The rounding of the sum is less than one of the squares.
        lemma_scale_order(u, one / (0x4000_0000 as real), m * six);
        assert(size(exact(fadd(part, term)) - v) <= q);
    } else {
        assert((0 as real) * step == (0 as real));
        assert((0 as real) * six == (0 as real));
    }
}

/// A number over the product of two roots.
proof fn lemma_ratio(a: Double, b: Double, c: Double)
    requires
        a.finite(),
        b.finite(),
        c.finite(),
        (1 as real) / (512 as real) <= exact(a) <= (0x200_0000 as real) * area(),
        (1 as real) / (512 as real) <= exact(b) <= (0x200_0000 as real) * area(),
        size(exact(c)) <= (0x200_0000 as real) * area(),
    ensures
        relates_by(
            exact(fdiv(c, fmul(froot(a), froot(b)))),
            exact(a),
            exact(b),
            exact(c),
            exact(froot(a)),
            exact(froot(b)),
        ),
{
    lemma_small_errors();
    let one = 1 as real;
    let two = 2 as real;
    let zero = 0 as real;
    let u = ulp();
    let top = (0x200_0000 as real) * area();
    lemma_root_large(a);
    lemma_root_large(b);
    lemma_root_error(a);
    lemma_root_error(b);
    let x = exact(froot(a));
    let y = exact(froot(b));
    lemma_positive_product(x, x);
    lemma_positive_product(y, y);
    let low = one / (64 as real);
    lemma_scale_order(low, x, low);
    lemma_scale_order(low, y, x);
    let p = x * y;
    assert(p >= one / (4096 as real));
    lemma_mean_product(x, y);
    assert(p <= two * top);
    lemma_product_error(froot(a), froot(b));
    let d = fmul(froot(a), froot(b));
    lemma_scale_order(u, one / (1_000_000 as real), p);
    lemma_scale_order(u, p, u);
    let up = u * p;
    assert(tiny() <= up);
    let w = exact(d);
    assert(size(w - p) <= two * up);
    assert(w >= one / (8192 as real));
    assert(p <= two * w && w <= two * p);
    lemma_exact_order(d, d);
    let q = exact(c) / w;
    lemma_quotient_back(exact(c), w);
    lemma_scale_order(one / (8192 as real), w, limit());
    assert((8192 as real) * top <= limit());
    lemma_distribute(w, zero, limit());
    assert(zero * w == zero);
    lemma_cancel_order(q, limit(), w);
    lemma_cancel_order(-limit(), q, w);
    lemma_quotient_error(c, d);
    lemma_ratio_error(exact(fdiv(c, d)), q, exact(c), w, p);
}

/// What a quotient gives back when it is multiplied by what its divisor stands for.
proof fn lemma_ratio_error(r: real, q: real, c: real, w: real, p: real)
    requires
        w > (0 as real),
        p > (0 as real),
        q * w == c,
        size(r - q) <= ulp() * size(q) + tiny(),
        size(w - p) <= (2 as real) * (ulp() * p),
        w <= (2 as real) * p,
        p <= (2 as real) * w,
    ensures
        size(r * p - c) <= (16 as real) * (ulp() * (size(c) + p)),
{
    lemma_small_errors();
    let one = 1 as real;
    let two = 2 as real;
    let u = ulp();
    let sc = size(c);
    let uc = u * sc;
    let up = u * p;
    lemma_positive_product(u, p);
    lemma_positive_product(u, sc);
    lemma_distribute(u, sc, p);
    // |q| w == |c|
    lemma_distribute(w, 0 as real, q);
    lemma_positive_product(q, w);
    lemma_positive_product(-q, w);
    assert((0 as real) * w == (0 as real));
    assert(size(q) * w == sc);
    // r w lies near c.
    let e = u * size(q) + tiny();
    lemma_product_bound(r - q, w, e, w);
    lemma_distribute(w, r, q);
    lemma_distribute(w, u * size(q), tiny());
    lemma_associate(u, size(q), w);
    lemma_scale_order(tiny(), u, w);
    lemma_scale_order(w, two * p, u);
    lemma_associate(u, two, p);
    lemma_commute(u, two);
    lemma_associate(two, u, p);
    assert(size(r * w - c) <= uc + two * up);
    // And r p near r w.
    lemma_product_bound(r, p - w, size(r), two * up);
    lemma_distribute(r, p, w);
    lemma_scale_order(p, two * w, size(r));
    lemma_associate(size(r), two, w);
    lemma_commute(size(r), two);
    lemma_associate(two, size(r), w);
    let rw = size(r) * w;
    lemma_distribute(w, 0 as real, r);
    lemma_positive_product(r, w);
    lemma_positive_product(-r, w);
    assert(rw == size(r * w));
    lemma_scale_order(u, one / (1_000_000 as real), sc);
    lemma_scale_order(u, one / (1_000_000 as real), p);
    assert(rw <= two * sc + p);
    let rp = size(r) * p;
    assert(rp <= two * rw);
    assert(size(r) * (two * up) == two * (u * rp)) by {
        lemma_associate(size(r), two, up);
        lemma_commute(size(r), two);
        lemma_associate(two, size(r), up);
        lemma_associate(size(r), u, p);
        lemma_commute(size(r), u);
        lemma_associate(u, size(r), p);
    }
    lemma_scale_order(rp, (4 as real) * sc + two * p, u);
    lemma_distribute(u, (4 as real) * sc, two * p);
    lemma_associate(u, 4 as real, sc);
    lemma_commute(u, 4 as real);
    lemma_associate(4 as real, u, sc);
    assert(u * rp <= (4 as real) * uc + two * up);
    assert(size(r * p - r * w) <= (8 as real) * uc + (4 as real) * up);
}

/// A correlation of two samples' ranks: the sum of the products of the ranks' distances from
/// their means, over the roots of the sums of their squares, held between minus one and one.
pub open spec fn ranks_correlate(rho: Double, s: Seq<Double>, t: Seq<Double>) -> bool {
    let n = s.len() as int;
    exists|r: real, a: real, b: real, c: real|
        {
            &&& #[trigger] relates(r, a, b, c)
            &&& size(a - comoment(s, s, n)) <= slack(n)
            &&& size(b - comoment(t, t, n)) <= slack(n)
            &&& size(c - comoment(s, t, n)) <= slack(n)
            &&& rho.finite()
            &&& exact(rho) == held_between(r, -(1 as real), 1 as real)
        }
}

proof fn lemma_ranks_correlate(s: Seq<Double>, t: Seq<Double>)
    requires
        rankable(s),
        rankable(t),
        s.len() == t.len(),
        forall|j: int| 0 <= j < s.len() ==> (#[trigger] s[j]).finite(),
        forall|j: int| 0 <= j < t.len() ==> (#[trigger] t[j]).finite(),
        varies(s),
        varies(t),
    ensures
        ranks_correlate(linear_correlation(midranks_of(s), midranks_of(t)), s, t),
{
    lemma_one();
    let n = s.len() as int;
    let xs = midranks_of(s);
    let ys = midranks_of(t);
    let a = deviation_products(xs, xs, n);
    let b = deviation_products(ys, ys, n);
    let c = deviation_products(xs, ys, n);
    lemma_squares_tell(s);
    lemma_squares_tell(t);
    lemma_products_sized(s, s, n);
    lemma_products_sized(t, t, n);
    lemma_products_sized(s, t, n);
    assert(n as real <= (0x200_0000 as real));
    lemma_ratio(a, b, c);
    lemma_comoment(s, s, n);
    lemma_comoment(t, t, n);
    lemma_comoment(s, t, n);
    lemma_slack(n);
    let raw = raw_correlation(xs, ys);
    crate::laws::presence::lemma_correlates_where_both_vary(s, t);
    lemma_exact_order(raw, fone());
    lemma_exact_order(raw, fneg(fone()));
    crate::precision::lemma_exact_multiple(fone());
    lemma_exact_order(fone(), fneg(fone()));
    assert(relates(exact(raw), exact(a), exact(b), exact(c)));
}

proof fn lemma_slack(n: int)
    requires
        n >= 1,
    ensures
        ({
            let m = n as real;
            m * ((46 as real) * (ulp() * (m * m)) + (6 as real) * (m * (ulp() * (m * m)))) <= slack(
                n,
            )
        }),
{
    lemma_small_errors();
    let m = n as real;
    let one = 1 as real;
    lemma_positive_product(m, m);
    let p = ulp() * (m * m);
    lemma_positive_product(ulp(), m * m);
    lemma_scale_order(one, m, p);
    lemma_scale_order((46 as real) * p + (6 as real) * (m * p), (52 as real) * (m * p), m);
    lemma_associate(m, 52 as real, m * p);
    lemma_commute(m, 52 as real);
    lemma_associate(52 as real, m, m * p);
}

/// The items that both of two rows have a score for.
pub open spec fn both_scored(mine: Seq<Option<Double>>, theirs: Seq<Option<Double>>) -> Set<int> {
    Set::new(
        |i: int|
            0 <= i < mine.len() && 0 <= i < theirs.len() && mine[i] is Some && theirs[i] is Some,
    )
}

/// The rank correlation of two channels is that of the ranks which they give to the items that
/// both of them score, and is told with the number of those items.
pub proof fn lemma_rank_correlation_is_of_ranks(anchor: Anchor, a: int, b: int)
    requires
        anchor.wf(),
        0 <= a < anchor.channels@.len(),
        0 <= b < anchor.channels@.len(),
        0 < overlap(anchor, a, b).len() <= 0x200_0000,
        varies(overlap(anchor, a, b)),
        varies(overlap(anchor, b, a)),
    ensures
        ranks_correlate(
            rank_correlation(anchor, a, b).rho,
            overlap(anchor, a, b),
            overlap(anchor, b, a),
        ),
        rank_correlation(anchor, a, b).n_both == both_scored(
            anchor.scores@[a]@,
            anchor.scores@[b]@,
        ).len(),
{
    let s = overlap(anchor, a, b);
    let t = overlap(anchor, b, a);
    lemma_overlap_finite(anchor, a, b);
    lemma_overlap_finite(anchor, b, a);
    let mine = anchor.scores@[a]@;
    let theirs = anchor.scores@[b]@;
    lemma_shared_lengths(mine, theirs, common_length(mine, theirs));
    lemma_shared_count(mine, theirs, common_length(mine, theirs));
    assert forall|i: int| 0 <= i < s.len() implies !(#[trigger] s[i]).nan() by {
        assert(s[i].finite());
    }
    assert forall|i: int| 0 <= i < t.len() implies !(#[trigger] t[i]).nan() by {
        assert(t[i].finite());
    }
    lemma_ranks_correlate(s, t);
    assert(both_scored(mine, theirs) =~= both_scored(mine, theirs).filter(
        |i: int| i < common_length(mine, theirs),
    ));
}

proof fn lemma_shared_count(mine: Seq<Option<Double>>, theirs: Seq<Option<Double>>, n: int)
    requires
        0 <= n <= mine.len(),
        n <= theirs.len(),
    ensures
        both_scored(mine, theirs).filter(|i: int| i < n).finite(),
        shared_scores(mine, theirs, n).len() == both_scored(mine, theirs).filter(
            |i: int| i < n,
        ).len(),
    decreases n,
{
    let all = both_scored(mine, theirs);
    let now = all.filter(|i: int| i < n);
    if n > 0 {
        lemma_shared_count(mine, theirs, n - 1);
        let before = all.filter(|i: int| i < n - 1);
        if mine[n - 1] is Some && theirs[n - 1] is Some {
            assert(now =~= before.insert(n - 1));
        } else {
            assert(now =~= before);
        }
    } else {
        assert(now =~= Set::empty());
    }
}

/// What is shared of a row are its scores at the items that both have, in order.
pub open spec fn shared_at(
    mine: Seq<Option<Double>>,
    theirs: Seq<Option<Double>>,
    at: Seq<int>,
    s: Seq<Double>,
) -> bool {
    &&& s.len() == at.len()
    &&& forall|i: int, j: int| 0 <= i < j < at.len() ==> #[trigger] at[i] < #[trigger] at[j]
    &&& forall|i: int| #[trigger] at.contains(i) <==> both_scored(mine, theirs).contains(i)
    &&& forall|j: int| 0 <= j < s.len() ==> #[trigger] s[j] == mine[at[j]]->0
}

/// Two channels are compared over the items that both score, and each item's two scores stand
/// at one place.
pub proof fn lemma_compared_at_shared_items(anchor: Anchor, a: int, b: int)
    ensures
        exists|at: Seq<int>| #[trigger]
            shared_at(anchor.scores@[a]@, anchor.scores@[b]@, at, overlap(anchor, a, b))
                && shared_at(anchor.scores@[b]@, anchor.scores@[a]@, at, overlap(anchor, b, a)),
{
    let mine = anchor.scores@[a]@;
    let theirs = anchor.scores@[b]@;
    let n = common_length(mine, theirs);
    let at = lemma_shared_at(mine, theirs, n);
    assert(mine.take(n).len() == n && theirs.take(n).len() == n);
    assert forall|i: int| #[trigger] at.contains(i) <==> both_scored(mine, theirs).contains(i) by {
        assert(at.contains(i) <==> (0 <= i < n && mine[i] is Some && theirs[i] is Some));
    }
    assert(shared_at(mine, theirs, at, overlap(anchor, a, b)));
    assert forall|i: int| #[trigger] at.contains(i) <==> both_scored(theirs, mine).contains(i) by {
        assert(at.contains(i) <==> both_scored(mine, theirs).contains(i));
    }
    assert(shared_at(theirs, mine, at, overlap(anchor, b, a)));
}

proof fn lemma_shared_at(mine: Seq<Option<Double>>, theirs: Seq<Option<Double>>, n: int) -> (at:
    Seq<int>)
    requires
        0 <= n <= mine.len(),
        n <= theirs.len(),
    ensures
        shared_scores(mine, theirs, n).len() == at.len(),
        shared_scores(theirs, mine, n).len() == at.len(),
        forall|i: int, j: int| 0 <= i < j < at.len() ==> #[trigger] at[i] < #[trigger] at[j],
        forall|i: int| #[trigger]
            at.contains(i) <==> (0 <= i < n && mine[i] is Some && theirs[i] is Some),
        forall|j: int|
            0 <= j < at.len() ==> shared_scores(mine, theirs, n)[j] == mine[#[trigger] at[j]]->0
                && shared_scores(theirs, mine, n)[j] == theirs[at[j]]->0,
    decreases n,
{
    if n == 0 {
        Seq::empty()
    } else {
        let before = lemma_shared_at(mine, theirs, n - 1);
        if mine[n - 1] is Some && theirs[n - 1] is Some {
            let at = before.push(n - 1);
            assert forall|i: int| #[trigger] at.contains(i) <==> (0 <= i < n && mine[i] is Some
                && theirs[i] is Some) by {
                if 0 <= i < n - 1 && mine[i] is Some && theirs[i] is Some {
                    assert(before.contains(i));
                    let h = choose|h: int| 0 <= h < before.len() && before[h] == i;
                    assert(at[h] == i);
                }
                if at.contains(i) {
                    let h = choose|h: int| 0 <= h < at.len() && at[h] == i;
                    if h < before.len() {
                        assert(before[h] == i);
                        assert(before.contains(i));
                    }
                }
                if i == n - 1 {
                    assert(at[before.len() as int] == i);
                }
            }
            assert forall|i: int, j: int| 0 <= i < j < at.len() implies #[trigger] at[i]
                < #[trigger] at[j] by {
                assert(before[i] == at[i]);
                assert(before.contains(before[i]));
                if j < before.len() {
                    assert(before[j] == at[j]);
                }
            }
            assert forall|j: int| 0 <= j < at.len() implies shared_scores(mine, theirs, n)[j]
                == mine[#[trigger] at[j]]->0 && shared_scores(theirs, mine, n)[j] == theirs[at[j]]
                ->0 by {
                if j < before.len() {
                    assert(before[j] == at[j]);
                }
            }
            at
        } else {
            before
        }
    }
}

} // verus!
