//! Laws on which channel pairs an anchor gives a redundancy for.
use crate::config::CouplingConfig;
use crate::double::{fadd, fcount, feq, fle, flt, fmul, froot, fsub, fzero, Double};
use crate::exact::{lemma_mul_zero, lemma_one, lemma_plus_zero};
use crate::halves::{
    halves, lemma_halves, lemma_halves_add, lemma_halves_shared, lemma_less_itself,
    lemma_two_halves,
};
use crate::ingest::anchor::Anchor;
use crate::keys::canonical;
use crate::laws::anchors::{lemma_overlap_finite, reads_as};
use crate::numeric::{equal_to, fsum, less_than, value_midrank};
use crate::precision::{
    exact, lemma_difference_error, lemma_exact_count, lemma_exact_order, lemma_product_error,
    lemma_quotient_error, lemma_root_error, lemma_small_errors, lemma_sum_error, limit, size, tiny,
    ulp,
};
use crate::reals::{
    lemma_associate, lemma_cancel_order, lemma_commute, lemma_distribute, lemma_positive_product,
    lemma_product_bound, lemma_quotient_back, lemma_scale_order,
};
use crate::weighting::coupling::{
    all_rank_correlations, correlates, counts, deviation_products, mean_of, midranks_of, observed,
    overlap, rank_correlation, rank_correlations, RankCorrelation,
};
use vstd::prelude::*;

verus! {

/// Not all numbers of a sample are equal.
pub open spec fn varies(s: Seq<Double>) -> bool {
    exists|i: int, j: int|
        0 <= i < s.len() && 0 <= j < s.len() && !feq(#[trigger] s[i], #[trigger] s[j])
}

/// A sample of numbers, so few that their ranks add up exactly.
pub open spec fn rankable(s: Seq<Double>) -> bool {
    &&& 0 < s.len() <= 0x200_0000
    &&& forall|i: int| 0 <= i < s.len() ==> !(#[trigger] s[i]).nan()
}

pub open spec fn below(s: Seq<Double>, x: Double) -> Set<int> {
    Set::new(|j: int| 0 <= j < s.len() && flt(s[j], x))
}

pub open spec fn even(s: Seq<Double>, x: Double) -> Set<int> {
    Set::new(|j: int| 0 <= j < s.len() && feq(s[j], x))
}

/// Twice the midrank of the number at `i`.
pub open spec fn doubled_rank(s: Seq<Double>, i: int) -> int {
    2 * (less_than(s, s[i]) as int) + equal_to(s, s[i]) + 1
}

/// A sample has at most as many numbers below, and even with, another as it has in all.
pub proof fn lemma_counted(s: Seq<Double>, x: Double)
    ensures
        below(s, x).finite(),
        even(s, x).finite(),
        less_than(s, x) == below(s, x).len(),
        equal_to(s, x) == even(s, x).len(),
        less_than(s, x) <= s.len(),
        equal_to(s, x) <= s.len(),
{
    let n = s.len() as int;
    vstd::set_lib::lemma_int_range(0, n);
    let all = vstd::set_lib::set_int_range(0, n);
    assert(below(s, x).subset_of(all));
    assert(even(s, x).subset_of(all));
    vstd::set_lib::lemma_len_subset(below(s, x), all);
    vstd::set_lib::lemma_len_subset(even(s, x), all);
    assert(below(s, x) =~= Set::new(|j: int| 0 <= j < s.len() && flt(s[j], x)));
    assert(even(s, x) =~= Set::new(|j: int| 0 <= j < s.len() && feq(s[j], x)));
}

/// A midrank is exact.
pub proof fn lemma_midrank_exact(s: Seq<Double>, i: int)
    requires
        rankable(s),
        0 <= i < s.len(),
    ensures
        2 <= doubled_rank(s, i) <= 4 * s.len(),
        value_midrank(s, i) == halves(doubled_rank(s, i)),
{
    let x = s[i];
    lemma_counted(s, x);
    assert(even(s, x).contains(i));
    if equal_to(s, x) == 0 {
        vstd::set_lib::lemma_len_subset(Set::empty().insert(i), even(s, x));
    }
    let k = 2 * less_than(s, x) + equal_to(s, x) - 1;
    lemma_two_halves();
    lemma_halves_add(k, 2);
}

/// A larger number has a larger midrank.
proof fn lemma_midranks_grow(s: Seq<Double>, i: int, j: int)
    requires
        rankable(s),
        0 <= i < s.len(),
        0 <= j < s.len(),
        flt(s[i], s[j]),
    ensures
        doubled_rank(s, i) < doubled_rank(s, j),
{
    let x = s[i];
    let y = s[j];
    lemma_counted(s, x);
    lemma_counted(s, y);
    lemma_midrank_exact(s, i);
    let a = below(s, x);
    let b = even(s, x);
    assert(a.disjoint(b));
    vstd::set_lib::lemma_set_disjoint_lens(a, b);
    assert((a + b).subset_of(below(s, y)));
    vstd::set_lib::lemma_len_subset(a + b, below(s, y));
    assert(even(s, x).contains(i));
    if equal_to(s, x) == 0 {
        vstd::set_lib::lemma_len_subset(Set::empty().insert(i), even(s, x));
    }
}

/// Numbers that are equal have the same midrank.
proof fn lemma_equal_midranks(s: Seq<Double>, i: int, j: int)
    requires
        0 <= i < s.len(),
        0 <= j < s.len(),
        feq(s[i], s[j]),
    ensures
        doubled_rank(s, i) == doubled_rank(s, j),
{
    lemma_counted(s, s[i]);
    lemma_counted(s, s[j]);
    assert(below(s, s[i]) =~= below(s, s[j]));
    assert(even(s, s[i]) =~= even(s, s[j]));
}

/// Twice the sum of the first `k` midranks.
pub open spec fn rank_sum(s: Seq<Double>, k: int) -> int
    decreases k,
{
    if k <= 0 {
        0
    } else {
        rank_sum(s, k - 1) + doubled_rank(s, k - 1)
    }
}

/// Midranks add up exactly.
pub proof fn lemma_midranks_add(s: Seq<Double>, k: int)
    requires
        rankable(s),
        0 <= k <= s.len(),
    ensures
        0 <= rank_sum(s, k) <= (4 * s.len()) * k,
        rank_sum(s, k) <= 0x20_0000_0000_0000,
        fsum(midranks_of(s), 0, k) == halves(rank_sum(s, k)),
    decreases k,
{
    let n = s.len() as int;
    assert((4 * n) * k <= 0x20_0000_0000_0000) by (nonlinear_arith)
        requires
            0 <= k <= n,
            n <= 0x200_0000,
    ;
    if k > 0 {
        lemma_midranks_add(s, k - 1);
        lemma_midrank_exact(s, k - 1);
        assert((4 * n) * (k - 1) + 4 * n == (4 * n) * k) by (nonlinear_arith);
        lemma_halves_add(rank_sum(s, k - 1), doubled_rank(s, k - 1));
    } else {
        lemma_halves(0);
        lemma_one();
        assert((4 * n) * 0 == 0);
        lemma_no_halves();
    }
}

proof fn lemma_no_halves()
    ensures
        halves(0) == fzero(),
{
    lemma_halves(0);
    lemma_one();
    crate::exact::lemma_magnitude_sign(halves(0).unsigned());
    assert(0 * crate::double::unit() == 0);
}

/// The mean of a sample's midranks is a number of moderate size.
proof fn lemma_mean_sized(s: Seq<Double>)
    requires
        rankable(s),
    ensures
        mean_of(midranks_of(s)).finite(),
        size(exact(mean_of(midranks_of(s)))) <= (0x800_0000 as real),
{
    lemma_small_errors();
    let n = s.len() as int;
    let xs = midranks_of(s);
    lemma_midranks_add(s, n);
    let k = rank_sum(s, n);
    lemma_halves(k);
    lemma_exact_count(n);
    let nr = n as real;
    let top = exact(halves(k));
    let q = top / nr;
    lemma_quotient_back(top, nr);
    let zero = 0 as real;
    let most = 0x400_0000 as real;
    assert(4 * n * n == (4 * n) * n) by (nonlinear_arith);
    assert((4 * n) * n <= 0x800_0000 * n) by (nonlinear_arith)
        requires
            0 <= n <= 0x200_0000,
    ;
    assert((0x800_0000 * n) as real == (0x800_0000 as real) * nr);
    assert(k as real <= (0x800_0000 as real) * nr);
    assert(top <= most * nr);
    assert(zero * nr == zero);
    lemma_cancel_order(q, most, nr);
    lemma_cancel_order(zero, q, nr);
    lemma_quotient_error(fsum(xs, 0, n), fcount(n));
    lemma_scale_order(size(q), most, ulp());
}

/// What is equal throughout does not deviate from its mean.
proof fn lemma_still_deviations(s: Seq<Double>, k: int)
    requires
        rankable(s),
        !varies(s),
        0 <= k <= s.len(),
    ensures
        deviation_products(midranks_of(s), midranks_of(s), k) == fzero(),
    decreases k,
{
    lemma_one();
    if k > 0 {
        lemma_still_deviations(s, k - 1);
        let n = s.len() as int;
        let xs = midranks_of(s);
        let r = doubled_rank(s, 0);
        lemma_even_sum(s, n);
        lemma_midranks_add(s, n);
        lemma_midrank_exact(s, 0);
        lemma_midrank_exact(s, k - 1);
        assert(feq(s[k - 1], s[0]));
        lemma_equal_midranks(s, k - 1, 0);
        lemma_halves_shared(r, n);
        assert(mean_of(xs) == halves(r));
        assert(xs[k - 1] == halves(r));
        lemma_halves(r);
        lemma_less_itself(halves(r));
        lemma_mul_zero(fzero());
        lemma_plus_zero(fzero());
    }
}

proof fn lemma_even_sum(s: Seq<Double>, k: int)
    requires
        rankable(s),
        !varies(s),
        0 <= k <= s.len(),
    ensures
        rank_sum(s, k) == k * doubled_rank(s, 0),
    decreases k,
{
    let r = doubled_rank(s, 0);
    if k > 0 {
        lemma_even_sum(s, k - 1);
        assert(feq(s[k - 1], s[0]));
        lemma_equal_midranks(s, k - 1, 0);
        assert((k - 1) * r + r == k * r) by (nonlinear_arith);
    } else {
        assert(0 * r == 0);
    }
}

/// A deviation of a midrank from the mean.
pub open spec fn deviation(s: Seq<Double>, i: int) -> Double {
    fsub(midranks_of(s)[i], mean_of(midranks_of(s)))
}

/// The largest that a deviation can be.
pub open spec fn reach() -> real {
    0x2000_0000 as real
}

/// The largest that a product of two deviations can be.
pub open spec fn area() -> real {
    0x1000_0000_0000_0000int as real
}

pub proof fn lemma_deviation_sized(s: Seq<Double>, i: int)
    requires
        rankable(s),
        0 <= i < s.len(),
    ensures
        deviation(s, i).finite(),
        size(exact(deviation(s, i))) <= reach(),
        size(
            exact(deviation(s, i)) - (exact(halves(doubled_rank(s, i))) - exact(
                mean_of(midranks_of(s)),
            )),
        ) <= (1 as real) / (1000 as real),
{
    lemma_small_errors();
    lemma_mean_sized(s);
    lemma_midrank_exact(s, i);
    let r = doubled_rank(s, i);
    lemma_halves(r);
    let x = halves(r);
    let m = mean_of(midranks_of(s));
    let d = exact(x) - exact(m);
    assert(exact(x) <= (0x800_0000 as real));
    lemma_difference_error(x, m);
    lemma_scale_order(size(d), 0x1000_0000 as real, ulp());
}

/// A product of two deviations is finite and of moderate size.
proof fn lemma_term_sized(x: Double, y: Double)
    requires
        x.finite(),
        y.finite(),
        size(exact(x)) <= reach(),
        size(exact(y)) <= reach(),
    ensures
        fmul(x, y).finite(),
        size(exact(fmul(x, y))) <= area() / (2 as real),
        size(exact(fmul(x, y)) - exact(x) * exact(y)) <= ulp() * size(exact(x) * exact(y)) + tiny(),
{
    lemma_small_errors();
    lemma_product_bound(exact(x), exact(y), reach(), reach());
    lemma_product_error(x, y);
    lemma_scale_order(
        size(exact(x) * exact(y)),
        0x400_0000_0000_0000int as real,
        ulp(),
    );
}

/// Sums of products of deviations are finite and of moderate size.
pub proof fn lemma_products_sized(s: Seq<Double>, t: Seq<Double>, k: int)
    requires
        rankable(s),
        rankable(t),
        s.len() == t.len(),
        0 <= k <= s.len(),
    ensures
        deviation_products(midranks_of(s), midranks_of(t), k).finite(),
        size(exact(deviation_products(midranks_of(s), midranks_of(t), k))) <= (k as real) * area(),
    decreases k,
{
    lemma_small_errors();
    lemma_one();
    lemma_exact_order(fzero(), fzero());
    if k > 0 {
        lemma_products_sized(s, t, k - 1);
        lemma_deviation_sized(s, k - 1);
        lemma_deviation_sized(t, k - 1);
        let term = fmul(deviation(s, k - 1), deviation(t, k - 1));
        lemma_term_sized(deviation(s, k - 1), deviation(t, k - 1));
        let part = deviation_products(midranks_of(s), midranks_of(t), k - 1);
        let v = exact(part) + exact(term);
        let kr = k as real;
        assert((k - 1) as real == kr - (1 as real));
        assert(kr <= (0x200_0000 as real));
        assert(size(v) <= kr * area());
        lemma_sum_error(part, term);
        lemma_scale_order(size(v), (0x200_0000 as real) * area(), ulp());
    } else {
        assert((0 as real) * area() == (0 as real));
    }
}

/// The squared deviations of a sample add up to no less than nought, and to no less than a
/// small part of one once a large deviation is among them.
proof fn lemma_squares_grow(s: Seq<Double>, k: int, i: int)
    requires
        rankable(s),
        0 <= k <= s.len(),
        0 <= i < s.len(),
        (1 as real) / (8 as real) <= size(exact(deviation(s, i))),
    ensures
        deviation_products(midranks_of(s), midranks_of(s), k).finite(),
        exact(deviation_products(midranks_of(s), midranks_of(s), k)) >= (0 as real),
        i < k ==> exact(deviation_products(midranks_of(s), midranks_of(s), k)) >= ((1 as real)
            - (k as real) * ulp()) / (256 as real),
    decreases k,
{
    lemma_small_errors();
    lemma_one();
    lemma_exact_order(fzero(), fzero());
    lemma_products_sized(s, s, k);
    if k > 0 {
        lemma_squares_grow(s, k - 1, i);
        lemma_products_sized(s, s, k - 1);
        lemma_deviation_sized(s, k - 1);
        let d = deviation(s, k - 1);
        lemma_term_sized(d, d);
        let term = fmul(d, d);
        let e = exact(d);
        crate::reals::lemma_positive_square(e);
        lemma_square_positive(d);
        let part = deviation_products(midranks_of(s), midranks_of(s), k - 1);
        let v = exact(part) + exact(term);
        let u = ulp();
        let one = 1 as real;
        let kr = k as real;
        assert((k - 1) as real == kr - one);
        assert(kr <= (0x200_0000 as real));
        assert(v <= kr * area());
        lemma_sum_error(part, term);
        let sum = exact(fadd(part, term));
        lemma_scale_order(u, one, v);
        assert(sum >= v - u * v);
        let w = (256 as real) * v;
        lemma_associate(256 as real, u, v);
        lemma_commute(256 as real, u);
        lemma_associate(u, 256 as real, v);
        assert(u * w == (256 as real) * (u * v));
        if i == k - 1 {
            let eighth = one / (8 as real);
            lemma_scale_order(eighth, size(e), size(e));
            lemma_scale_order(eighth, size(e), eighth);
            if e < (0 as real) {
                lemma_distribute(-e, 0 as real, e);
                lemma_distribute(e, 0 as real, e);
                assert((-e) * (-e) == e * e);
            }
            assert(size(e) * size(e) == e * e);
            assert(e * e >= one / (64 as real));
            lemma_scale_order(u, one / (1_000_000 as real), e * e);
            assert(exact(term) >= one / (128 as real));
            assert(w >= one);
            lemma_scale_order(u, one / (1_000_000 as real), w);
            lemma_scale_order(0 as real, kr - one, u);
            lemma_distribute(u, kr, one);
        } else if i < k - 1 {
            // w >= 1 - (k - 1) u, and so w (1 - u) >= 1 - k u.
            let low = one - (kr - one) * u;
            assert(w >= low);
            lemma_scale_order(kr - one, 0x200_0000 as real, u);
            lemma_scale_order(low, w, one - u);
            lemma_distribute(w, one, u);
            lemma_distribute(low, one, u);
            lemma_commute(w, u);
            lemma_commute(low, u);
            lemma_positive_product(kr - one, u);
            lemma_scale_order(low, one, u);
            lemma_distribute(u, kr, one);
            assert(w - u * w >= one - kr * u);
        }
    }
}

/// A square is not negative.
proof fn lemma_square_positive(d: Double)
    requires
        d.finite(),
        fmul(d, d).finite(),
    ensures
        exact(fmul(d, d)) >= (0 as real),
{
    reveal(fmul);
    let x = fmul(d, d);
    let m = crate::rounding::magnitude(d.unsigned());
    crate::exact::lemma_magnitude_sign(d.unsigned());
    vstd::arithmetic::power2::lemma_pow2_pos(crate::double::UNIT_EXPONENT as nat);
    assert(m * m >= 0) by (nonlinear_arith);
    crate::double::lemma_round_range(m * m, crate::double::unit());
    assert(!x.negative());
    lemma_one();
    lemma_exact_order(fzero(), x);
    crate::exact::lemma_magnitude_sign(x.unsigned());
}

/// In a sample that varies one midrank lies far from the mean.
proof fn lemma_far_deviation(s: Seq<Double>) -> (i: int)
    requires
        rankable(s),
        varies(s),
    ensures
        0 <= i < s.len(),
        (1 as real) / (8 as real) <= size(exact(deviation(s, i))),
{
    let (a, b) = choose|a: int, b: int|
        0 <= a < s.len() && 0 <= b < s.len() && !feq(#[trigger] s[a], #[trigger] s[b]);
    assert(!s[a].nan() && !s[b].nan());
    if flt(s[a], s[b]) {
        lemma_midranks_grow(s, a, b);
    } else {
        lemma_midranks_grow(s, b, a);
    }
    lemma_midrank_exact(s, a);
    lemma_midrank_exact(s, b);
    lemma_halves(doubled_rank(s, a));
    lemma_halves(doubled_rank(s, b));
    lemma_deviation_sized(s, a);
    lemma_deviation_sized(s, b);
    if (1 as real) / (8 as real) <= size(exact(deviation(s, a))) {
        a
    } else {
        b
    }
}

/// The squared deviations of a sample of midranks sum to something exactly where it varies.
pub proof fn lemma_squares_tell(s: Seq<Double>)
    requires
        rankable(s),
    ensures
        ({
            let v = deviation_products(midranks_of(s), midranks_of(s), s.len() as int);
            &&& v.finite()
            &&& !varies(s) ==> fle(v, fzero())
            &&& varies(s) ==> !fle(v, fzero())
            &&& varies(s) ==> (1 as real) / (512 as real) <= exact(v) <= limit()
        }),
{
    lemma_small_errors();
    lemma_one();
    let n = s.len() as int;
    let v = deviation_products(midranks_of(s), midranks_of(s), n);
    lemma_products_sized(s, s, n);
    lemma_exact_order(v, fzero());
    assert(n as real <= (0x200_0000 as real));
    if varies(s) {
        let i = lemma_far_deviation(s);
        lemma_squares_grow(s, n, i);
        lemma_scale_order(n as real, 0x200_0000 as real, ulp());
    } else {
        lemma_still_deviations(s, n);
    }
}

/// The root of a sum that is not small is not small.
pub proof fn lemma_root_large(v: Double)
    requires
        v.finite(),
        (1 as real) / (512 as real) <= exact(v) <= limit(),
    ensures
        froot(v).finite(),
        (1 as real) / (64 as real) <= exact(froot(v)),
        exact(froot(v)) * exact(froot(v)) <= (2 as real) * exact(v),
{
    lemma_small_errors();
    lemma_root_error(v);
    let r = exact(froot(v));
    let rr = r * r;
    let low = (1 as real) / (64 as real);
    lemma_positive_product(r, r);
    lemma_scale_order((3 as real) * ulp(), (1 as real) / (2 as real), rr);
    if r < low {
        lemma_scale_order(r, low, r);
        lemma_scale_order(r, low, low);
    }
}

/// The correlation of the midranks of two samples is defined exactly where both vary.
pub proof fn lemma_correlates_where_both_vary(s: Seq<Double>, t: Seq<Double>)
    requires
        rankable(s),
        rankable(t),
        s.len() == t.len(),
    ensures
        correlates(midranks_of(s), midranks_of(t)) <==> varies(s) && varies(t),
{
    lemma_small_errors();
    let n = s.len() as int;
    let xs = midranks_of(s);
    let ys = midranks_of(t);
    lemma_squares_tell(s);
    lemma_squares_tell(t);
    if varies(s) && varies(t) {
        let a = deviation_products(xs, xs, n);
        let b = deviation_products(ys, ys, n);
        let c = deviation_products(xs, ys, n);
        lemma_products_sized(s, t, n);
        lemma_products_sized(s, s, n);
        lemma_products_sized(t, t, n);
        assert(n as real <= (0x200_0000 as real));
        let top = (0x200_0000 as real) * area();
        assert(size(exact(c)) <= top);
        lemma_root_large(a);
        lemma_root_large(b);
        let x = exact(froot(a));
        let y = exact(froot(b));
        let low = (1 as real) / (64 as real);
        // The product of the roots is neither small nor too large.
        lemma_scale_order(low, x, low);
        lemma_scale_order(low, y, x);
        let p = x * y;
        assert(p >= (1 as real) / (4096 as real));
        lemma_mean_product(x, y);
        assert(p <= (2 as real) * top);
        lemma_product_error(froot(a), froot(b));
        let d = fmul(froot(a), froot(b));
        lemma_scale_order(ulp(), (1 as real) / (1_000_000 as real), p);
        let w = exact(d);
        assert(w >= (1 as real) / (8192 as real));
        lemma_exact_order(d, d);
        let q = exact(c) / w;
        lemma_quotient_back(exact(c), w);
        let zero = 0 as real;
        lemma_scale_order((1 as real) / (8192 as real), w, limit());
        assert((8192 as real) * top <= limit());
        lemma_distribute(w, zero, limit());
        assert(zero * w == zero);
        lemma_cancel_order(q, limit(), w);
        lemma_cancel_order(-limit(), q, w);
        lemma_quotient_error(c, d);
    }
}

/// A product is at most half the sum of the squares.
pub proof fn lemma_mean_product(x: real, y: real)
    ensures
        (2 as real) * (x * y) <= x * x + y * y,
{
    crate::reals::lemma_positive_square(x - y);
    lemma_distribute(x - y, x, y);
    lemma_distribute(x, x, y);
    lemma_distribute(y, x, y);
    lemma_commute(x, y);
}

/// An anchor gives a redundancy for two channels exactly where they share enough items, and
/// neither channel's scores are all equal over them.
pub proof fn lemma_pair_counts_where_both_vary(
    anchor: Anchor,
    cfg: CouplingConfig,
    a: int,
    b: int,
)
    requires
        anchor.wf(),
        0 <= a < anchor.channels@.len(),
        0 <= b < anchor.channels@.len(),
        overlap(anchor, a, b).len() <= 0x200_0000,
    ensures
        counts(anchor, cfg, a, b) <==> overlap(anchor, a, b).len() >= cfg.min_overlap && varies(
            overlap(anchor, a, b),
        ) && varies(overlap(anchor, b, a)),
        overlap(anchor, a, b).len() == overlap(anchor, b, a).len(),
{
    let s = overlap(anchor, a, b);
    let t = overlap(anchor, b, a);
    lemma_overlap_finite(anchor, a, b);
    lemma_overlap_finite(anchor, b, a);
    let mine = anchor.scores@[a]@;
    let theirs = anchor.scores@[b]@;
    lemma_shared_lengths(mine, theirs, crate::weighting::coupling::common_length(mine, theirs));
    if s.len() > 0 {
        assert forall|i: int| 0 <= i < s.len() implies !(#[trigger] s[i]).nan() by {
            assert(s[i].finite());
        }
        assert forall|i: int| 0 <= i < t.len() implies !(#[trigger] t[i]).nan() by {
            assert(t[i].finite());
        }
        lemma_correlates_where_both_vary(s, t);
    }
}

pub proof fn lemma_shared_lengths(mine: Seq<Option<Double>>, theirs: Seq<Option<Double>>, n: int)
    ensures
        crate::weighting::coupling::shared_scores(mine, theirs, n).len()
            == crate::weighting::coupling::shared_scores(theirs, mine, n).len(),
    decreases n,
{
    if n > 0 {
        lemma_shared_lengths(mine, theirs, n - 1);
    }
}

/// Two channels share enough items, and neither channel's scores are all equal over them.
pub open spec fn shows(anchor: Anchor, cfg: CouplingConfig, a: int, b: int) -> bool {
    &&& overlap(anchor, a, b).len() >= cfg.min_overlap
    &&& varies(overlap(anchor, a, b))
    &&& varies(overlap(anchor, b, a))
}

/// A rank correlation is that of two channels that count.
pub open spec fn stems_from(anchor: Anchor, cfg: CouplingConfig, r: RankCorrelation) -> bool {
    exists|x: int, y: int|
        0 <= x < y < anchor.channels@.len() && #[trigger] counts(anchor, cfg, x, y) && r
            == rank_correlation(anchor, x, y)
}

/// The rank correlations listed before a place are those of the pairs before it that count.
pub proof fn lemma_listed(anchor: Anchor, cfg: CouplingConfig, a: int, b: int)
    requires
        0 <= a <= anchor.channels@.len(),
        b <= anchor.channels@.len(),
    ensures
        forall|h: int|
            0 <= h < rank_correlations(anchor, cfg, a, b).len() ==> stems_from(
                anchor,
                cfg,
                #[trigger] rank_correlations(anchor, cfg, a, b)[h],
            ),
        forall|x: int, y: int|
            0 <= x < y < anchor.channels@.len() && #[trigger] counts(anchor, cfg, x, y) && (x < a || (
            x == a && y < b)) ==> rank_correlations(anchor, cfg, a, b).contains(
                rank_correlation(anchor, x, y),
            ),
    decreases a, b,
{
    let n = anchor.channels@.len() as int;
    let list = rank_correlations(anchor, cfg, a, b);
    if b > a + 1 {
        lemma_listed(anchor, cfg, a, b - 1);
        let rest = rank_correlations(anchor, cfg, a, b - 1);
        let last = rank_correlation(anchor, a, b - 1);
        assert forall|h: int| 0 <= h < list.len() implies stems_from(
            anchor,
            cfg,
            #[trigger] list[h],
        ) by {
            if h < rest.len() {
                assert(list[h] == rest[h]);
                assert(stems_from(anchor, cfg, rest[h]));
            } else {
                assert(counts(anchor, cfg, a, b - 1));
                assert(list[h] == last);
            }
        }
        assert forall|x: int, y: int|
            0 <= x < y < n && #[trigger] counts(anchor, cfg, x, y) && (x < a || (x == a && y
                < b)) implies list.contains(rank_correlation(anchor, x, y)) by {
            if x == a && y == b - 1 {
                assert(list[rest.len() as int] == last);
            } else {
                let r = rank_correlation(anchor, x, y);
                assert(rest.contains(r));
                let h = choose|h: int| 0 <= h < rest.len() && rest[h] == r;
                assert(list[h] == r);
            }
        }
    } else if a > 0 {
        lemma_listed(anchor, cfg, a - 1, n);
        assert(list == rank_correlations(anchor, cfg, a - 1, n));
    } else {
        assert(list == Seq::<RankCorrelation>::empty());
    }
}

/// Observations are keyed by the pairs that are listed.
pub proof fn lemma_observed_keys(
    channels: Seq<String>,
    list: Seq<RankCorrelation>,
    sines: Seq<Double>,
    n: int,
    k: (Seq<char>, Seq<char>),
)
    requires
        0 <= n <= list.len(),
    ensures
        observed(channels, list, sines, n).contains_key(k) <==> exists|h: int|
            0 <= h < n && k == canonical(
                channels[(#[trigger] list[h]).first as int]@,
                channels[list[h].second as int]@,
            ),
    decreases n,
{
    if n > 0 {
        lemma_observed_keys(channels, list, sines, n - 1, k);
        let r = list[n - 1];
        let last = canonical(channels[r.first as int]@, channels[r.second as int]@);
        if observed(channels, list, sines, n - 1).contains_key(k) {
            let h = choose|h: int|
                0 <= h < n - 1 && k == canonical(
                    channels[(#[trigger] list[h]).first as int]@,
                    channels[list[h].second as int]@,
                );
            assert(0 <= h < n);
        }
    }
}

/// What is read on an anchor holds exactly the pairs of channels that share enough items with
/// neither channel's scores all equal over them.
pub proof fn lemma_anchor_reads_what_varies(
    anchor: Anchor,
    cfg: CouplingConfig,
    sine: spec_fn(Double) -> Double,
    k: (Seq<char>, Seq<char>),
)
    requires
        anchor.wf(),
        forall|a: int, b: int|
            0 <= a < b < anchor.channels@.len() ==> (#[trigger] overlap(anchor, a, b)).len()
                <= 0x200_0000,
    ensures
        reads_as(anchor, cfg, sine).contains_key(k) <==> exists|a: int, b: int|
            0 <= a < b < anchor.channels@.len() && #[trigger] shows(anchor, cfg, a, b) && k
                == canonical(anchor.channels@[a]@, anchor.channels@[b]@),
{
    let n = anchor.channels@.len() as int;
    let list = all_rank_correlations(anchor, cfg);
    let sines = Seq::new(list.len(), |i: int| sine(crate::weighting::coupling::copula_argument(
        list[i].rho,
    )));
    let limit: usize = anchor.channels.len();
    lemma_observed_keys(anchor.channels@, list, sines, list.len() as int, k);
    lemma_listed(anchor, cfg, n, 0);
    if reads_as(anchor, cfg, sine).contains_key(k) {
        let h = choose|h: int|
            0 <= h < list.len() && k == canonical(
                anchor.channels@[(#[trigger] list[h]).first as int]@,
                anchor.channels@[list[h].second as int]@,
            );
        assert(stems_from(anchor, cfg, list[h]));
        let (x, y) = choose|x: int, y: int|
            0 <= x < y < n && #[trigger] counts(anchor, cfg, x, y) && list[h] == rank_correlation(
                anchor,
                x,
                y,
            );
        assert(overlap(anchor, x, y).len() <= 0x200_0000);
        lemma_pair_counts_where_both_vary(anchor, cfg, x, y);
        assert(shows(anchor, cfg, x, y));
    }
    if exists|a: int, b: int|
        0 <= a < b < n && #[trigger] shows(anchor, cfg, a, b) && k == canonical(
            anchor.channels@[a]@,
            anchor.channels@[b]@,
        ) {
        let (a, b) = choose|a: int, b: int|
            0 <= a < b < n && #[trigger] shows(anchor, cfg, a, b) && k == canonical(
                anchor.channels@[a]@,
                anchor.channels@[b]@,
            );
        assert(overlap(anchor, a, b).len() <= 0x200_0000);
        lemma_pair_counts_where_both_vary(anchor, cfg, a, b);
        let r = rank_correlation(anchor, a, b);
        assert(list.contains(r));
        let h = choose|h: int| 0 <= h < list.len() && list[h] == r;
        assert(list[h].first as int == a && list[h].second as int == b);
    }
}

} // verus!
