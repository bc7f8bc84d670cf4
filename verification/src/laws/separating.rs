//! What the separation of a pool is: how far its extreme top lies above its median, in units
//! of the scale of its bulk.
use crate::config::{is_non_negative, DiscriminationConfig};
use crate::double::{
    fcount, ffloor, fceil, fmul, fone, fratio, fsub, fzero, unit, Double, UNIT_EXPONENT,
};
use crate::exact::{lemma_one, lemma_positive_ratio};
use crate::ingest::input::Items;
use crate::laws::affine::{
    addition_error, bulk_scale, comfortable, countable, exact_between, exact_gap, exact_quantile,
    exact_scale, floor_weight, held_within, larger, lemma_elevation_near, lemma_place,
    lemma_proportions, lemma_ratio_near, lemma_scale_near, lemma_scaled_out, lemma_whole_part,
    proportion, quantile_place, quantile_share, readable,
};
use crate::laws::pools::{exact_guard, guard, lemma_guard_near, lemma_ratio_finite};
use crate::laws::ranking::lemma_order_sorts;
use crate::numeric::{ascending, order_of, total_keys};
use crate::precision::{
    exact, lemma_difference_error, lemma_exact_count, lemma_exact_order, lemma_product_error,
    lemma_quotient_error, lemma_small_errors, size, ulp,
};
use crate::reals::{
    lemma_associate, lemma_cancel_order, lemma_commute, lemma_distribute, lemma_positive_product,
    lemma_product_bound, lemma_quotient_back, lemma_scale_order,
};
use crate::sorting::sorts_before;
use crate::summary::MeanVar;
use crate::weighting::discrimination::{
    bulk_gap, discriminated, distinct, gap_floor, items_reading, pool_scores, separation_defined,
    separation_of, separation_ratio, top_count, ChannelDiscrimination,
};
use vstd::arithmetic::power2::lemma_pow2_pos;
use vstd::prelude::*;

verus! {

/// A sequence holds the scores of a pool from the smallest to the largest.
pub open spec fn arranges(s: Seq<Double>, scores: Seq<Double>) -> bool {
    &&& s.len() == scores.len()
    &&& exists|place: spec_fn(int) -> int| #[trigger] rearranges(s, scores, place)
    &&& forall|i: int, j: int|
        #![trigger s[i], s[j]]
        0 <= i <= j < s.len() ==> exact(s[i]) <= exact(s[j])
}

/// Every score of a pool is held once, at the place that the function says.
pub open spec fn rearranges(
    s: Seq<Double>,
    scores: Seq<Double>,
    place: spec_fn(int) -> int,
) -> bool {
    &&& forall|i: int| 0 <= i < s.len() ==> 0 <= #[trigger] place(i) < scores.len() && s[i]
        == scores[place(i)]
    &&& forall|i: int, j: int|
        #![trigger place(i), place(j)]
        0 <= i < j < s.len() ==> place(i) != place(j)
}

/// The sorted scores of a pool arrange it.
proof fn lemma_ascending_arranges(scores: Seq<Double>)
    requires
        scores.len() <= usize::MAX,
        forall|i: int| 0 <= i < scores.len() ==> (#[trigger] scores[i]).finite(),
    ensures
        arranges(ascending(scores), scores),
        forall|i: int| 0 <= i < scores.len() ==> (#[trigger] ascending(scores)[i]).finite(),
{
    let keys = total_keys(scores);
    let order = order_of(keys);
    let s = ascending(scores);
    lemma_order_sorts(keys);
    let place = |i: int| order[i] as int;
    assert forall|i: int| 0 <= i < s.len() implies 0 <= #[trigger] place(i) < scores.len() && s[i]
        == scores[place(i)] by {
        assert(0 <= order[i] < scores.len());
    }
    assert forall|i: int| 0 <= i < s.len() implies (#[trigger] s[i]).finite() by {
        assert(0 <= place(i) < scores.len());
        assert(scores[place(i)].finite());
    }
    assert forall|i: int, j: int|
        #![trigger place(i), place(j)]
        0 <= i < j < s.len() implies place(i) != place(j) by {
        assert(sorts_before(keys, order[i] as int, order[j] as int));
    }
    assert(rearranges(s, scores, place));
    assert forall|i: int, j: int|
        #![trigger s[i], s[j]]
        0 <= i <= j < s.len() implies exact(s[i]) <= exact(s[j]) by {
        crate::laws::pools::lemma_ascends(scores, order, i, j);
    }
}

/// A number lies at the proportion `p` of a sorted sequence, by linear interpolation between
/// its members, up to `slack`; the place may be off by a few roundings of the length.
pub open spec fn interpolates(s: Seq<Double>, p: real, q: real, slack: real) -> bool {
    exists|low: int, h: real| #[trigger] interpolates_at(s, p, q, slack, low, h)
}

pub open spec fn interpolates_at(
    s: Seq<Double>,
    p: real,
    q: real,
    slack: real,
    low: int,
    h: real,
) -> bool {
    let n = s.len() as int;
    &&& 0 <= low
    &&& (low as real) <= h <= (low as real) + (1 as real)
    &&& size(h - ((n - 1) as real) * p) <= (8 as real) * (ulp() * (n as real))
    &&& low + 1 < n ==> size(
        q - (exact(s[low]) + (h - (low as real)) * (exact(s[low + 1]) - exact(s[low]))),
    ) <= slack
    &&& low + 1 >= n ==> size(q - exact(s[n - 1])) <= slack
}

/// The place of a quantile, without rounding.
proof fn lemma_place_near(n: int, num: int, den: int)
    requires
        countable(n),
        0 < num <= den <= 10,
    ensures
        (0 as real) <= (num as real) / (den as real) <= (1 as real),
        ({
            let p = fratio(num, den);
            let h = fmul(fsub(fcount(n), fone()), p);
            &&& proportion(p)
            &&& h.finite()
            &&& !h.negative()
            &&& size(exact(h) - ((n - 1) as real) * ((num as real) / (den as real))) <= (8 as real)
                * (ulp() * (n as real))
        }),
{
    lemma_small_errors();
    lemma_one();
    let one = 1 as real;
    let zero = 0 as real;
    let u = ulp();
    lemma_exact_count(num);
    lemma_exact_count(den);
    lemma_exact_count(n);
    lemma_exact_order(fone(), fone());
    let p = (num as real) / (den as real);
    let d = den as real;
    lemma_quotient_back(num as real, d);
    assert(zero * d == zero && one * d == d);
    lemma_cancel_order(p, one, d);
    lemma_cancel_order(zero, p, d);
    lemma_quotient_error(fcount(num), fcount(den));
    let f = fratio(num, den);
    lemma_scale_order(p, one, u);
    lemma_positive_ratio(num, den);
    lemma_exact_order(fzero(), f);
    crate::laws::affine::lemma_unsigned(f);
    lemma_difference_error(fcount(n), fone());
    let m = fsub(fcount(n), fone());
    let nr = n as real;
    let k = nr - one;
    assert((n - 1) as real == k);
    lemma_scale_order(u, one / (1_000_000 as real), k);
    lemma_place_product(exact(m), k, exact(f), p);
    let t = exact(m) * exact(f);
    assert(size(t) <= (2 as real) * nr);
    lemma_product_error(m, f);
    lemma_scale_order(size(t), (2 as real) * nr, u);
    lemma_scaled_out(u, 2 as real, nr);
    lemma_scale_order(k, nr, u);
    lemma_scale_order(one, nr, u);
    let h = fmul(m, f);
    if n == 1 {
        crate::double::lemma_small_counts();
        crate::halves::lemma_less_itself(fone());
        crate::exact::lemma_mul_zero(f);
    } else {
        crate::laws::affine::lemma_unsigned(m);
        crate::laws::affine::lemma_unsigned_product(m, f);
    }
}

/// The place before the product is rounded.
proof fn lemma_place_product(m: real, k: real, f: real, p: real)
    requires
        (0 as real) <= k <= (0x100_0000_0000int as real),
        size(m - k) <= ulp() * k,
        size(f - p) <= (2 as real) * ulp(),
        (0 as real) <= p <= (1 as real),
    ensures
        size(m * f - k * p) <= (4 as real) * (ulp() * k),
        size(m * f) <= (2 as real) * (k + (1 as real)),
{
    lemma_small_errors();
    let u = ulp();
    let one = 1 as real;
    let two = 2 as real;
    let x = u * k;
    assert(size(f) <= two);
    lemma_product_bound(m - k, f, x, two);
    lemma_product_bound(k, f - p, k, two * u);
    lemma_distribute(f, m, k);
    lemma_distribute(k, f, p);
    lemma_scaled_out(k, two, u);
    lemma_commute(k, u);
    lemma_positive_product(u, k);
    lemma_scale_order(p, one, k);
    lemma_positive_product(k, p);
    lemma_scale_order(u, one / (1_000_000 as real), k);
}

/// A quantile without rounding lies at its proportion.
proof fn lemma_quantile_interpolates(s: Seq<Double>, num: int, den: int, bound: real)
    requires
        countable(s.len() as int),
        0 < num <= den <= 10,
        held_within(s, bound),
    ensures
        interpolates(
            s,
            (num as real) / (den as real),
            exact_quantile(s, fratio(num, den)),
            (2 as real) * (ulp() * bound),
        ),
{
    lemma_small_errors();
    let n = s.len() as int;
    let p = fratio(num, den);
    let h = fmul(fsub(fcount(n), fone()), p);
    lemma_place_near(n, num, den);
    let low = quantile_place(n, p);
    lemma_place(n, p);
    assert(s[0].finite() && s[n - 1].finite());
    let u = ulp();
    lemma_scale_order(0 as real, bound, u);
    let q = exact_quantile(s, p);
    let slack = (2 as real) * (u * bound);
    let rp = (num as real) / (den as real);
    // A place so large that it cannot be counted does not occur.
    lemma_floor_small(h, n, rp);
    lemma_whole_part(h);
    if n > 1 && low + 1 < n {
        assert(s[low].finite() && s[low + 1].finite());
        lemma_exact_count(low);
        lemma_difference_error(h, fcount(low));
        let f = exact(quantile_share(n, p));
        let g = exact(h) - (low as real);
        lemma_scale_order(size(g), 1 as real, u);
        let gap = exact(s[low + 1]) - exact(s[low]);
        lemma_product_bound(f - g, gap, u, (2 as real) * bound);
        lemma_distribute(gap, f, g);
        lemma_scaled_out(u, 2 as real, bound);
    }
    assert(interpolates_at(s, rp, q, slack, low, exact(h)));
}

/// The whole part of a place is a small count.
proof fn lemma_floor_small(h: Double, n: int, p: real)
    requires
        countable(n),
        h.finite(),
        !h.negative(),
        (0 as real) <= p <= (1 as real),
        size(exact(h) - ((n - 1) as real) * p) <= (8 as real) * (ulp() * (n as real)),
    ensures
        ffloor(h) < usize::MAX,
{
    lemma_small_errors();
    let u = unit();
    lemma_pow2_pos(UNIT_EXPONENT as nat);
    let nr = n as real;
    let one = 1 as real;
    lemma_scale_order(p, one, (n - 1) as real);
    lemma_scale_order(ulp(), one / (100 as real), nr);
    lemma_scale_order(nr, 0x100_0000_0000int as real, ulp());
    // The place is at most the last one and a little.
    assert(exact(h) < nr) by {
        assert(ulp() * nr <= one / (100 as real));
    }
    let ur = u as real;
    let v = h.value();
    crate::exact::lemma_magnitude_sign(h.unsigned());
    lemma_quotient_back(v as real, ur);
    if v >= n * u {
        assert((n * u) as real == nr * ur) by (nonlinear_arith)
            requires
                nr == n as real,
                ur == u as real,
        ;
        lemma_cancel_order(nr, exact(h), ur);
    }
    assert(v / u < n) by (nonlinear_arith)
        requires
            0 <= v < n * u,
            u > 0,
    ;
}

/// The values of the first `n` numbers.
pub open spec fn values(s: Seq<Double>, n: int) -> Set<real> {
    Set::new(|v: real| exists|i: int| 0 <= i < n && exact(#[trigger] s[i]) == v)
}

/// The places at which a new value starts are as many as there are values.
proof fn lemma_distinct_values(s: Seq<Double>, n: int)
    requires
        0 < n <= s.len(),
        forall|i: int| 0 <= i < s.len() ==> (#[trigger] s[i]).finite(),
        forall|i: int, j: int|
            #![trigger s[i], s[j]]
            0 <= i <= j < s.len() ==> exact(s[i]) <= exact(s[j]),
    ensures
        values(s, n).finite(),
        distinct(s, n) == values(s, n).len(),
    decreases n,
{
    let now = values(s, n);
    let x = exact(s[n - 1]);
    if n == 1 {
        assert(now =~= Set::empty().insert(x)) by {
            assert(exact(s[0]) == x);
        }
    } else {
        lemma_distinct_values(s, n - 1);
        let before = values(s, n - 1);
        assert(s[n - 1].finite() && s[n - 2].finite());
        lemma_exact_order(s[n - 1], s[n - 2]);
        lemma_exact_order(s[n - 2], s[n - 1]);
        assert(now =~= before.insert(x)) by {
            assert forall|v: real| now.contains(v) == before.insert(x).contains(v) by {
                if now.contains(v) {
                    let i = choose|i: int| 0 <= i < n && exact(#[trigger] s[i]) == v;
                    if i < n - 1 {
                        assert(exact(s[i]) == v);
                    }
                }
                if before.contains(v) {
                    let i = choose|i: int| 0 <= i < n - 1 && exact(#[trigger] s[i]) == v;
                    assert(exact(s[i]) == v);
                }
                assert(exact(s[n - 1]) == x);
            }
        }
        if before.contains(x) {
            let i = choose|i: int| 0 <= i < n - 1 && exact(#[trigger] s[i]) == x;
            assert(exact(s[i]) <= exact(s[n - 2]) <= exact(s[n - 1]));
            assert(now =~= before);
        } else {
            if exact(s[n - 2]) == x {
                assert(before.contains(x));
            }
        }
    }
}

/// A number of scores forms the extreme top of a pool: the given share of it, rounded up, at
/// least one and at most all; the share may be off by a rounding.
pub open spec fn tops_pool(k: int, n: int, share: real) -> bool {
    let x = share * (n as real);
    let slack = (2 as real) * (ulp() * (n as real));
    &&& 1 <= k <= n
    &&& k < n ==> x - slack <= (k as real)
    &&& 1 < k ==> ((k - 1) as real) < x + slack
}

/// The least whole number above a number is less than one above it.
proof fn lemma_ceiling(x: Double)
    requires
        x.finite(),
        !x.negative(),
        fceil(x) < usize::MAX,
    ensures
        0 <= fceil(x),
        exact(x) <= (fceil(x) as real),
        (fceil(x) as real) < exact(x) + (1 as real),
{
    lemma_pow2_pos(UNIT_EXPONENT as nat);
    let u = unit();
    let v = x.value();
    crate::exact::lemma_magnitude_sign(x.unsigned());
    let k = (v + u - 1) / u;
    vstd::arithmetic::div_mod::lemma_fundamental_div_mod(v + u - 1, u);
    vstd::arithmetic::div_mod::lemma_mod_bound(v + u - 1, u);
    vstd::arithmetic::div_mod::lemma_div_pos_is_pos(v + u - 1, u);
    assert(u * k == k * u) by (nonlinear_arith);
    assert(v <= k * u < v + u);
    let ur = u as real;
    let vr = v as real;
    let kr = k as real;
    let one = 1 as real;
    lemma_quotient_back(vr, ur);
    assert((k * u) as real == kr * ur) by (nonlinear_arith)
        requires
            kr == k as real,
            ur == u as real,
    ;
    lemma_cancel_order(exact(x), kr, ur);
    lemma_distribute(ur, exact(x), one);
    if kr >= exact(x) + one {
        lemma_scale_order(exact(x) + one, kr, ur);
    }
}

/// The top of a pool is its share.
proof fn lemma_top_count(n: int, cfg: DiscriminationConfig)
    requires
        countable(n),
        cfg.top_eps.finite(),
        (0 as real) < exact(cfg.top_eps) <= (1 as real),
    ensures
        tops_pool(top_count(n, cfg), n, exact(cfg.top_eps)),
{
    lemma_small_errors();
    let one = 1 as real;
    let u = ulp();
    let nr = n as real;
    let e = exact(cfg.top_eps);
    lemma_exact_count(n);
    let x = e * nr;
    lemma_positive_product(e, nr);
    lemma_scale_order(e, one, nr);
    lemma_product_error(cfg.top_eps, fcount(n));
    let y = fmul(cfg.top_eps, fcount(n));
    lemma_scale_order(size(x), nr, u);
    lemma_scale_order(one, nr, u);
    crate::laws::affine::lemma_unsigned(cfg.top_eps);
    crate::laws::affine::lemma_unsigned_product(cfg.top_eps, fcount(n));
    let k = fceil(y);
    if k < usize::MAX {
        lemma_ceiling(y);
    } else {
        // So large a count is all of the pool, and more than the share allows.
        lemma_ceiling_large(y, n);
    }
}

/// A ceiling as large as counts go belongs to a number above the pool.
proof fn lemma_ceiling_large(y: Double, n: int)
    requires
        countable(n),
        y.finite(),
        !y.negative(),
        fceil(y) >= usize::MAX,
    ensures
        ((n - 1) as real) < exact(y),
{
    lemma_pow2_pos(UNIT_EXPONENT as nat);
    let u = unit();
    let v = y.value();
    crate::exact::lemma_magnitude_sign(y.unsigned());
    let k = (v + u - 1) / u;
    assert(k >= n) by {
        assert(k >= usize::MAX);
    }
    vstd::arithmetic::div_mod::lemma_fundamental_div_mod(v + u - 1, u);
    vstd::arithmetic::div_mod::lemma_mod_bound(v + u - 1, u);
    assert(u * k == k * u) by (nonlinear_arith);
    assert(k * u < v + u);
    assert((n - 1) * u < v) by (nonlinear_arith)
        requires
            k * u < v + u,
            k >= n,
            u > 0,
    ;
    let ur = u as real;
    lemma_quotient_back(v as real, ur);
    let mr = (n - 1) as real;
    assert(((n - 1) * u) as real == mr * ur) by (nonlinear_arith)
        requires
            mr == (n - 1) as real,
            ur == u as real,
    ;
    if exact(y) <= mr {
        lemma_scale_order(exact(y), mr, ur);
    }
}

/// The knobs that the separation depends on are usable.
pub open spec fn separates_well(cfg: DiscriminationConfig) -> bool {
    &&& cfg.top_eps.finite()
    &&& (0 as real) < exact(cfg.top_eps) <= (1 as real)
    &&& is_non_negative(cfg.denom_floor_frac)
}

/// What the separation of a pool is made of: the sorted scores, how many form the top, the
/// median `m`, the tenth `a` and the quartiles `b` and `c`.
pub open spec fn separated_by(
    scores: Seq<Double>,
    cfg: DiscriminationConfig,
    raw: Option<Double>,
    degenerate: bool,
    bound: real,
    s: Seq<Double>,
    k: int,
    m: real,
    a: real,
    b: real,
    c: real,
) -> bool {
    let n = scores.len() as int;
    let error = ulp() * (floor_weight(cfg) * bound);
    let slack = (2 as real) * (ulp() * bound);
    let top = exact_between(s, n - k, n) / (k as real);
    let gap = m - a;
    let floor = exact(cfg.denom_floor_frac) * (c - b);
    let scale = larger(gap, floor);
    let guard = (1 as real) / (1_000_000_000 as real) * (c - a);
    let room = (400 as real) * error;
    &&& arranges(s, scores)
    &&& tops_pool(k, n, exact(cfg.top_eps))
    &&& interpolates(s, (1 as real) / (2 as real), m, slack)
    &&& interpolates(s, (1 as real) / (10 as real), a, slack)
    &&& interpolates(s, (1 as real) / (4 as real), b, slack)
    &&& interpolates(s, (3 as real) / (4 as real), c, slack)
    // Whether there is a statistic.
    &&& values(scores, n).len() < cfg.min_distinct_values ==> raw is None
    &&& guard - scale > room ==> raw is None
    &&& values(scores, n).len() >= cfg.min_distinct_values && scale > room && scale - guard > room
        ==> raw is Some
    // The top's elevation over the median, by the scale of the bulk.
    &&& raw is Some && scale > room ==> raw->0.finite() && size(
        exact(raw->0) * scale - (top - m),
    ) <= addition_error(n, bound) + (40 as real) * error + (59 as real) * (size(exact(raw->0))
        * error)
    // Whether the scale was floored.
    &&& raw is None ==> degenerate
    &&& raw is Some && floor - gap > room ==> degenerate
    &&& raw is Some && gap - floor > room ==> !degenerate
}

/// What the separation of a scored channel is: the mean of the extreme top of its pool less the
/// median, over the gap from the tenth to the median, which is no less than a given part of
/// the inter-quartile range; flagged where that part is the larger one; and undefined, and
/// flagged, where too few values are distinct or the scale vanishes next to the bulk's span.
pub proof fn lemma_separation_is_elevation_over_bulk<Id, E: Fn(Double) -> Double>(
    items: Items<Id>,
    separation: MeanVar,
    reference: MeanVar,
    cfg: DiscriminationConfig,
    exp: E,
    d: ChannelDiscrimination,
    bound: real,
)
    requires
        items is Scored,
        countable(items->Scored_0@.len() as int),
        held_within(pool_scores(items->Scored_0@), bound),
        comfortable(items->Scored_0@.len() as int, bound),
        comfortable(items->Scored_0@.len() as int, floor_weight(cfg) * bound),
        separates_well(cfg),
        discriminated(items, separation, reference, cfg, exp, d),
    ensures
        exists|s: Seq<Double>, k: int, m: real, a: real, b: real, c: real| #[trigger]
            separated_by(
                pool_scores(items->Scored_0@),
                cfg,
                d.raw_separation,
                d.degenerate_separation,
                bound,
                s,
                k,
                m,
                a,
                b,
                c,
            ),
{
    let scores = pool_scores(items->Scored_0@);
    let n = scores.len() as int;
    let s = ascending(scores);
    let k = top_count(n, cfg);
    let m = exact_quantile(s, fratio(1, 2));
    let a = exact_quantile(s, fratio(1, 10));
    let b = exact_quantile(s, fratio(1, 4));
    let c = exact_quantile(s, fratio(3, 4));
    let r = items_reading(items, separation, reference, cfg);
    assert(r.raw_separation == separation_of(s, cfg).0);
    assert(r.degenerate_separation == separation_of(s, cfg).1);
    assert(d.raw_separation == r.raw_separation && d.degenerate_separation
        == r.degenerate_separation);
    assert forall|i: int| 0 <= i < n implies (#[trigger] scores[i]).finite() by {}
    lemma_ascending_arranges(scores);
    lemma_sorted_within(scores, bound);
    lemma_top_count(n, cfg);
    lemma_quantile_interpolates(s, 1, 2, bound);
    lemma_quantile_interpolates(s, 1, 10, bound);
    lemma_quantile_interpolates(s, 1, 4, bound);
    lemma_quantile_interpolates(s, 3, 4, bound);
    assert((1int as real) / (2int as real) == (1 as real) / (2 as real));
    lemma_same_values(scores);
    lemma_distinct_values(s, n);
    lemma_separated(s, cfg, bound);
    assert(separated_by(
        scores,
        cfg,
        d.raw_separation,
        d.degenerate_separation,
        bound,
        s,
        k,
        m,
        a,
        b,
        c,
    ));
}

/// Sorting keeps the scores within their bound.
proof fn lemma_sorted_within(scores: Seq<Double>, bound: real)
    requires
        scores.len() <= usize::MAX,
        held_within(scores, bound),
    ensures
        held_within(ascending(scores), bound),
{
    let order = order_of(total_keys(scores));
    lemma_order_sorts(total_keys(scores));
    let s = ascending(scores);
    assert forall|i: int| 0 <= i < s.len() implies (#[trigger] s[i]).finite() && size(exact(s[i]))
        <= bound by {
        assert(0 <= order[i] < scores.len());
        assert(scores[order[i] as int].finite());
    }
}

/// Sorting keeps the values.
proof fn lemma_same_values(scores: Seq<Double>)
    requires
        scores.len() <= usize::MAX,
    ensures
        values(ascending(scores), scores.len() as int) == values(scores, scores.len() as int),
{
    let n = scores.len() as int;
    let keys = total_keys(scores);
    let order = order_of(keys);
    lemma_order_sorts(keys);
    let s = ascending(scores);
    assert forall|v: real| values(s, n).contains(v) == values(scores, n).contains(v) by {
        if values(s, n).contains(v) {
            let i = choose|i: int| 0 <= i < n && exact(#[trigger] s[i]) == v;
            assert(0 <= order[i] < n);
            assert(exact(scores[order[i] as int]) == v);
        }
        if values(scores, n).contains(v) {
            let i = choose|i: int| 0 <= i < n && exact(#[trigger] scores[i]) == v;
            assert(order.contains(i as usize));
            let t = choose|t: int| 0 <= t < order.len() && order[t] == i as usize;
            assert(exact(s[t]) == v);
        }
    }
    assert(values(s, n) =~= values(scores, n));
}

/// The statistic of a sorted pool, by its exact parts.
proof fn lemma_separated(s: Seq<Double>, cfg: DiscriminationConfig, bound: real)
    requires
        countable(s.len() as int),
        held_within(s, bound),
        comfortable(s.len() as int, bound),
        comfortable(s.len() as int, floor_weight(cfg) * bound),
        separates_well(cfg),
    ensures
        ({
            let n = s.len() as int;
            let k = top_count(n, cfg);
            let m = exact_quantile(s, fratio(1, 2));
            let a = exact_quantile(s, fratio(1, 10));
            let b = exact_quantile(s, fratio(1, 4));
            let c = exact_quantile(s, fratio(3, 4));
            let error = ulp() * (floor_weight(cfg) * bound);
            let gap = m - a;
            let floor = exact(cfg.denom_floor_frac) * (c - b);
            let scale = larger(gap, floor);
            let guard = (1 as real) / (1_000_000_000 as real) * (c - a);
            let room = (400 as real) * error;
            let top = exact_between(s, n - k, n) / (k as real);
            let raw = separation_of(s, cfg).0;
            let flag = separation_of(s, cfg).1;
            &&& guard - scale > room ==> raw is None
            &&& distinct(s, n) >= cfg.min_distinct_values && scale > room && scale - guard > room
                ==> raw is Some
            &&& raw is Some && scale > room ==> raw->0.finite() && size(
                exact(raw->0) * scale - (top - m),
            ) <= addition_error(n, bound) + (40 as real) * error + (59 as real) * (size(
                exact(raw->0),
            ) * error)
            &&& raw is None ==> flag
            &&& raw is Some && floor - gap > room ==> flag
            &&& raw is Some && gap - floor > room ==> !flag
        }),
{
    lemma_small_errors();
    let n = s.len() as int;
    let u = ulp();
    let e = u * bound;
    let error = u * (floor_weight(cfg) * bound);
    lemma_scale_near(s, cfg, bound);
    lemma_elevation_near(s, cfg, bound);
    lemma_guard_near(s, bound);
    lemma_guard_is_billionth(s, bound);
    lemma_positive_product(u, bound);
    let scale = exact_scale(s, cfg);
    let y = exact(bulk_scale(s, cfg));
    lemma_exact_order(bulk_scale(s, cfg), guard(s));
    lemma_exact_order(bulk_gap(s), gap_floor(s, cfg));
    if scale > (400 as real) * error {
        lemma_ratio_finite(s, cfg, bound);
        if separation_defined(s, cfg) {
            assert(readable(s, cfg));
            lemma_ratio_near(s, cfg, bound);
            let x = exact(separation_ratio(s, cfg));
            lemma_product_bound(x, scale - y, size(x), (59 as real) * error);
            lemma_distribute(x, scale, y);
            lemma_scaled_out(size(x), 59 as real, error);
        }
    }
}

/// The share of the span that the scale must exceed is a billionth, up to rounding.
proof fn lemma_guard_is_billionth(s: Seq<Double>, bound: real)
    requires
        countable(s.len() as int),
        held_within(s, bound),
        comfortable(s.len() as int, bound),
    ensures
        size(
            exact_guard(s) - (1 as real) / (1_000_000_000 as real) * exact_gap(
                s,
                fratio(3, 4),
                fratio(1, 10),
            ),
        ) <= (40 as real) * (ulp() * bound),
{
    lemma_small_errors();
    lemma_proportions();
    lemma_exact_count(1);
    lemma_exact_count(1_000_000_000);
    let u = ulp();
    let p = (1 as real) / (1_000_000_000 as real);
    lemma_quotient_error(fcount(1), fcount(1_000_000_000));
    let f = exact(fratio(1, 1_000_000_000));
    assert(p <= (1 as real));
    lemma_scale_order(p, 1 as real, u);
    let gap = exact_gap(s, fratio(3, 4), fratio(1, 10));
    crate::laws::affine::lemma_gap_near(s, fratio(3, 4), fratio(1, 10), bound);
    lemma_scale_order(u, (1 as real) / (1_000_000 as real), bound);
    lemma_product_bound(f - p, gap, (2 as real) * u, (14 as real) * bound);
    lemma_distribute(gap, f, p);
    lemma_twice_fourteen(u, bound);
}

proof fn lemma_twice_fourteen(u: real, bound: real)
    ensures
        (2 as real) * u * ((14 as real) * bound) == (28 as real) * (u * bound),
{
    lemma_associate((2 as real) * u, 14 as real, bound);
    lemma_commute((2 as real) * u, 14 as real);
    lemma_associate(14 as real, 2 as real, u);
    lemma_associate((14 as real) * (2 as real), u, bound);
}

} // verus!
