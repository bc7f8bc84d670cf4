//! Laws of what a pool of scores says, under a change of scale and origin: of pools in any
//! order, and of whether the statistic is defined.
use crate::config::{is_non_negative, DiscriminationConfig};
use crate::double::{fcount, fmul, fratio, fsub, fzero, Double};
use crate::exact::{lemma_one, lemma_positive_ratio};
use crate::laws::affine::{
    bulk_scale, comfortable, countable, elevation, exact_gap, exact_scale, floor_weight, follows,
    held_within, lemma_across, lemma_elevation_near, lemma_errors_scale, lemma_gap_follows,
    lemma_gap_near, lemma_proportions, lemma_scale_follows, lemma_scale_near, lemma_scaled_out,
    lemma_separation_ignores_scale_and_shift, readable,
};
use crate::laws::ranking::lemma_order_sorts;
use crate::numeric::{ascending, order_of, total_key, total_keys};
use crate::precision::{
    exact, lemma_exact_count, lemma_exact_order, lemma_product_error, lemma_quotient_error,
    lemma_small_errors, limit, size, ulp,
};
use crate::reals::{
    lemma_associate, lemma_cancel_order, lemma_commute, lemma_distribute, lemma_positive_product,
    lemma_product_bound, lemma_quotient_back, lemma_scale_order,
};
use crate::sorting::{sorts, sorts_before};
use crate::summary::MeanVar;
use crate::weighting::discrimination::{
    distinct, quantile, reading, separation_defined, separation_ratio,
};
use vstd::prelude::*;

verus! {

/// Of two listings of the same places, one of the first `i` and one more of the one is not
/// among the first `i` of the other.
proof fn lemma_listings_cross(
    keys: Seq<u64>,
    other: Seq<u64>,
    p: Seq<usize>,
    q: Seq<usize>,
    i: int,
) -> (at: (int, int))
    requires
        sorts(keys, p),
        sorts(other, q),
        keys.len() == other.len(),
        keys.len() <= usize::MAX,
        0 <= i < keys.len(),
    ensures
        0 <= at.0 <= i <= at.1 < keys.len(),
        p[at.0] == q[at.1],
{
    let n = keys.len() as int;
    let f = |x: int| p[x] as int;
    let g = |y: int| q[y] as int;
    let xs = vstd::set_lib::set_int_range(0, i + 1);
    let ys = vstd::set_lib::set_int_range(0, i);
    vstd::set_lib::lemma_int_range(0, i + 1);
    vstd::set_lib::lemma_int_range(0, i);
    let a = xs.map(f);
    let b = ys.map(g);
    assert forall|x: int, y: int|
        #![trigger f(x), f(y)]
        xs.contains(x) && xs.contains(y) && f(x) == f(y) implies x == y by {
        if x < y {
            assert(sorts_before(keys, p[x] as int, p[y] as int));
        } else if y < x {
            assert(sorts_before(keys, p[y] as int, p[x] as int));
        }
    }
    assert forall|x: int, y: int|
        #![trigger g(x), g(y)]
        ys.contains(x) && ys.contains(y) && g(x) == g(y) implies x == y by {
        if x < y {
            assert(sorts_before(other, q[x] as int, q[y] as int));
        } else if y < x {
            assert(sorts_before(other, q[y] as int, q[x] as int));
        }
    }
    vstd::set_lib::lemma_map_size(xs, a, f);
    vstd::set_lib::lemma_map_size(ys, b, g);
    if a.subset_of(b) {
        ys.lemma_map_finite(g);
        vstd::set_lib::lemma_len_subset(a, b);
    }
    let e = choose|e: int| a.contains(e) && !b.contains(e);
    let x = choose|x: int| xs.contains(x) && f(x) == e;
    assert(0 <= p[x] < n);
    assert(q.contains(p[x]));
    let y = choose|y: int| 0 <= y < q.len() && q[y] == p[x];
    if y < i {
        assert(ys.contains(y) && g(y) == e);
    }
    (x, y)
}

/// In an ascending sequence no number is above a later one.
pub proof fn lemma_ascends(s: Seq<Double>, order: Seq<usize>, i: int, j: int)
    requires
        sorts(total_keys(s), order),
        forall|h: int| 0 <= h < s.len() ==> (#[trigger] s[h]).finite(),
        0 <= i <= j < s.len(),
    ensures
        exact(s[order[i] as int]) <= exact(s[order[j] as int]),
{
    let keys = total_keys(s);
    assert(0 <= order[i] < s.len() && 0 <= order[j] < s.len());
    let x = s[order[i] as int];
    let y = s[order[j] as int];
    assert(x.finite() && y.finite());
    if i < j {
        assert(sorts_before(keys, order[i] as int, order[j] as int));
        assert(total_key(x) <= total_key(y));
    }
    lemma_exact_order(x, y);
}

/// Sorting two pools, of which the one follows the other, leaves it following.
pub proof fn lemma_sorted_follows(
    s: Seq<Double>,
    t: Seq<Double>,
    a: real,
    b: real,
    base: real,
    bound: real,
)
    requires
        countable(s.len() as int),
        a > (0 as real),
        held_within(s, base),
        held_within(t, bound),
        follows(s, t, a, b, bound),
    ensures
        follows(ascending(s), ascending(t), a, b, bound),
        held_within(ascending(s), base),
        held_within(ascending(t), bound),
        ascending(s).len() == s.len(),
        ascending(t).len() == s.len(),
{
    let n = s.len() as int;
    let p = order_of(total_keys(s));
    let q = order_of(total_keys(t));
    lemma_order_sorts(total_keys(s));
    lemma_order_sorts(total_keys(t));
    let d = (4 as real) * (ulp() * bound);
    let x = ascending(s);
    let y = ascending(t);
    assert forall|i: int| 0 <= i < n implies (#[trigger] x[i]).finite() && size(exact(x[i])) <= base by {
        assert(0 <= p[i] < n);
        assert(s[p[i] as int].finite());
    }
    assert forall|i: int| 0 <= i < n implies (#[trigger] y[i]).finite() && size(exact(y[i]))
        <= bound by {
        assert(0 <= q[i] < n);
        assert(t[q[i] as int].finite());
    }
    assert forall|i: int| 0 <= i < n implies size(exact(#[trigger] y[i]) - (a * exact(x[i]) + b))
        <= d by {
        // From above.
        let (u, v) = lemma_listings_cross(total_keys(s), total_keys(t), p, q, i);
        assert(0 <= p[u] < n);
        lemma_ascends(t, q, i, v);
        lemma_ascends(s, p, u, i);
        let e = p[u] as int;
        assert(size(exact(t[e]) - (a * exact(s[e]) + b)) <= d);
        lemma_scale_order(exact(s[e]), exact(x[i]), a);
        assert(exact(y[i]) <= a * exact(x[i]) + b + d);
        // From below.
        let (w, z) = lemma_listings_cross(total_keys(t), total_keys(s), q, p, i);
        assert(0 <= q[w] < n);
        lemma_ascends(t, q, w, i);
        lemma_ascends(s, p, i, z);
        let h = q[w] as int;
        assert(size(exact(t[h]) - (a * exact(s[h]) + b)) <= d);
        lemma_scale_order(exact(x[i]), exact(s[h]), a);
        assert(a * exact(x[i]) + b - d <= exact(y[i]));
    }
}

/// The part of the bulk's span that its scale must exceed.
pub open spec fn guard(s: Seq<Double>) -> Double {
    fmul(
        fratio(1, 1_000_000_000),
        fsub(quantile(s, fratio(3, 4)), quantile(s, fratio(1, 10))),
    )
}

/// The guard without rounding.
pub open spec fn exact_guard(s: Seq<Double>) -> real {
    exact(fratio(1, 1_000_000_000)) * exact_gap(s, fratio(3, 4), fratio(1, 10))
}

/// The share of the span is a small positive number.
pub proof fn lemma_guard_share()
    ensures
        fratio(1, 1_000_000_000).finite(),
        (0 as real) <= exact(fratio(1, 1_000_000_000)) <= (1 as real),
{
    lemma_one();
    lemma_positive_ratio(1, 1_000_000_000);
    let p = fratio(1, 1_000_000_000);
    lemma_exact_count(1);
    lemma_exact_order(fzero(), p);
    lemma_exact_order(p, fcount(1));
}

/// The guard is close to the exact one.
pub proof fn lemma_guard_near(s: Seq<Double>, bound: real)
    requires
        countable(s.len() as int),
        held_within(s, bound),
        comfortable(s.len() as int, bound),
    ensures
        guard(s).finite(),
        size(exact(guard(s)) - exact_guard(s)) <= (60 as real) * (ulp() * bound),
{
    lemma_small_errors();
    lemma_proportions();
    lemma_guard_share();
    lemma_gap_near(s, fratio(3, 4), fratio(1, 10), bound);
    let u = ulp();
    let one = 1 as real;
    let e = u * bound;
    let share = fratio(1, 1_000_000_000);
    let f = exact(share);
    let gap = fsub(quantile(s, fratio(3, 4)), quantile(s, fratio(1, 10)));
    let g = exact(gap);
    let r = exact_gap(s, fratio(3, 4), fratio(1, 10));
    let thirteen = 13 as real;
    lemma_scale_order(one, s.len() as real, bound);
    lemma_product_bound(f, g, one, thirteen * bound);
    lemma_product_error(share, gap);
    lemma_scale_order(size(f * g), thirteen * bound, u);
    lemma_scaled_out(u, thirteen, bound);
    lemma_scale_order(u, bound, u);
    lemma_product_bound(f, g - r, one, (46 as real) * e);
    lemma_distribute(f, g, r);
}

/// The exact guard follows the scale alone.
proof fn lemma_guard_follows(
    s: Seq<Double>,
    t: Seq<Double>,
    a: real,
    b: real,
    bound: real,
)
    requires
        countable(s.len() as int),
        follows(s, t, a, b, bound),
    ensures
        size(exact_guard(t) - a * exact_guard(s)) <= (40 as real) * (ulp() * bound),
{
    lemma_proportions();
    lemma_guard_share();
    lemma_gap_follows(s, t, fratio(3, 4), fratio(1, 10), a, b, bound);
    let f = exact(fratio(1, 1_000_000_000));
    let one = 1 as real;
    let x = exact_gap(s, fratio(3, 4), fratio(1, 10));
    let y = exact_gap(t, fratio(3, 4), fratio(1, 10));
    let e = (40 as real) * (ulp() * bound);
    lemma_product_bound(f, y - a * x, one, e);
    lemma_distribute(f, y, a * x);
    lemma_scaled_out(f, a, x);
}

/// How much room the scale of the bulk has, next to rounding errors of the largest score.
pub open spec fn room(cfg: DiscriminationConfig, bound: real) -> real {
    (400 as real) * (ulp() * (floor_weight(cfg) * bound))
}

/// The scale of a pool's bulk clears the guard, by more than rounding can bridge.
pub open spec fn clears(s: Seq<Double>, cfg: DiscriminationConfig, a: real, bound: real) -> bool {
    &&& a * exact(bulk_scale(s, cfg)) > room(cfg, bound)
    &&& a * (exact(bulk_scale(s, cfg)) - exact(guard(s))) > room(cfg, bound)
}

/// The scale of a pool's bulk fails the guard, by more than rounding can bridge.
pub open spec fn fails(s: Seq<Double>, cfg: DiscriminationConfig, a: real, bound: real) -> bool {
    a * (exact(guard(s)) - exact(bulk_scale(s, cfg))) > room(cfg, bound)
}

/// A scale that is not small next to the scores gives a finite ratio.
pub proof fn lemma_ratio_finite(s: Seq<Double>, cfg: DiscriminationConfig, bound: real)
    requires
        countable(s.len() as int),
        held_within(s, bound),
        is_non_negative(cfg.denom_floor_frac),
        comfortable(s.len() as int, bound),
        comfortable(s.len() as int, floor_weight(cfg) * bound),
        (100 as real) * (ulp() * bound) <= exact(bulk_scale(s, cfg)),
    ensures
        separation_ratio(s, cfg).finite(),
        exact(bulk_scale(s, cfg)) > (0 as real),
        size(exact(elevation(s, cfg))) <= limit() * exact(bulk_scale(s, cfg)),
{
    lemma_small_errors();
    lemma_elevation_near(s, cfg, bound);
    lemma_scale_near(s, cfg, bound);
    let u = ulp();
    let e = exact(elevation(s, cfg));
    let d = exact(bulk_scale(s, cfg));
    lemma_positive_product(u, bound);
    lemma_scale_order((100 as real) * (u * bound), d, limit());
    lemma_scaled_out(limit(), 100 as real, u * bound);
    lemma_associate(limit(), u, bound);
    let big = 0x20_0000_0000_0000int as real;
    lemma_scale_order(big * big, limit(), u);
    assert(u * (big * big) == big);
    lemma_commute(limit(), u);
    lemma_scale_order(big, limit() * u, bound);
    assert(size(e) <= limit() * d);
    lemma_exact_order(bulk_scale(s, cfg), bulk_scale(s, cfg));
    let q = e / d;
    let zero = 0 as real;
    lemma_quotient_back(e, d);
    lemma_distribute(d, zero, limit());
    assert(zero * d == zero);
    lemma_cancel_order(q, limit(), d);
    lemma_cancel_order(-limit(), q, d);
    lemma_quotient_error(elevation(s, cfg), bulk_scale(s, cfg));
}

/// Of two pools, of which the one follows the other and which have equally many distinct
/// scores, the statistic is defined on both or on neither, unless the scale of the bulk is so
/// near the guard that rounding decides.
pub proof fn lemma_separation_defined_alike(
    s: Seq<Double>,
    t: Seq<Double>,
    cfg: DiscriminationConfig,
    a: real,
    b: real,
    base: real,
    bound: real,
)
    requires
        countable(s.len() as int),
        is_non_negative(cfg.denom_floor_frac),
        a > (0 as real),
        a * base <= bound,
        held_within(s, base),
        held_within(t, bound),
        follows(s, t, a, b, bound),
        comfortable(s.len() as int, base),
        comfortable(s.len() as int, bound),
        comfortable(s.len() as int, floor_weight(cfg) * base),
        comfortable(s.len() as int, floor_weight(cfg) * bound),
        distinct(s, s.len() as int) == distinct(t, t.len() as int),
        clears(s, cfg, a, bound) || fails(s, cfg, a, bound),
    ensures
        separation_defined(s, cfg) <==> separation_defined(t, cfg),
        separation_defined(s, cfg) ==> readable(s, cfg) && readable(t, cfg),
{
    lemma_small_errors();
    let n = s.len() as int;
    let u = ulp();
    let c = floor_weight(cfg);
    let e = u * bound;
    let ce = u * (c * bound);
    lemma_scale_near(s, cfg, base);
    lemma_scale_near(t, cfg, bound);
    lemma_guard_near(s, base);
    lemma_guard_near(t, bound);
    lemma_scale_follows(s, t, cfg, a, b, bound);
    lemma_guard_follows(s, t, a, b, bound);
    lemma_errors_scale(n, c, a, base, bound);
    lemma_scaled_out(a, u, base);
    lemma_scale_order(a * base, bound, u);
    lemma_scaled_out(a, 60 as real, u * base);
    let d0 = exact(bulk_scale(s, cfg));
    let d1 = exact(bulk_scale(t, cfg));
    let g0 = exact(guard(s));
    let g1 = exact(guard(t));
    lemma_across(
        d0,
        exact_scale(s, cfg),
        d1,
        exact_scale(t, cfg),
        a,
        (59 as real) * (u * (c * base)),
        (59 as real) * ce,
        (40 as real) * ce,
    );
    lemma_across(
        g0,
        exact_guard(s),
        g1,
        exact_guard(t),
        a,
        (60 as real) * (u * base),
        (60 as real) * e,
        (40 as real) * e,
    );
    lemma_distribute(a, d0, g0);
    lemma_distribute(a, g0, d0);
    lemma_exact_order(bulk_scale(s, cfg), guard(s));
    lemma_exact_order(bulk_scale(t, cfg), guard(t));
    if clears(s, cfg, a, bound) {
        let zero = 0 as real;
        // Neither scale is small next to the scores.
        lemma_scaled_out(a, 400 as real, u * base);
        assert(a * ((400 as real) * (u * base)) <= (400 as real) * e);
        lemma_commute(a, (400 as real) * (u * base));
        lemma_commute(a, d0);
        lemma_cancel_order((400 as real) * (u * base), d0, a);
        lemma_positive_product(u, base);
        lemma_ratio_finite(s, cfg, base);
        assert(d1 >= (242 as real) * ce);
        lemma_positive_product(u, bound);
        lemma_ratio_finite(t, cfg, bound);
        lemma_distribute(a, g0, d0);
        if fails(s, cfg, a, bound) {
            assert(a * (g0 - d0) == -(a * (d0 - g0)));
        }
        assert(d0 > g0) by {
            if d0 <= g0 {
                lemma_scale_order(d0, g0, a);
            }
        }
        assert(d1 > g1);
    } else {
        assert(g0 > d0) by {
            if g0 <= d0 {
                lemma_scale_order(g0, d0, a);
            }
        }
        assert(g1 > d1);
    }
}

/// What is read off a pool of scores, in whatever order they come, does not depend on their
/// unit or origin, up to rounding: of a pool and one whose scores are its own times a positive
/// `a` plus `b`, with equally many distinct scores, either both have a separation statistic or
/// neither has, and the two differ by at most so many rounding errors of the largest score,
/// measured by the scale of the bulk. Left out are pools whose bulk is so narrow next to its
/// span, or to the scores, that rounding decides whether it counts as collapsed.
pub proof fn lemma_reading_ignores_scale_and_shift(
    scores: Seq<Double>,
    other: Seq<Double>,
    separation: MeanVar,
    reference: MeanVar,
    cfg: DiscriminationConfig,
    a: real,
    b: real,
    base: real,
    bound: real,
)
    requires
        countable(scores.len() as int),
        is_non_negative(cfg.denom_floor_frac),
        a > (0 as real),
        a * base <= bound,
        held_within(scores, base),
        held_within(other, bound),
        follows(scores, other, a, b, bound),
        comfortable(scores.len() as int, base),
        comfortable(scores.len() as int, bound),
        comfortable(scores.len() as int, floor_weight(cfg) * base),
        comfortable(scores.len() as int, floor_weight(cfg) * bound),
        distinct(ascending(scores), scores.len() as int) == distinct(
            ascending(other),
            other.len() as int,
        ),
        clears(ascending(scores), cfg, a, bound) || fails(ascending(scores), cfg, a, bound),
    ensures
        ({
            let x = reading(scores, separation, reference, cfg).raw_separation;
            let y = reading(other, separation, reference, cfg).raw_separation;
            let error = ulp() * (floor_weight(cfg) * bound);
            let scale = a * exact(bulk_scale(ascending(scores), cfg));
            &&& x is Some <==> y is Some
            &&& x is Some ==> scale > (0 as real) && size(exact(y->0) - exact(x->0)) * scale <= ((
            104 + 4 * scores.len()) as real) * error + (158 as real) * (size(exact(y->0)) * error)
        }),
{
    let s = ascending(scores);
    let t = ascending(other);
    lemma_sorted_follows(scores, other, a, b, base, bound);
    lemma_separation_defined_alike(s, t, cfg, a, b, base, bound);
    if separation_defined(s, cfg) {
        lemma_separation_ignores_scale_and_shift(s, t, cfg, a, b, base, bound);
    }
}

} // verus!
