//! What a divergence reports: for every channel that two states share the larger of how far
//! its two baselines lie apart, in deviations.
use crate::closeness::{
    close, lemma_close_chain, lemma_close_half, lemma_close_product, lemma_close_reversed,
    lemma_close_scaled, lemma_quotient_near, lemma_sum_close,
};
use crate::double::{fabs, fadd, fcount, fdiv, fneg, froot, fsub, fzero, Double};
use crate::exact::{lemma_one, lemma_vanishing_quotient};
use crate::ordered::lemma_entry;
use crate::pooling::Pool;
use crate::precision::{
    exact, least, lemma_difference_error, lemma_exact_count, lemma_exact_order, lemma_least,
    lemma_root_error, lemma_small_errors, limit, size, tiny, ulp,
};
use crate::reals::{
    lemma_associate, lemma_cancel_order, lemma_commute, lemma_positive_product,
    lemma_positive_square, lemma_scale_order,
};
use crate::state::{
    channel_distance, distance, drift, gaps, largest, lemma_distance_bounded, ChannelSummary,
    Divergence, RuffleState,
};
use crate::summary::MeanVar;
use vstd::prelude::*;

verus! {

/// A number from two to the power of minus four hundred to its inverse.
pub open spec fn middling(x: real) -> bool {
    least() <= x && x * least() <= (1 as real)
}

/// The variances of two baselines, and the gap of their means, are clear of the smallest
/// numbers and of overflow.
pub open spec fn comparable(a: MeanVar, b: MeanVar) -> bool {
    let gap = size(exact(a.mean) - exact(b.mean));
    &&& a.mean.finite()
    &&& b.mean.finite()
    &&& a.spread().finite()
    &&& b.spread().finite()
    &&& exact(a.spread()) >= (0 as real)
    &&& exact(b.spread()) >= (0 as real)
    &&& gap == (0 as real) || middling(gap)
    &&& exact(a.spread()) + exact(b.spread()) == (0 as real) || middling(
        exact(a.spread()) + exact(b.spread()),
    )
}

/// How far two baselines lie apart: `d` is the difference of their means in deviations, the
/// variance being the mean of the two, and a million at most. Baselines without spread are at
/// no distance where their means are the same, and a million apart where they are not.
pub open spec fn lies_apart(a: MeanVar, b: MeanVar, d: Double) -> bool {
    let gap = size(exact(a.mean) - exact(b.mean));
    let both = exact(a.spread()) + exact(b.spread());
    let million = 1_000_000 as real;
    let x = exact(d);
    &&& d.finite()
    &&& (0 as real) <= x <= million
    &&& comparable(a, b) && both == (0 as real) ==> x == if gap == (0 as real) {
        0 as real
    } else {
        million
    }
    &&& comparable(a, b) && both > (0 as real) ==> {
        // Twice the squares: the variance is half of both.
        ||| close(x * x * both, (2 as real) * (gap * gap), 35 as real)
        ||| x == million && million * million * both <= (4 as real) * (gap * gap)
    }
}

/// The distance of two channels: no less than that of either baseline, and one of the two.
pub open spec fn channel_lies_apart(a: ChannelSummary, b: ChannelSummary, v: Double) -> bool {
    exists|s: Double, r: Double|
        #![trigger lies_apart(a.separation, b.separation, s), lies_apart(a.reference, b.reference, r)]
        {
            &&& lies_apart(a.separation, b.separation, s)
            &&& lies_apart(a.reference, b.reference, r)
            &&& exact(s) <= exact(v)
            &&& exact(r) <= exact(v)
            &&& v == s || v == r
        }
}

/// A root of a middling number is neither small nor large.
pub proof fn lemma_root_middling(h: Double, both: real)
    requires
        middling(both),
        h.finite(),
        close((2 as real) * exact(h), both, 4 as real),
    ensures
        froot(h).finite(),
        exact(froot(h)) > (0 as real),
        close(both, (2 as real) * (exact(froot(h)) * exact(froot(h))), 22 as real),
        least() <= (16 as real) * exact(froot(h)),
        exact(froot(h)) * least() <= (4 as real),
{
    lemma_small_errors();
    lemma_least();
    let one = 1 as real;
    let two = 2 as real;
    let l = least();
    let x = exact(h);
    lemma_close_half(two * x, both, 4 as real);
    lemma_root_error(h);
    let r = exact(froot(h));
    let rr = r * r;
    lemma_positive_product(r, r);
    assert(close(x, rr, 3 as real));
    lemma_close_scaled(x, rr, 3 as real, two);
    lemma_close_reversed(two * x, two * rr, 3 as real);
    lemma_close_chain(two * rr, two * x, both, 6 as real, 4 as real);
    lemma_close_reversed(two * rr, both, 11 as real);
    lemma_close_half(two * rr, both, 11 as real);
    if r < one {
        lemma_scale_order(r, one, r);
        assert(rr <= r);
        lemma_scale_order(r, one, l);
    } else {
        lemma_scale_order(one, r, r);
        assert(r <= rr);
        lemma_scale_order(r, rr, l);
        lemma_scale_order(two * rr, two * both, l);
        lemma_associate(two, both, l);
        lemma_associate(two, rr, l);
    }
}

/// The difference of two means, without its sign.
pub proof fn lemma_gap_near(a: Double, b: Double)
    requires
        a.finite(),
        b.finite(),
        size(exact(a) - exact(b)) == (0 as real) || middling(size(exact(a) - exact(b))),
    ensures
        fabs(fsub(a, b)).finite(),
        close(exact(fabs(fsub(a, b))), size(exact(a) - exact(b)), 1 as real),
        exact(a) == exact(b) ==> fabs(fsub(a, b)).vanishes(),
{
    lemma_small_errors();
    lemma_least();
    let one = 1 as real;
    let l = least();
    let gap = size(exact(a) - exact(b));
    // A middling number is below the limit.
    if gap > (0 as real) {
        let huge = 0x1_0000_0000_0000_0000int as real;
        lemma_associate(limit(), l, l);
        lemma_positive_product(limit(), l);
        lemma_scale_order(l, one, limit() * l);
        lemma_cancel_order(gap, limit(), l);
    }
    lemma_difference_error(a, b);
    let x = fsub(a, b);
    lemma_one();
    lemma_exact_order(x, fzero());
    lemma_exact_order(fneg(x), fzero());
    crate::exact::lemma_magnitude_sign(x.unsigned());
    lemma_signless(x);
    lemma_scale_order(0 as real, gap, ulp());
    assert(one * ulp() * gap == ulp() * gap);
    assert(ulp() * (0 as real) == (0 as real));
}

/// A number without its sign.
pub proof fn lemma_signless(x: Double)
    requires
        x.finite(),
    ensures
        fabs(x).finite(),
        exact(fabs(x)) == size(exact(x)),
        fabs(x).vanishes() <==> x.vanishes(),
{
    crate::precision::lemma_exact_multiple(x);
    crate::precision::lemma_exact_multiple(fabs(x));
}

/// Twice the halves of a sum of two variances are near the sum.
proof fn lemma_half_near(a: Double, b: Double)
    requires
        a.finite(),
        b.finite(),
        exact(a) >= (0 as real),
        exact(b) >= (0 as real),
        middling(exact(a) + exact(b)),
    ensures
        fdiv(fadd(a, b), fcount(2)).finite(),
        close((2 as real) * exact(fdiv(fadd(a, b), fcount(2))), exact(a) + exact(b), 4 as real),
{
    lemma_small_errors();
    lemma_least();
    let one = 1 as real;
    let two = 2 as real;
    let l = least();
    let both = exact(a) + exact(b);
    lemma_associate(limit(), l, l);
    lemma_positive_product(limit(), l);
    lemma_scale_order(l, one, limit() * l);
    lemma_cancel_order(both, limit(), l);
    lemma_sum_close(a, b);
    let s = fadd(a, b);
    lemma_close_half(exact(s), both, one);
    lemma_exact_count(2);
    let huge = 0x1_0000_0000_0000_0000int as real;
    lemma_scale_order(l * l, l, ulp());
    lemma_scale_order(l, both, ulp());
    lemma_scale_order(both, two * exact(s), ulp());
    lemma_associate(ulp(), two, exact(s));
    lemma_commute(ulp(), two);
    lemma_associate(two, ulp(), exact(s));
    lemma_scale_order(8 as real, huge, tiny());
    lemma_overflow(s, both);
    lemma_quotient_near(s, fcount(2));
    let h = exact(fdiv(s, fcount(2)));
    lemma_commute(h, two);
    lemma_close_chain(two * h, exact(s), both, two, one);
}

proof fn lemma_overflow(s: Double, both: real)
    requires
        both <= limit(),
        exact(s) <= (2 as real) * both,
    ensures
        exact(s) <= limit() * (2 as real),
{
}

/// The standardized distance of two baselines is how far they lie apart.
proof fn lemma_distance_lies_apart(a: MeanVar, b: MeanVar)
    ensures
        lies_apart(a, b, distance(a, b)),
{
    lemma_small_errors();
    lemma_least();
    lemma_one();
    lemma_exact_count(1_000_000);
    lemma_distance_bounded(a, b);
    let d = distance(a, b);
    let cap = fcount(1_000_000);
    lemma_exact_order(cap, d);
    lemma_exact_order(fzero(), d);
    crate::exact::lemma_magnitude_sign(d.unsigned());
    let million = 1_000_000 as real;
    let zero = 0 as real;
    if comparable(a, b) {
        let gap = size(exact(a.mean) - exact(b.mean));
        let both = exact(a.spread()) + exact(b.spread());
        let h = fdiv(fadd(a.spread(), b.spread()), fcount(2));
        let root = froot(h);
        let m = fabs(fsub(a.mean, b.mean));
        lemma_gap_near(a.mean, b.mean);
        lemma_exact_order(m, fzero());
        lemma_exact_order(fzero(), fzero());
        if both == zero {
            lemma_exact_order(a.spread(), b.spread());
            lemma_exact_order(b.spread(), a.spread());
            crate::double::lemma_add_zeros(a.spread(), b.spread());
            lemma_exact_count(2);
            lemma_vanishing_quotient(fadd(a.spread(), b.spread()), fcount(2));
            reveal(froot);
            lemma_exact_order(root, fzero());
            lemma_exact_order(fzero(), root);
            if gap > zero {
                lemma_close_half(exact(m), gap, 1 as real);
            }
        } else {
            lemma_half_near(a.spread(), b.spread());
            lemma_root_middling(h, both);
            lemma_exact_order(fzero(), root);
            lemma_ratio_apart(m, root, gap, both);
            let q = fdiv(m, root);
            lemma_exact_order(cap, q);
            lemma_exact_order(q, cap);
            if exact(q) > million {
                let x = exact(q);
                lemma_scale_order(million, x, million);
                lemma_scale_order(million, x, x);
                lemma_scale_order(million * million, x * x, both);
                lemma_positive_square(gap);
                lemma_close_half(x * x * both, (2 as real) * (gap * gap), 35 as real);
            }
        }
    }
}

/// The gap of two means in deviations.
pub proof fn lemma_ratio_apart(m: Double, root: Double, gap: real, both: real)
    requires
        m.finite(),
        root.finite(),
        gap == (0 as real) || middling(gap),
        close(exact(m), gap, 1 as real),
        gap == (0 as real) ==> m.vanishes(),
        exact(root) > (0 as real),
        middling(both),
        close(both, (2 as real) * (exact(root) * exact(root)), 22 as real),
        least() <= (16 as real) * exact(root),
        exact(root) * least() <= (4 as real),
    ensures
        fdiv(m, root).finite(),
        close(
            exact(fdiv(m, root)) * exact(fdiv(m, root)) * both,
            (2 as real) * (gap * gap),
            35 as real,
        ),
{
    lemma_small_errors();
    lemma_least();
    let one = 1 as real;
    let two = 2 as real;
    let zero = 0 as real;
    let l = least();
    let u = ulp();
    let r = exact(root);
    let q = fdiv(m, root);
    let x = exact(q);
    lemma_exact_order(root, root);
    if gap == zero {
        lemma_vanishing_quotient(m, root);
        lemma_exact_order(q, q);
        assert(zero * both == zero);
        assert(zero * zero == zero);
    } else {
        lemma_close_half(exact(m), gap, one);
        let huge = 0x1_0000_0000_0000_0000int as real;
        // The quotient is far from overflow: limit r l >= limit l l / 16 >= 2.
        lemma_positive_product(limit(), l);
        lemma_scale_order(l, (16 as real) * r, limit() * l);
        lemma_associate(limit(), l, l);
        lemma_associate(limit() * l, 16 as real, r);
        lemma_commute(limit() * l, 16 as real);
        lemma_associate(16 as real, limit() * l, r);
        lemma_commute(limit(), l);
        lemma_associate(l, limit(), r);
        assert(huge <= (16 as real) * (l * (limit() * r)));
        lemma_scale_order(gap, gap, l);
        lemma_commute(gap, l);
        lemma_commute(l, limit() * r);
        assert(two * gap * l <= limit() * r * l) by {
            lemma_associate(two, gap, l);
        }
        lemma_cancel_order(two * gap, limit() * r, l);
        // And far from the smallest numbers.
        lemma_associate(u, l, l);
        lemma_associate(tiny(), r, l);
        lemma_scale_order(r * l, 4 as real, tiny());
        lemma_scale_order(8 as real, huge, tiny());
        assert(two * (tiny() * r * l) <= u * l * l);
        lemma_associate(two, tiny() * r, l);
        lemma_cancel_order(two * (tiny() * r), u * l, l);
        lemma_scale_order(l, gap, u);
        lemma_scale_order(gap, two * exact(m), u);
        lemma_associate(u, two, exact(m));
        lemma_commute(u, two);
        lemma_associate(two, u, exact(m));
        assert(tiny() * r <= u * exact(m));
        lemma_quotient_near(m, root);
        let p = x * r;
        lemma_close_chain(p, exact(m), gap, two, one);
        lemma_close_half(p, gap, 4 as real);
        lemma_close_product(p, gap, p, gap, 4 as real, 4 as real);
        // x x both is near x x 2 r r, which is twice the square of p.
        let xx = x * x;
        let rr = r * r;
        lemma_positive_square(x);
        lemma_close_scaled(both, two * rr, 22 as real, xx);
        lemma_associate(xx, two, rr);
        lemma_commute(xx, two);
        lemma_associate(two, xx, rr);
        lemma_associate(p, x, r);
        lemma_associate(x, r, x);
        lemma_commute(r, x);
        lemma_associate(x, x, r);
        lemma_associate(xx, r, r);
        assert(p * p == xx * rr);
        lemma_close_scaled(p * p, gap * gap, 12 as real, two);
        lemma_close_chain(
            xx * both,
            two * (p * p),
            two * (gap * gap),
            22 as real,
            12 as real,
        );
    }
}

/// The distance of two channels is the larger one of their baselines.
proof fn lemma_channel_distance(a: ChannelSummary, b: ChannelSummary)
    ensures
        channel_lies_apart(a, b, channel_distance(a, b)),
{
    let s = distance(a.separation, b.separation);
    let r = distance(a.reference, b.reference);
    lemma_distance_lies_apart(a.separation, b.separation);
    lemma_distance_lies_apart(a.reference, b.reference);
    lemma_exact_order(s, r);
    assert(lies_apart(a.separation, b.separation, s));
    assert(lies_apart(a.reference, b.reference, r));
}

/// The largest reported distance is no less than any, and one of them or nought.
pub open spec fn tops(d: Divergence) -> bool {
    &&& forall|k: Seq<char>| #[trigger]
        d.per_channel@.contains_key(k) ==> exact(d.per_channel@[k]) <= exact(d.max)
    &&& d.max == fzero() || exists|k: Seq<char>| #[trigger]
        d.per_channel@.contains_key(k) && d.per_channel@[k] == d.max
}

proof fn lemma_largest(s: Seq<(String, Double)>, n: int)
    requires
        0 <= n <= s.len(),
        forall|i: int| 0 <= i < s.len() ==> (#[trigger] s[i]).1.finite(),
    ensures
        largest(s, n).finite(),
        forall|i: int| 0 <= i < n ==> exact((#[trigger] s[i]).1) <= exact(largest(s, n)),
        largest(s, n) == fzero() || exists|i: int|
            0 <= i < n && (#[trigger] s[i]).1 == largest(s, n),
    decreases n,
{
    lemma_one();
    if n > 0 {
        lemma_largest(s, n - 1);
        assert(s[n - 1].1.finite());
        lemma_exact_order(largest(s, n - 1), s[n - 1].1);
        if largest(s, n - 1) != fzero() {
            let i = choose|i: int| 0 <= i < n - 1 && (#[trigger] s[i]).1 == largest(s, n - 1);
            assert(s[i].1 == largest(s, n - 1));
        }
    }
}

/// The top of a divergence whose distances are finite.
proof fn lemma_tops(d: Divergence)
    requires
        d.per_channel.wf(),
        d.max == largest(d.per_channel.sequence(), d.per_channel.sequence().len() as int),
        forall|k: Seq<char>| #[trigger]
            d.per_channel@.contains_key(k) ==> d.per_channel@[k].finite(),
    ensures
        tops(d),
{
    let s = d.per_channel.sequence();
    let n = s.len() as int;
    assert forall|i: int| 0 <= i < n implies (#[trigger] s[i]).1.finite() && d.per_channel@.contains_key(
        s[i].0@,
    ) && d.per_channel@[s[i].0@] == s[i].1 by {
        lemma_entry(s, i);
        assert(d.per_channel@.contains_key(s[i].0@));
    }
    lemma_largest(s, n);
    assert forall|k: Seq<char>| #[trigger] d.per_channel@.contains_key(k) implies exact(
        d.per_channel@[k],
    ) <= exact(d.max) by {
        assert(crate::ordered::holds_key(s, k));
        let p = crate::ordered::position(s, k);
        assert(s[p].0@ == k);
        lemma_entry(s, p);
    }
    if d.max != fzero() {
        let i = choose|i: int| 0 <= i < n && (#[trigger] s[i]).1 == d.max;
        assert(d.per_channel@.contains_key(s[i].0@));
    }
}

/// What a divergence of two states reports: exactly the channels that both carry; for each a
/// distance no less than that of its separation baselines and no less than that of its
/// references, and one of the two; and the largest of these. So no drift of either baseline
/// stays out of sight.
pub proof fn lemma_divergence_shows_both_baselines(
    a: RuffleState,
    b: RuffleState,
    d: Divergence,
)
    requires
        d.measures(gaps(a, b)),
    ensures
        forall|k: Seq<char>| #[trigger]
            d.per_channel@.contains_key(k) <==> a.channel_table()@.contains_key(k)
                && b.channel_table()@.contains_key(k),
        forall|k: Seq<char>| #[trigger]
            d.per_channel@.contains_key(k) ==> d.per_channel@[k].finite() && channel_lies_apart(
                a.channel_table()@[k],
                b.channel_table()@[k],
                d.per_channel@[k],
            ),
        tops(d),
{
    assert forall|k: Seq<char>| #[trigger]
        d.per_channel@.contains_key(k) implies d.per_channel@[k].finite() && channel_lies_apart(
        a.channel_table()@[k],
        b.channel_table()@[k],
        d.per_channel@[k],
    ) by {
        lemma_channel_distance(a.channel_table()@[k], b.channel_table()@[k]);
    }
    lemma_tops(d);
}

/// Two of the states, in their order, both carry a channel.
pub open spec fn carry(parts: Seq<RuffleState>, i: int, j: int, k: Seq<char>) -> bool {
    &&& 0 <= i < j < parts.len()
    &&& parts[i].channel_table()@.contains_key(k)
    &&& parts[j].channel_table()@.contains_key(k)
}

/// What has been reported up to a place: for every two states before it that carry a channel
/// no less than their distance, and no more than that of some two.
proof fn lemma_drift_reports(parts: Seq<RuffleState>, i: int, j: int, k: Seq<char>)
    requires
        0 <= i <= parts.len(),
        0 <= j <= parts.len(),
    ensures
        drift(parts, i, j).contains_key(k) ==> drift(parts, i, j)[k].finite() && exists|
            a: int,
            b: int,
        |
            #[trigger] carry(parts, a, b, k) && drift(parts, i, j)[k] == channel_distance(
                parts[a].channel_table()@[k],
                parts[b].channel_table()@[k],
            ),
        forall|a: int, b: int| #[trigger]
            carry(parts, a, b, k) && (a < i || (a == i && b < j)) ==> drift(
                parts,
                i,
                j,
            ).contains_key(k) && exact(
                channel_distance(parts[a].channel_table()@[k], parts[b].channel_table()@[k]),
            ) <= exact(drift(parts, i, j)[k]),
    decreases i, j,
{
    let now = drift(parts, i, j);
    if j > i + 1 {
        lemma_drift_reports(parts, i, j - 1, k);
        let before = drift(parts, i, j - 1);
        let last = gaps(parts[i], parts[j - 1]);
        if last.contains_key(k) {
            lemma_channel_distance(
                parts[i].channel_table()@[k],
                parts[j - 1].channel_table()@[k],
            );
            assert(last[k].finite());
            assert(carry(parts, i, j - 1, k));
            if before.contains_key(k) {
                lemma_exact_order(before[k], last[k]);
            }
        }
        if before.contains_key(k) {
            let (a, b) = choose|a: int, b: int|
                #[trigger] carry(parts, a, b, k) && before[k] == channel_distance(
                    parts[a].channel_table()@[k],
                    parts[b].channel_table()@[k],
                );
            assert(carry(parts, a, b, k));
        }
        assert forall|a: int, b: int| #[trigger]
            carry(parts, a, b, k) && (a < i || (a == i && b < j)) implies now.contains_key(k)
            && exact(
            channel_distance(parts[a].channel_table()@[k], parts[b].channel_table()@[k]),
        ) <= exact(now[k]) by {
            if !(a == i && b == j - 1) {
                assert(before.contains_key(k));
            }
        }
    } else if i > 0 {
        lemma_drift_reports(parts, i - 1, parts.len() as int, k);
        assert(now == drift(parts, i - 1, parts.len() as int));
        assert forall|a: int, b: int| #[trigger]
            carry(parts, a, b, k) && (a < i || (a == i && b < j)) implies now.contains_key(k)
            && exact(
            channel_distance(parts[a].channel_table()@[k], parts[b].channel_table()@[k]),
        ) <= exact(now[k]) by {
            assert(a <= i - 1);
        }
    }
}

/// What the divergence of a merge reports: exactly the channels that at least two of the states
/// carry; for each the distance of two states that carry it, no less than that of any other
/// two; and the largest of these.
pub proof fn lemma_merge_divergence_compares_all(parts: Seq<RuffleState>, d: Divergence)
    requires
        d.measures(drift(parts, parts.len() as int, 0)),
    ensures
        forall|k: Seq<char>| #[trigger]
            d.per_channel@.contains_key(k) <==> exists|i: int, j: int| #[trigger]
                carry(parts, i, j, k),
        forall|k: Seq<char>| #[trigger]
            d.per_channel@.contains_key(k) ==> exists|i: int, j: int|
                #[trigger] carry(parts, i, j, k) && channel_lies_apart(
                    parts[i].channel_table()@[k],
                    parts[j].channel_table()@[k],
                    d.per_channel@[k],
                ),
        forall|k: Seq<char>, i: int, j: int| #[trigger]
            carry(parts, i, j, k) ==> exists|v: Double|
                #[trigger] channel_lies_apart(
                    parts[i].channel_table()@[k],
                    parts[j].channel_table()@[k],
                    v,
                ) && exact(v) <= exact(d.per_channel@[k]),
        tops(d),
{
    let n = parts.len() as int;
    let m = drift(parts, n, 0);
    assert forall|k: Seq<char>| #[trigger] d.per_channel@.contains_key(k) <==> exists|
        i: int,
        j: int,
    | #[trigger] carry(parts, i, j, k) by {
        lemma_drift_reports(parts, n, 0, k);
        if exists|i: int, j: int| #[trigger] carry(parts, i, j, k) {
            let (i, j) = choose|i: int, j: int| #[trigger] carry(parts, i, j, k);
            assert(carry(parts, i, j, k));
        }
    }
    assert forall|k: Seq<char>| #[trigger] d.per_channel@.contains_key(k) implies exists|
        i: int,
        j: int,
    |
        #[trigger] carry(parts, i, j, k) && channel_lies_apart(
            parts[i].channel_table()@[k],
            parts[j].channel_table()@[k],
            d.per_channel@[k],
        ) by {
        lemma_drift_reports(parts, n, 0, k);
        let (i, j) = choose|i: int, j: int|
            #[trigger] carry(parts, i, j, k) && m[k] == channel_distance(
                parts[i].channel_table()@[k],
                parts[j].channel_table()@[k],
            );
        lemma_channel_distance(parts[i].channel_table()@[k], parts[j].channel_table()@[k]);
        assert(carry(parts, i, j, k));
    }
    assert forall|k: Seq<char>, i: int, j: int| #[trigger] carry(parts, i, j, k) implies exists|
        v: Double,
    |
        #[trigger] channel_lies_apart(
            parts[i].channel_table()@[k],
            parts[j].channel_table()@[k],
            v,
        ) && exact(v) <= exact(d.per_channel@[k]) by {
        lemma_drift_reports(parts, n, 0, k);
        let v = channel_distance(parts[i].channel_table()@[k], parts[j].channel_table()@[k]);
        lemma_channel_distance(parts[i].channel_table()@[k], parts[j].channel_table()@[k]);
        assert(channel_lies_apart(
            parts[i].channel_table()@[k],
            parts[j].channel_table()@[k],
            v,
        ));
    }
    assert forall|k: Seq<char>| #[trigger]
        d.per_channel@.contains_key(k) implies d.per_channel@[k].finite() by {
        lemma_drift_reports(parts, n, 0, k);
    }
    lemma_tops(d);
}

} // verus!
