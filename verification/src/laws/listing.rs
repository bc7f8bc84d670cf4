//! The order of a fused ranking: a list without scores keeps its own order, and ties go by
//! where an id is first listed.
use crate::double::{fadd, fcount, fdiv, feq, flt, fzero, Double};
use crate::exact::{lemma_one, lemma_plus_zero};
use crate::ingest::input::{ChannelInput, Items};
use crate::laws::contributions::{sane_weight, weight_as_real};
use crate::laws::ranking::lemma_order_sorts;
use crate::numeric::{descending_keys, lemma_descending_key, order_of};
use crate::precision::{
    exact, lemma_exact_count, lemma_exact_order, lemma_small_errors, size, tiny, ulp,
};
use crate::reals::{
    lemma_associate, lemma_cancel_order, lemma_commute, lemma_distribute, lemma_positive_product,
    lemma_quotient_back, lemma_scale_order,
};
use crate::sorting::{lemma_sort_unique, sorts, sorts_before};
use crate::weighting::fusion::{
    fused_ranking, fused_score, fused_scores, gathered, seen, surfaced, walk, weight_for,
};
use vstd::prelude::*;

verus! {

/// An id is listed before the place `j` of channel `i`.
pub open spec fn listed_before<Id>(obs: Seq<ChannelInput<Id>>, id: Id, i: int, j: int) -> bool {
    exists|c: int, p: int|
        0 <= c < obs.len() && 0 <= p < obs[c].items.size() && (c < i || (c == i && p < j))
            && #[trigger] obs[c].items.id_at(p) == id
}

/// What has been seen before a place is what is listed before it.
proof fn lemma_seen_is_listed<Id>(obs: Seq<ChannelInput<Id>>, i: int, j: int, id: Id)
    requires
        0 <= i <= obs.len(),
        j <= 0 || i < obs.len(),
        i < obs.len() ==> j <= obs[i].items.size(),
    ensures
        seen(obs, i, j).contains(id) <==> listed_before(obs, id, i, j),
    decreases i, j,
{
    if j > 0 {
        lemma_seen_is_listed(obs, i, j - 1, id);
        let before = seen(obs, i, j - 1);
        let next = obs[i].items.id_at(j - 1);
        let now = seen(obs, i, j);
        if before.contains(id) {
            let h = choose|h: int| 0 <= h < before.len() && before[h] == id;
            assert(now[h] == id);
            let (c, p) = choose|c: int, p: int|
                0 <= c < obs.len() && 0 <= p < obs[c].items.size() && (c < i || (c == i && p < j
                    - 1)) && #[trigger] obs[c].items.id_at(p) == id;
            assert(listed_before(obs, id, i, j));
        } else {
            if id == next {
                assert(now[before.len() as int] == id);
                assert(obs[i].items.id_at(j - 1) == id);
            }
            if now.contains(id) {
                let h = choose|h: int| 0 <= h < now.len() && now[h] == id;
                if h < before.len() {
                    assert(before[h] == id);
                }
                assert(obs[i].items.id_at(j - 1) == id);
            }
            if listed_before(obs, id, i, j) {
                let (c, p) = choose|c: int, p: int|
                    0 <= c < obs.len() && 0 <= p < obs[c].items.size() && (c < i || (c == i && p
                        < j)) && #[trigger] obs[c].items.id_at(p) == id;
                assert(c == i && p == j - 1);
            }
        }
    } else if i > 0 {
        let m = obs[i - 1].items.size() as int;
        lemma_seen_is_listed(obs, i - 1, m, id);
        if listed_before(obs, id, i, j) {
            let (c, p) = choose|c: int, p: int|
                0 <= c < obs.len() && 0 <= p < obs[c].items.size() && (c < i || (c == i && p < j))
                    && #[trigger] obs[c].items.id_at(p) == id;
            assert(c < i - 1 || (c == i - 1 && p < m));
        }
        if listed_before(obs, id, i - 1, m) {
            let (c, p) = choose|c: int, p: int|
                0 <= c < obs.len() && 0 <= p < obs[c].items.size() && (c < i - 1 || (c == i - 1
                    && p < m)) && #[trigger] obs[c].items.id_at(p) == id;
            assert(c < i);
        }
    }
}

/// One id is listed at a place at or before which another is not.
pub open spec fn listed_first<Id>(obs: Seq<ChannelInput<Id>>, one: Id, other: Id) -> bool {
    exists|c: int, p: int|
        0 <= c < obs.len() && 0 <= p < obs[c].items.size() && #[trigger] obs[c].items.id_at(p)
            == one && !listed_before(obs, other, c, p + 1)
}

/// Of two ids the one that was seen first is listed first.
proof fn lemma_seen_in_order<Id>(obs: Seq<ChannelInput<Id>>, i: int, j: int, g: int, h: int)
    requires
        0 <= i <= obs.len(),
        j <= 0 || i < obs.len(),
        i < obs.len() ==> j <= obs[i].items.size(),
        0 <= g < h < seen(obs, i, j).len(),
    ensures
        listed_first(obs, seen(obs, i, j)[g], seen(obs, i, j)[h]),
    decreases i, j,
{
    if j > 0 {
        let before = seen(obs, i, j - 1);
        let now = seen(obs, i, j);
        let next = obs[i].items.id_at(j - 1);
        if h < before.len() {
            assert(now[g] == before[g] && now[h] == before[h]);
            lemma_seen_in_order(obs, i, j - 1, g, h);
        } else {
            assert(now == before.push(next));
            assert(now[g] == before[g] && now[h] == next);
            assert(before.contains(now[g]));
            lemma_seen_is_listed(obs, i, j - 1, now[g]);
            lemma_seen_is_listed(obs, i, j - 1, next);
            let (c, p) = choose|c: int, p: int|
                0 <= c < obs.len() && 0 <= p < obs[c].items.size() && (c < i || (c == i && p < j
                    - 1)) && #[trigger] obs[c].items.id_at(p) == now[g];
            if listed_before(obs, next, c, p + 1) {
                let (d, q) = choose|d: int, q: int|
                    0 <= d < obs.len() && 0 <= q < obs[d].items.size() && (d < c || (d == c && q < p
                        + 1)) && #[trigger] obs[d].items.id_at(q) == next;
                assert(listed_before(obs, next, i, j - 1));
            }
        }
    } else if i > 0 {
        lemma_seen_in_order(obs, i - 1, obs[i - 1].items.size() as int, g, h);
    }
}

/// Ties go by the inputs: of two items with the same score the one that is listed first, by
/// channel and then by position, stands first.
pub proof fn lemma_ties_go_by_first_listing<Id>(
    obs: Seq<ChannelInput<Id>>,
    weights: Map<Seq<char>, Double>,
    eta: Double,
    r: int,
    s: int,
)
    requires
        surfaced(obs).len() <= usize::MAX,
        0 <= r < s < fused_ranking(obs, weights, eta).len(),
        feq(fused_ranking(obs, weights, eta)[r].1, fused_ranking(obs, weights, eta)[s].1),
    ensures
        listed_first(
            obs,
            fused_ranking(obs, weights, eta)[r].0,
            fused_ranking(obs, weights, eta)[s].0,
        ),
{
    let scores = fused_scores(obs, weights, eta);
    let keys = descending_keys(scores);
    let order = order_of(keys);
    lemma_order_sorts(keys);
    assert(0 <= order[r] < scores.len() && 0 <= order[s] < scores.len());
    assert(sorts_before(keys, order[r] as int, order[s] as int));
    lemma_descending_key(scores[order[r] as int], scores[order[s] as int]);
    lemma_seen_in_order(obs, obs.len() as int, 0, order[r] as int, order[s] as int);
}

/// In a list of distinct ids the ids are seen in the order of the list.
proof fn lemma_own_order<Id>(obs: Seq<ChannelInput<Id>>, v: Seq<Id>, j: int)
    requires
        obs.len() == 1,
        obs[0].items is Ranks,
        obs[0].items->Ranks_0@ == v,
        v.no_duplicates(),
        0 <= j <= v.len(),
    ensures
        seen(obs, 0, j) == v.take(j),
    decreases j,
{
    if j > 0 {
        lemma_own_order(obs, v, j - 1);
        let before = v.take(j - 1);
        if before.contains(v[j - 1]) {
            let h = choose|h: int| 0 <= h < before.len() && before[h] == v[j - 1];
            assert(v[h] == v[j - 1]);
        }
        assert(before.push(v[j - 1]) =~= v.take(j));
    } else {
        assert(seen(obs, 0, j) =~= v.take(0));
    }
}

/// What an id gathers in a list of distinct ids without scores: its one contribution.
proof fn lemma_one_contribution<Id>(
    items: Items<Id>,
    w: Double,
    eta: Double,
    q: int,
    n: int,
)
    requires
        items is Ranks,
        items->Ranks_0@.no_duplicates(),
        items.size() <= 0x100_0000_0000,
        items.size() <= usize::MAX,
        0 <= q < items.size(),
        0 <= n <= items.size(),
        sane_weight(w),
        (1 as real) / (0x100_0000_0000int as real) <= exact(w),
        eta.finite(),
        (0 as real) <= exact(eta) <= (0x100_0000_0000int as real),
    ensures
        ({
            let x = gathered(items, items.id_at(q), w, eta, fzero(), n);
            let t = exact(w) / (exact(eta) + ((q + 1) as real));
            &&& n <= q ==> x == fzero()
            &&& n > q ==> x.finite() && size(exact(x) - t) <= (5 as real) * (ulp() * t)
            &&& t > (0 as real)
        }),
    decreases n,
{
    lemma_small_errors();
    lemma_one();
    let one = 1 as real;
    let zero = 0 as real;
    let big = 0x100_0000_0000int as real;
    let u = ulp();
    let d = exact(eta) + ((q + 1) as real);
    let t = exact(w) / d;
    lemma_quotient_back(exact(w), d);
    assert(zero * d == zero);
    lemma_cancel_order(zero, t, d);
    if t == zero {
        assert(zero * d == zero);
    }
    if n > 0 {
        lemma_one_contribution(items, w, eta, q, n - 1);
        let v = items->Ranks_0@;
        assert(walk(items)[n - 1] as int == n - 1);
        if n - 1 == q {
            lemma_exact_count(q + 1);
            let rank = fcount(q + 1);
            crate::laws::contributions::lemma_contribution_near(w, eta, rank, (q + 1) as real);
            let c = fdiv(w, fadd(eta, rank));
            // The contribution is not among the smallest numbers, and so is not nought.
            lemma_scale_order(d, (4 as real) * big, t);
            lemma_commute(t, (4 as real) * big);
            lemma_associate(4 as real, big, t);
            assert(exact(w) <= (4 as real) * (big * t));
            lemma_scale_order(exact(w), (4 as real) * (big * t), big);
            lemma_constant(big, big, t);
            assert(one <= (4 as real) * (big * big) * t);
            lemma_scale_order(one, (4 as real) * (big * big) * t, tiny());
            lemma_scale_order(tiny(), u * u, (4 as real) * (big * big));
            lemma_tiny_next(u, big, t);
            assert(tiny() <= u * t);
            lemma_scale_order(u, one / (1_000_000 as real), t);
            lemma_exact_order(c, fzero());
            lemma_exact_order(fzero(), fzero());
            assert(exact(c) > zero);
            crate::laws::affine::lemma_unsigned(c);
            lemma_plus_zero(c);
        } else {
            assert(v[n - 1] != v[q]);
        }
    }
}

proof fn lemma_constant(big: real, other: real, t: real)
    ensures
        big * ((4 as real) * (other * t)) == (4 as real) * (big * other) * t,
{
    lemma_associate(big, 4 as real, other * t);
    lemma_commute(big, 4 as real);
    lemma_associate(4 as real * big, other, t);
    lemma_associate(4 as real, big, other);
}

/// The smallest number is below the rounding of a contribution.
proof fn lemma_tiny_next(u: real, big: real, t: real)
    requires
        u == ulp(),
        big == (0x100_0000_0000int as real),
        (1 as real) <= (4 as real) * (big * big) * t,
    ensures
        tiny() <= u * t,
{
    lemma_small_errors();
    crate::precision::lemma_least();
    let one = 1 as real;
    let zero = 0 as real;
    let l = crate::precision::least();
    let huge = 0x1_0000_0000_0000_0000int as real;
    let k = (4 as real) * (big * big);
    // t is at least the inverse of k, and the least number with a square to spare is below it.
    assert(k <= huge * huge);
    assert(zero * k == zero);
    lemma_commute(k, t);
    lemma_cancel_order(zero, t, k);
    if t < l * l {
        lemma_scale_order(t, l * l, k);
        lemma_scale_order(k, huge * huge, l * l);
        lemma_positive_product(l, l);
        lemma_scale_order(l, one / huge, l);
        lemma_scale_order(l, one / huge, one / huge);
        lemma_commute(one / huge, l);
        assert(l * l <= one / huge * (one / huge));
        lemma_scale_order(l * l, one / huge * (one / huge), huge * huge);
        assert(one / huge * (one / huge) * (huge * huge) == one);
        lemma_commute(k, l * l);
        lemma_commute(huge * huge, l * l);
        assert(t * k >= one);
        lemma_strict(t, l * l, k);
    }
    lemma_scale_order(l * l, t, u);
    lemma_scale_order(one, huge, tiny());
}

proof fn lemma_strict(x: real, y: real, z: real)
    requires
        x < y,
        z > (0 as real),
    ensures
        x * z < y * z,
{
    lemma_positive_product(y - x, z);
    lemma_distribute(z, y, x);
}

/// Contributions fall strictly from one rank to the next.
proof fn lemma_contributions_fall(w: real, d: real, x: real, y: real)
    requires
        (0 as real) < w,
        (1 as real) <= d <= (0x400_0000_0000int as real),
        size(x - w / d) <= (5 as real) * (ulp() * (w / d)),
        size(y - w / (d + (1 as real))) <= (5 as real) * (ulp() * (w / (d + (1 as real)))),
    ensures
        y < x,
{
    lemma_small_errors();
    let one = 1 as real;
    let zero = 0 as real;
    let u = ulp();
    let s = w / d;
    let e = d + one;
    let t = w / e;
    lemma_quotient_back(w, d);
    lemma_quotient_back(w, e);
    lemma_distribute(t, d, one);
    assert(zero * e == zero && zero * d == zero);
    lemma_cancel_order(zero, t, e);
    assert(s * d == t * d + t);
    lemma_distribute(d, s, t);
    let gap = s - t;
    assert(gap * d == t);
    lemma_cancel_order(zero, gap, d);
    // The gap, a share of the later contribution, is more than the roundings of both.
    let big = 0x400_0000_0000int as real;
    lemma_scale_order(d, big, gap);
    lemma_commute(gap, d);
    lemma_commute(gap, big);
    assert(t <= big * gap);
    lemma_scale_order(t, big * gap, u);
    lemma_associate(u, big, gap);
    lemma_scale_order(u * big, one / (100 as real), gap);
    assert(u * t <= gap / (100 as real));
    lemma_distribute(u, gap, t);
    assert(u * s == u * gap + u * t);
    lemma_scale_order(u, one / (100 as real), gap);
    if gap == zero {
        assert(t == zero);
        assert(zero * e == zero);
    }
}

/// A list without scores keeps its own order: fused on its own, with distinct ids and a
/// positive weight, it comes out item by item, with strictly falling scores, each of which is
/// the weight over the rank constant plus the position counted from one, however long the
/// list.
pub proof fn lemma_single_list_keeps_its_order<Id>(
    obs: Seq<ChannelInput<Id>>,
    weights: Map<Seq<char>, Double>,
    eta: Double,
)
    requires
        obs.len() == 1,
        obs[0].items is Ranks,
        obs[0].items->Ranks_0@.no_duplicates(),
        obs[0].items->Ranks_0@.len() <= 0x100_0000_0000,
        obs[0].items->Ranks_0@.len() <= usize::MAX,
        weights.contains_key(obs[0].key@) ==> sane_weight(weights[obs[0].key@]),
        (1 as real) / (0x100_0000_0000int as real) <= weight_as_real(weights, obs[0].key@),
        eta.finite(),
        (0 as real) <= exact(eta) <= (0x100_0000_0000int as real),
    ensures
        ({
            let v = obs[0].items->Ranks_0@;
            let ranking = fused_ranking(obs, weights, eta);
            let w = weight_as_real(weights, obs[0].key@);
            &&& ranking.len() == v.len()
            &&& forall|p: int| 0 <= p < v.len() ==> (#[trigger] ranking[p]).0 == v[p]
            &&& forall|p: int|
                0 <= p < v.len() ==> (#[trigger] ranking[p]).1.finite() && size(
                    exact(ranking[p].1) - w / (exact(eta) + ((p + 1) as real)),
                ) <= (5 as real) * (ulp() * (w / (exact(eta) + ((p + 1) as real))))
            &&& forall|p: int, q: int|
                #![trigger ranking[p], ranking[q]]
                0 <= p < q < v.len() ==> flt(ranking[q].1, ranking[p].1)
        }),
{
    lemma_one();
    lemma_exact_order(fzero(), fzero());
    let items = obs[0].items;
    let v = items->Ranks_0@;
    let n = v.len() as int;
    let w = weight_for(weights, obs[0].key@);
    let wr = weight_as_real(weights, obs[0].key@);
    assert(sane_weight(w) && exact(w) == wr);
    lemma_own_order(obs, v, n);
    assert(v.take(n) =~= v);
    assert(surfaced(obs) == seen(obs, 0, n));
    let scores = fused_scores(obs, weights, eta);
    let at = |p: int| wr / (exact(eta) + ((p + 1) as real));
    assert forall|p: int| 0 <= p < n implies (#[trigger] scores[p]).finite() && size(
        exact(scores[p]) - at(p),
    ) <= (5 as real) * (ulp() * at(p)) by {
        lemma_one_contribution(items, w, eta, p, n);
        assert(fused_score(obs, weights, eta, v[p], 0) == fzero());
        assert(items.id_at(p) == v[p]);
    }
    assert forall|p: int| 0 <= p && p + 1 < n implies exact(scores[p + 1]) < exact(
        #[trigger] scores[p],
    ) by {
        let d = exact(eta) + ((p + 1) as real);
        assert(d + (1 as real) == exact(eta) + ((p + 2) as real));
        assert(scores[p + 1].finite() && size(exact(scores[p + 1]) - at(p + 1)) <= (5 as real) * (
        ulp() * at(p + 1)));
        lemma_contributions_fall(wr, d, exact(scores[p]), exact(scores[p + 1]));
    }
    assert forall|p: int, q: int|
        #![trigger scores[p], scores[q]]
        0 <= p < q < n implies flt(scores[q], scores[p]) by {
        lemma_falls(scores, n, p, q);
        lemma_exact_order(scores[q], scores[p]);
    }
    let keys = descending_keys(scores);
    let own = Seq::new(n as nat, |p: int| p as usize);
    lemma_order_sorts(keys);
    assert(sorts(keys, own)) by {
        assert forall|p: int, q: int|
            #![trigger own[p], own[q]]
            0 <= p < q < own.len() implies sorts_before(keys, own[p] as int, own[q] as int) by {
            assert(flt(scores[q], scores[p]));
            lemma_descending_key(scores[p], scores[q]);
        }
        assert forall|x: usize| 0 <= x < n implies #[trigger] own.contains(x) by {
            assert(own[x as int] == x);
        }
    }
    lemma_sort_unique(keys, order_of(keys), own);
}

/// What falls at every step falls over any distance.
proof fn lemma_falls(scores: Seq<Double>, n: int, p: int, q: int)
    requires
        0 <= p < q < n <= scores.len(),
        forall|i: int|
            0 <= i && i + 1 < n ==> exact(scores[i + 1]) < exact(#[trigger] scores[i]),
    ensures
        exact(scores[q]) < exact(scores[p]),
    decreases q - p,
{
    assert(exact(scores[q - 1 + 1]) < exact(scores[q - 1]));
    if p + 1 < q {
        lemma_falls(scores, n, p, q - 1);
    }
}

} // verus!
