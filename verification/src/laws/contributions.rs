//! What a fused score is: the sum of weight over rank constant and rank, over the channels
//! that surfaced the item, up to rounding.
use crate::double::{fadd, fdiv, feq, flt, fone, fzero, Double};
use crate::exact::lemma_one;
use crate::halves::{halves, lemma_halves, lemma_halves_add, lemma_two_halves};
use crate::ingest::input::{ChannelInput, Items};
use crate::laws::ranking::lemma_order_sorts;
use crate::laws::solving::{
    by_columns, by_rows, lemma_sum_nothing, lemma_sum_same, lemma_sum_swapped, sum_of,
};
use crate::numeric::{descending_keys, lemma_descending_key, order_of};
use crate::precision::{
    exact, lemma_exact_count, lemma_exact_order, lemma_quotient_error, lemma_small_errors,
    lemma_sum_error, limit, size, tiny, ulp,
};
use crate::reals::{
    lemma_associate, lemma_cancel_order, lemma_commute, lemma_distribute, lemma_positive_product,
    lemma_quotient_back, lemma_scale_order,
};
use crate::sorting::{sorts, sorts_before};
use crate::weighting::discrimination::pool_scores;
use crate::weighting::fusion::{
    fused_ranking, fused_score, fused_scores, gathered, rank_at, surfaced, walk, weight_for,
};
use vstd::prelude::*;

verus! {

/// The places of the items of a scored list with a larger score than the one at `p`.
pub open spec fn better<Id>(v: Seq<(Id, Double)>, p: int) -> Set<int> {
    Set::new(|j: int| 0 <= j < v.len() && flt(v[p].1, v[j].1))
}

/// The places of the items of a scored list with the score of the one at `p`.
pub open spec fn level<Id>(v: Seq<(Id, Double)>, p: int) -> Set<int> {
    Set::new(|j: int| 0 <= j < v.len() && feq(v[j].1, v[p].1))
}

/// The rank of the item at `p` of a channel's list, as a number: its position counted from one
/// in a list without scores, and else one more than there are better items, items of one score
/// sharing the mean of the ranks that they span.
pub open spec fn standing<Id>(items: Items<Id>, p: int) -> real {
    match items {
        Items::Ranks(v) => (p + 1) as real,
        Items::Scored(v) => (better(v@, p).len() as real) + ((level(v@, p).len() as real) + (
        1 as real)) / (2 as real),
    }
}

/// What the item at `p` of a channel's list adds to an id.
pub open spec fn added_at<Id>(items: Items<Id>, id: Id, weight: real, eta: real, p: int) -> real {
    if items.id_at(p) == id {
        weight / (eta + standing(items, p))
    } else {
        0 as real
    }
}

/// The weight of a channel, as a number; one that has none weighs one.
pub open spec fn weight_as_real(weights: Map<Seq<char>, Double>, key: Seq<char>) -> real {
    if weights.contains_key(key) {
        exact(weights[key])
    } else {
        1 as real
    }
}

/// What the first `n` channels add to an id, without rounding.
pub open spec fn merit<Id>(
    obs: Seq<ChannelInput<Id>>,
    weights: Map<Seq<char>, Double>,
    eta: real,
    id: Id,
    n: int,
) -> real
    decreases n,
{
    if n <= 0 {
        0 as real
    } else {
        merit(obs, weights, eta, id, n - 1) + sum_of(
            |p: int|
                added_at(
                    obs[n - 1].items,
                    id,
                    weight_as_real(weights, obs[n - 1].key@),
                    eta,
                    p,
                ),
            obs[n - 1].items.size() as int,
        )
    }
}

/// How many items the first `n` channels list.
pub open spec fn items_in<Id>(obs: Seq<ChannelInput<Id>>, n: int) -> int
    decreases n,
{
    if n <= 0 {
        0
    } else {
        items_in(obs, n - 1) + obs[n - 1].items.size()
    }
}

/// A list whose scores, where it has any, are finite.
pub open spec fn finite_scores<Id>(items: Items<Id>) -> bool {
    items is Scored ==> forall|p: int|
        0 <= p < items->Scored_0@.len() ==> (#[trigger] items->Scored_0@[p]).1.finite()
}

/// A weight that is not negative and far from overflow.
pub open spec fn sane_weight(w: Double) -> bool {
    w.finite() && (0 as real) <= exact(w) <= (0x100_0000_0000int as real)
}

/// Channels that can be fused without running out of numbers: few enough items with finite
/// scores, weights that are not negative, and a rank constant that is not either.
pub open spec fn fusible<Id>(
    obs: Seq<ChannelInput<Id>>,
    weights: Map<Seq<char>, Double>,
    eta: Double,
) -> bool {
    &&& eta.finite()
    &&& (0 as real) <= exact(eta) <= (0x100_0000_0000int as real)
    &&& items_in(obs, obs.len() as int) <= 0x100_0000_0000
    &&& forall|c: int|
        0 <= c < obs.len() ==> (#[trigger] obs[c]).items.size() <= usize::MAX && finite_scores(
            obs[c].items,
        )
    &&& forall|k: Seq<char>| #[trigger] weights.contains_key(k) ==> sane_weight(weights[k])
}

/// How far `k` additions can move a sum.
pub open spec fn gathering_error(k: int, sum: real) -> real {
    ((2 * k + 4) as real) * (ulp() * sum) + ((2 * k) as real) * tiny()
}

/// The computed rank of an item is its standing.
proof fn lemma_rank_is_standing<Id>(items: Items<Id>, p: int)
    requires
        0 <= p < items.size() <= 0x100_0000_0000,
        finite_scores(items),
    ensures
        rank_at(items, p).finite(),
        exact(rank_at(items, p)) == standing(items, p),
        (1 as real) <= standing(items, p) <= (0x200_0000_0000int as real),
{
    match items {
        Items::Ranks(v) => {
            lemma_exact_count(p + 1);
        },
        Items::Scored(v) => {
            let s = pool_scores(v@);
            let keys = descending_keys(s);
            let n = v@.len() as int;
            assert(v@[p].1.finite());
            assert forall|j: int| 0 <= j < n implies (#[trigger] keys[j] < keys[p]) == flt(
                v@[p].1,
                v@[j].1,
            ) && (keys[j] == keys[p]) == feq(v@[j].1, v@[p].1) by {
                assert(v@[j].1.finite());
                lemma_descending_key(s[j], s[p]);
            }
            let a = better(v@, p);
            let b = level(v@, p);
            assert(Set::new(|j: int| 0 <= j < keys.len() && keys[j] < keys[p]) =~= a);
            assert(Set::new(|j: int| 0 <= j < keys.len() && keys[j] == keys[p]) =~= b);
            vstd::set_lib::lemma_int_range(0, n);
            let all = vstd::set_lib::set_int_range(0, n);
            assert(a.subset_of(all) && b.subset_of(all));
            vstd::set_lib::lemma_len_subset(a, all);
            vstd::set_lib::lemma_len_subset(b, all);
            assert(a.disjoint(b));
            vstd::set_lib::lemma_set_disjoint_lens(a, b);
            assert((a + b).subset_of(all));
            vstd::set_lib::lemma_len_subset(a + b, all);
            assert(b.contains(p));
            vstd::set_lib::lemma_len_subset(Set::empty().insert(p), b);
            let k = 2 * (a.len() as int) + b.len() - 1;
            lemma_two_halves();
            lemma_halves_add(k, 2);
            lemma_halves(k + 2);
            assert(rank_at(items, p) == halves(k + 2));
        },
    }
}

/// A contribution as it is computed is near what it stands for.
pub proof fn lemma_contribution_near(w: Double, eta: Double, rank: Double, place: real)
    requires
        sane_weight(w),
        eta.finite(),
        (0 as real) <= exact(eta) <= (0x100_0000_0000int as real),
        rank.finite(),
        exact(rank) == place,
        (1 as real) <= place <= (0x200_0000_0000int as real),
    ensures
        ({
            let c = fdiv(w, fadd(eta, rank));
            let t = exact(w) / (exact(eta) + place);
            &&& c.finite()
            &&& (0 as real) <= t <= (0x100_0000_0000int as real)
            &&& size(exact(c) - t) <= (4 as real) * (ulp() * t) + tiny()
        }),
{
    lemma_small_errors();
    let one = 1 as real;
    let zero = 0 as real;
    let u = ulp();
    let x = exact(w);
    let d = exact(eta) + place;
    let t = x / d;
    lemma_sum_error(eta, rank);
    let den = fadd(eta, rank);
    let y = exact(den);
    lemma_scale_order(u, one / (1_000_000 as real), d);
    assert(y > zero);
    lemma_exact_order(den, den);
    lemma_quotient_back(x, d);
    lemma_quotient_back(x, y);
    let q = x / y;
    assert(zero * d == zero && zero * y == zero);
    lemma_cancel_order(zero, t, d);
    lemma_cancel_order(zero, q, y);
    let big = 0x100_0000_0000int as real;
    lemma_scale_order(one, d, big);
    lemma_commute(big, d);
    lemma_cancel_order(t, big, d);
    // q (1 - u) d <= x == t d, and t d <= q (1 + u) d.
    let ud = u * d;
    lemma_scale_order(y, d + ud, q);
    lemma_scale_order(d - ud, y, q);
    lemma_distribute(q, d, ud);
    lemma_associate(q, u, d);
    lemma_commute(q, u);
    let uq = u * q;
    lemma_distribute(d, q, uq);
    lemma_cancel_order(t, q + uq, d);
    lemma_cancel_order(q - uq, t, d);
    // So q is at most twice t, and the two differ by at most two roundings of t.
    lemma_scale_order(u, one / (1_000_000 as real), q);
    assert(q <= (2 as real) * t);
    lemma_scale_order(q, (2 as real) * t, u);
    lemma_associate(u, 2 as real, t);
    lemma_commute(u, 2 as real);
    lemma_associate(2 as real, u, t);
    let ut = u * t;
    assert(uq <= (2 as real) * ut);
    lemma_quotient_error(w, den);
}

/// One contribution more.
pub proof fn lemma_gathering_step(k: int, sum: real, term: real, before: real, c: real, after: real)
    requires
        0 <= k < 0x100_0000_0000,
        (0 as real) <= sum,
        (0 as real) <= term,
        size(before - sum) <= gathering_error(k, sum),
        size(c - term) <= (4 as real) * (ulp() * term) + tiny(),
        size(after - (before + c)) <= ulp() * size(before + c),
    ensures
        size(after - (sum + term)) <= gathering_error(k + 1, sum + term),
{
    lemma_small_errors();
    let u = ulp();
    let w = tiny();
    let one = 1 as real;
    let all = sum + term;
    let k1 = (2 * k + 4) as real;
    let k2 = (2 * k) as real;
    let us = u * sum;
    let ut = u * term;
    lemma_positive_product(u, sum);
    lemma_positive_product(u, term);
    lemma_distribute(u, sum, term);
    lemma_distribute(k1, us, ut);
    lemma_scale_order(4 as real, k1, ut);
    let v = before + c;
    let e = k1 * (u * all) + k2 * w + w;
    assert(size(v - all) <= e);
    // The sum itself is no more than twice what it stands for.
    lemma_scale_order(k1, 0x400_0000_0000int as real, u * all);
    lemma_associate(0x400_0000_0000int as real, u, all);
    lemma_scale_order((0x400_0000_0000int as real) * u, one / (2 as real), all);
    assert(size(v) <= (2 as real) * all + (k2 * w + w));
    lemma_scale_order(size(v), (2 as real) * all + (k2 * w + w), u);
    lemma_distribute(u, (2 as real) * all, k2 * w + w);
    lemma_distribute(u, k2 * w, w);
    lemma_associate(u, 2 as real, all);
    lemma_commute(u, 2 as real);
    lemma_associate(2 as real, u, all);
    lemma_associate(u, k2, w);
    lemma_scale_order(k2, 0x400_0000_0000int as real, u);
    lemma_scale_order(u * k2, one / (2 as real), w);
    lemma_scale_order(u, one / (2 as real), w);
    assert((2 * (k + 1) + 4) as real == k1 + (2 as real));
    assert((2 * (k + 1)) as real == k2 + (2 as real));
    lemma_distribute(u * all, k1, 2 as real);
    lemma_distribute(w, k2, 2 as real);
}

/// Without a contribution the error stays within a larger allowance.
proof fn lemma_gathering_rests(k: int, more: int, sum: real)
    requires
        0 <= k <= more,
        (0 as real) <= sum,
    ensures
        gathering_error(k, sum) <= gathering_error(more, sum),
{
    lemma_small_errors();
    lemma_positive_product(ulp(), sum);
    lemma_scale_order((2 * k + 4) as real, (2 * more + 4) as real, ulp() * sum);
    lemma_scale_order((2 * k) as real, (2 * more) as real, tiny());
}

/// A sum in which one term alone may differ from nought is that term.
proof fn lemma_sum_single(f: spec_fn(int) -> real, n: int, at: int)
    requires
        0 <= at < n,
        forall|i: int| 0 <= i < n && i != at ==> #[trigger] f(i) == (0 as real),
    ensures
        sum_of(f, n) == f(at),
    decreases n,
{
    if at == n - 1 {
        lemma_sum_nothing(f, n - 1);
    } else {
        lemma_sum_single(f, n - 1, at);
        assert(f(n - 1) == (0 as real));
    }
}

/// A sum does not depend on the order in which its terms are listed.
pub proof fn lemma_sum_permuted(f: spec_fn(int) -> real, keys: Seq<u64>, order: Seq<usize>)
    requires
        sorts(keys, order),
        keys.len() <= usize::MAX,
    ensures
        sum_of(|t: int| f(order[t] as int), keys.len() as int) == sum_of(f, keys.len() as int),
{
    let n = keys.len() as int;
    let zero = 0 as real;
    let g = |t: int, p: int|
        if order[t] as int == p {
            f(p)
        } else {
            0 as real
        };
    lemma_sum_swapped(g, n, n);
    let walked = |t: int| f(order[t] as int);
    let rows = |t: int| sum_of(|p: int| g(t, p), n);
    assert forall|t: int| 0 <= t < n implies #[trigger] walked(t) == rows(t) by {
        assert(0 <= order[t] < n);
        lemma_sum_single(|p: int| g(t, p), n, order[t] as int);
    }
    lemma_sum_same(walked, rows, n);
    let columns = |p: int| sum_of(|t: int| g(t, p), n);
    assert forall|p: int| 0 <= p < n implies #[trigger] columns(p) == f(p) by {
        assert(order.contains(p as usize));
        let at = choose|at: int| 0 <= at < order.len() && order[at] == p as usize;
        let h = |t: int| g(t, p);
        assert forall|t: int| 0 <= t < n && t != at implies #[trigger] h(t) == zero by {
            if order[t] == order[at] {
                if t < at {
                    assert(sorts_before(keys, order[t] as int, order[at] as int));
                } else {
                    assert(sorts_before(keys, order[at] as int, order[t] as int));
                }
            }
        }
        lemma_sum_single(h, n, at);
    }
    lemma_sum_same(columns, f, n);
    assert(by_rows(g, n, n) == sum_of(rows, n));
    assert(by_columns(g, n, n) == sum_of(columns, n));
}

/// What a channel adds to an id, walked best first, is near what it stands for.
proof fn lemma_gathered_near<Id>(
    items: Items<Id>,
    id: Id,
    weight: Double,
    eta: Double,
    start: Double,
    base: real,
    k: int,
    n: int,
)
    requires
        items.size() <= usize::MAX,
        finite_scores(items),
        sane_weight(weight),
        eta.finite(),
        (0 as real) <= exact(eta) <= (0x100_0000_0000int as real),
        0 <= k,
        0 <= n <= items.size(),
        k + items.size() <= 0x100_0000_0000,
        start.finite(),
        (0 as real) <= base <= (k as real) * (0x100_0000_0000int as real),
        size(exact(start) - base) <= gathering_error(k, base),
    ensures
        ({
            let x = gathered(items, id, weight, eta, start, n);
            let t = base + sum_of(
                |i: int| added_at(items, id, exact(weight), exact(eta), walk(items)[i] as int),
                n,
            );
            &&& x.finite()
            &&& base <= t <= ((k + n) as real) * (0x100_0000_0000int as real)
            &&& size(exact(x) - t) <= gathering_error(k + n, t)
        }),
    decreases n,
{
    lemma_small_errors();
    let f = |i: int| added_at(items, id, exact(weight), exact(eta), walk(items)[i] as int);
    let big = 0x100_0000_0000int as real;
    if n > 0 {
        lemma_gathered_near(items, id, weight, eta, start, base, k, n - 1);
        let p = walk(items)[n - 1] as int;
        lemma_walk_in_range(items, n - 1);
        let before = gathered(items, id, weight, eta, start, n - 1);
        let t = base + sum_of(f, n - 1);
        lemma_rank_is_standing(items, p);
        let place = standing(items, p);
        lemma_contribution_near(weight, eta, rank_at(items, p), place);
        let c = fdiv(weight, fadd(eta, rank_at(items, p)));
        let term = exact(weight) / (exact(eta) + place);
        lemma_distribute(big, (k + n - 1) as real, 1 as real);
        assert((k + n) as real == ((k + n - 1) as real) + (1 as real));
        if items.id_at(p) == id {
            assert(f(n - 1) == term);
            lemma_room(k + n - 1, t, exact(before), term, exact(c));
            lemma_sum_error(before, c);
            lemma_gathering_step(
                k + n - 1,
                t,
                term,
                exact(before),
                exact(c),
                exact(fadd(before, c)),
            );
        } else {
            assert(f(n - 1) == (0 as real));
            lemma_gathering_rests(k + n - 1, k + n, t);
        }
    }
}

/// A gathered sum is far from overflow.
proof fn lemma_room(k: int, t: real, before: real, term: real, c: real)
    requires
        0 <= k < 0x100_0000_0000,
        (0 as real) <= t <= (k as real) * (0x100_0000_0000int as real),
        (0 as real) <= term <= (0x100_0000_0000int as real),
        size(before - t) <= gathering_error(k, t),
        size(c - term) <= (4 as real) * (ulp() * term) + tiny(),
    ensures
        size(before + c) <= limit(),
{
    lemma_small_errors();
    let u = ulp();
    let one = 1 as real;
    let big = 0x100_0000_0000int as real;
    let k1 = (2 * k + 4) as real;
    let k2 = (2 * k) as real;
    lemma_scale_order(k as real, big, big);
    lemma_positive_product(u, t);
    lemma_scale_order(k1, (4 as real) * big, u * t);
    lemma_associate((4 as real) * big, u, t);
    lemma_scale_order((4 as real) * big * u, one, t);
    lemma_scale_order(k2, (2 as real) * big, tiny());
    lemma_scale_order(tiny(), one, (2 as real) * big);
    lemma_scale_order(u, one, term);
    assert(size(before) <= (2 as real) * (big * big) + (2 as real) * big);
    assert((4 as real) * (big * big) <= limit());
}

proof fn lemma_walk_in_range<Id>(items: Items<Id>, t: int)
    requires
        0 <= t < items.size(),
        items.size() <= usize::MAX,
    ensures
        0 <= walk(items)[t] < items.size(),
{
    match items {
        Items::Ranks(v) => {},
        Items::Scored(v) => {
            lemma_order_sorts(descending_keys(pool_scores(v@)));
        },
    }
}

/// A channel's contributions can be summed in the order of its list.
proof fn lemma_walked_sum<Id>(items: Items<Id>, id: Id, weight: real, eta: real)
    requires
        items.size() <= usize::MAX,
    ensures
        sum_of(
            |i: int| added_at(items, id, weight, eta, walk(items)[i] as int),
            items.size() as int,
        ) == sum_of(|p: int| added_at(items, id, weight, eta, p), items.size() as int),
{
    let n = items.size() as int;
    let f = |p: int| added_at(items, id, weight, eta, p);
    let walked = |i: int| added_at(items, id, weight, eta, walk(items)[i] as int);
    match items {
        Items::Ranks(v) => {
            lemma_sum_same(walked, f, n);
        },
        Items::Scored(v) => {
            let keys = descending_keys(pool_scores(v@));
            lemma_order_sorts(keys);
            let order = order_of(keys);
            lemma_sum_permuted(f, keys, order);
            let other = |t: int| f(order[t] as int);
            lemma_sum_same(walked, other, n);
        },
    }
}

proof fn lemma_items_grow<Id>(obs: Seq<ChannelInput<Id>>, n: int, m: int)
    requires
        0 <= n <= m <= obs.len(),
    ensures
        0 <= items_in(obs, n) <= items_in(obs, m),
    decreases m,
{
    if m > 0 {
        if n < m {
            lemma_items_grow(obs, n, m - 1);
        } else {
            lemma_items_grow(obs, n - 1, m - 1);
        }
    }
}

/// The fused score of an id is near its merit.
proof fn lemma_fused_score_near<Id>(
    obs: Seq<ChannelInput<Id>>,
    weights: Map<Seq<char>, Double>,
    eta: Double,
    id: Id,
    n: int,
)
    requires
        fusible(obs, weights, eta),
        0 <= n <= obs.len(),
    ensures
        ({
            let x = fused_score(obs, weights, eta, id, n);
            let t = merit(obs, weights, exact(eta), id, n);
            &&& x.finite()
            &&& (0 as real) <= t <= (items_in(obs, n) as real) * (0x100_0000_0000int as real)
            &&& size(exact(x) - t) <= gathering_error(items_in(obs, n), t)
        }),
    decreases n,
{
    lemma_small_errors();
    lemma_one();
    lemma_exact_order(fzero(), fone());
    let zero = 0 as real;
    if n > 0 {
        lemma_fused_score_near(obs, weights, eta, id, n - 1);
        lemma_items_grow(obs, n, obs.len() as int);
        lemma_items_grow(obs, n - 1, n);
        let o = obs[n - 1];
        let w = weight_for(weights, o.key@);
        assert(sane_weight(w));
        assert(exact(w) == weight_as_real(weights, o.key@));
        lemma_gathered_near(
            o.items,
            id,
            w,
            eta,
            fused_score(obs, weights, eta, id, n - 1),
            merit(obs, weights, exact(eta), id, n - 1),
            items_in(obs, n - 1),
            o.items.size() as int,
        );
        lemma_walked_sum(o.items, id, exact(w), exact(eta));
    } else {
        assert(zero * (0x100_0000_0000int as real) == zero);
        assert(ulp() * zero == zero);
        assert((4 as real) * zero == zero);
        assert(zero * tiny() == zero);
    }
}

/// What a fused score is: every entry of the fused ranking carries the sum, over all channels
/// and over the places at which a channel lists its id, of the channel's weight over the rank
/// constant plus the rank, up to two rounding errors for each item that is listed. The rank of
/// an item in a list without scores is its position counted from one, whatever the position;
/// in a scored list one more than there are better items, items of one score sharing the mean
/// of the ranks that they span. A channel adds nothing to an id that it does not list, and one
/// without a weight weighs one.
pub proof fn lemma_fused_score_is_the_sum<Id>(
    obs: Seq<ChannelInput<Id>>,
    weights: Map<Seq<char>, Double>,
    eta: Double,
    r: int,
)
    requires
        fusible(obs, weights, eta),
        surfaced(obs).len() <= usize::MAX,
        0 <= r < fused_ranking(obs, weights, eta).len(),
    ensures
        ({
            let n = obs.len() as int;
            let (id, x) = fused_ranking(obs, weights, eta)[r];
            let t = merit(obs, weights, exact(eta), id, n);
            &&& x.finite()
            &&& size(exact(x) - t) <= gathering_error(items_in(obs, n), t)
        }),
{
    let scores = fused_scores(obs, weights, eta);
    let order = order_of(descending_keys(scores));
    lemma_order_sorts(descending_keys(scores));
    assert(0 <= order[r] < scores.len());
    lemma_fused_score_near(obs, weights, eta, surfaced(obs)[order[r] as int], obs.len() as int);
}

} // verus!
