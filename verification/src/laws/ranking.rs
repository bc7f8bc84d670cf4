//! Laws of rank fusion.
use crate::double::{
    fadd, fcount, fdiv, feq, fle, flt, fone, fzero, lemma_round_range, unit, Double, UNIT_EXPONENT,
};
use crate::exact::{
    lemma_magnitude_sign, lemma_one, lemma_plus_zero, lemma_positive_sum, lemma_unsigned_results,
    lemma_zero_div,
};
use crate::ingest::input::{ChannelInput, Items};
use crate::numeric::{
    count_alike, count_below, descending_keys, lemma_descending_key, midrank, order_of,
    value_midrank,
};
use crate::sorting::{in_order, lemma_sort_unique, lists, sorts, sorts_before};
use crate::weighting::coupling::midranks_of;
use crate::weighting::discrimination::pool_scores;
use crate::weighting::fusion::{
    fused_ranking, fused_score, fused_scores, gathered, rank_at, seen, surfaced, walk, weight_for,
};
use vstd::prelude::*;
use vstd::relations::injective;

verus! {

/// Tied items of a channel share one rank.
pub proof fn lemma_ties_share_rank(keys: Seq<u64>, i: int, j: int)
    requires
        0 <= i < keys.len(),
        0 <= j < keys.len(),
        keys[i] == keys[j],
    ensures
        midrank(keys, i) == midrank(keys, j),
{
}

/// `place` and `back` reorder the positions below `n`, each undoing the other.
pub open spec fn reorders(place: spec_fn(int) -> int, back: spec_fn(int) -> int, n: int) -> bool {
    &&& forall|a: int| 0 <= a < n ==> 0 <= #[trigger] place(a) < n && back(place(a)) == a
    &&& forall|b: int| 0 <= b < n ==> 0 <= #[trigger] back(b) < n && place(back(b)) == b
}

/// The rank of an item does not depend on where it stands in its channel's list: in a list
/// reordered by `place` each item keeps its rank.
pub proof fn lemma_rank_ignores_list_order(
    keys: Seq<u64>,
    place: spec_fn(int) -> int,
    back: spec_fn(int) -> int,
    i: int,
)
    requires
        0 <= i < keys.len(),
        reorders(place, back, keys.len() as int),
    ensures
        midrank(Seq::new(keys.len(), |a: int| keys[place(a)]), i) == midrank(keys, place(i)),
{
    let moved = Seq::new(keys.len(), |a: int| keys[place(a)]);
    let n = keys.len() as int;
    assert(0 <= place(i) < n);
    let x = Set::new(|a: int| 0 <= a < moved.len() && moved[a] < moved[i]);
    let y = Set::new(|b: int| 0 <= b < keys.len() && keys[b] < keys[place(i)]);
    lemma_reordered_count(n, place, back, x, y);
    let x2 = Set::new(|a: int| 0 <= a < moved.len() && moved[a] == moved[i]);
    let y2 = Set::new(|b: int| 0 <= b < keys.len() && keys[b] == keys[place(i)]);
    lemma_reordered_count(n, place, back, x2, y2);
}

pub proof fn lemma_reordered_count(
    n: int,
    place: spec_fn(int) -> int,
    back: spec_fn(int) -> int,
    x: Set<int>,
    y: Set<int>,
)
    requires
        reorders(place, back, n),
        forall|a: int| #[trigger] x.contains(a) ==> 0 <= a < n,
        forall|b: int| #[trigger] y.contains(b) ==> 0 <= b < n,
        forall|a: int| 0 <= a < n ==> (x.contains(a) <==> y.contains(#[trigger] place(a))),
    ensures
        x.len() == y.len(),
{
    if n < 0 {
        assert(x =~= y);
    } else {
        vstd::set_lib::lemma_int_range(0, n);
        let all = vstd::set_lib::set_int_range(0, n);
        assert(x.subset_of(all));
        vstd::set_lib::lemma_set_subset_finite(all, x);
        assert forall|a: int, b: int|
            #![trigger place(a), place(b)]
            x.contains(a) && x.contains(b) && place(a) == place(b) implies a == b by {
            assert(back(place(a)) == a && back(place(b)) == b);
        }
        assert(x.map(place) =~= y) by {
            assert forall|b: int| x.map(place).contains(b) == y.contains(b) by {
                if y.contains(b) {
                    let a = back(b);
                    assert(place(a) == b);
                    assert(x.contains(a));
                    assert(x.map(place).contains(place(a)));
                }
            }
        }
        vstd::set_lib::lemma_map_size(x, y, place);
    }
}

/// Two sequences of keys are ordered alike.
pub open spec fn ordered_alike(a: Seq<u64>, b: Seq<u64>) -> bool {
    &&& a.len() == b.len()
    &&& forall|i: int, j: int|
        #![trigger a[i], a[j]]
        #![trigger b[i], b[j]]
        0 <= i < a.len() && 0 <= j < a.len() ==> (a[i] < a[j] <==> b[i] < b[j]) && (a[i] == a[j]
            <==> b[i] == b[j])
}

proof fn lemma_alike_midrank(a: Seq<u64>, b: Seq<u64>, i: int)
    requires
        ordered_alike(a, b),
        0 <= i < a.len(),
    ensures
        midrank(a, i) == midrank(b, i),
{
    assert(Set::new(|j: int| 0 <= j < a.len() && a[j] < a[i]) =~= Set::new(
        |j: int| 0 <= j < b.len() && b[j] < b[i],
    ));
    assert(Set::new(|j: int| 0 <= j < a.len() && a[j] == a[i]) =~= Set::new(
        |j: int| 0 <= j < b.len() && b[j] == b[i],
    ));
}

proof fn lemma_alike_order(a: Seq<u64>, b: Seq<u64>, s: Seq<usize>)
    requires
        ordered_alike(a, b),
        sorts(a, s),
    ensures
        sorts(b, s),
        order_of(a) == order_of(b),
{
    assert forall|i: int, j: int|
        #![trigger s[i], s[j]]
        0 <= i < j < s.len() implies sorts_before(b, s[i] as int, s[j] as int) by {
        assert(sorts_before(a, s[i] as int, s[j] as int));
        let x = s[i] as int;
        let y = s[j] as int;
        assert((a[x] < a[y] <==> b[x] < b[y]) && (a[x] == a[y] <==> b[x] == b[y]));
    }
    assert(sorts(b, s));
    lemma_sort_unique(a, s, order_of(a));
    lemma_sort_unique(b, s, order_of(b));
}

/// The same comparisons hold among two samples.
pub open spec fn compares_alike(a: Seq<Double>, b: Seq<Double>) -> bool {
    &&& a.len() == b.len()
    &&& forall|i: int| 0 <= i < a.len() ==> !(#[trigger] a[i]).nan() && !b[i].nan()
    &&& forall|i: int, j: int|
        #![trigger a[i], a[j]]
        #![trigger b[i], b[j]]
        0 <= i < a.len() && 0 <= j < a.len() ==> flt(a[i], a[j]) == flt(b[i], b[j]) && feq(
            a[i],
            a[j],
        ) == feq(b[i], b[j])
}

/// Two pools of scores rank their items alike: the same comparisons hold among them.
pub open spec fn ranked_alike(a: Seq<Double>, b: Seq<Double>) -> bool {
    a.len() <= usize::MAX && compares_alike(a, b)
}

proof fn lemma_ranked_alike_keys(a: Seq<Double>, b: Seq<Double>)
    requires
        ranked_alike(a, b),
    ensures
        ordered_alike(descending_keys(a), descending_keys(b)),
{
    let x = descending_keys(a);
    let y = descending_keys(b);
    assert forall|i: int, j: int|
        #![trigger x[i], x[j]]
        #![trigger y[i], y[j]]
        0 <= i < x.len() && 0 <= j < x.len() implies (x[i] < x[j] <==> y[i] < y[j]) && (x[i] == x[j]
        <==> y[i] == y[j]) by {
        assert(!a[i].nan() && !b[i].nan() && !a[j].nan() && !b[j].nan());
        lemma_descending_key(a[i], a[j]);
        lemma_descending_key(b[i], b[j]);
        assert(flt(a[j], a[i]) == flt(b[j], b[i]) && feq(a[i], a[j]) == feq(b[i], b[j]));
    }
}

/// Two inputs say the same to a rank fusion: the same channel, the same ids, and scores that
/// rank alike.
pub open spec fn rank_equivalent<Id>(a: ChannelInput<Id>, b: ChannelInput<Id>) -> bool {
    &&& a.key@ == b.key@
    &&& match (a.items, b.items) {
        (Items::Ranks(x), Items::Ranks(y)) => x@ == y@,
        (Items::Scored(x), Items::Scored(y)) => {
            &&& ranked_alike(pool_scores(x@), pool_scores(y@))
            &&& forall|i: int| 0 <= i < x@.len() ==> (#[trigger] x@[i]).0 == y@[i].0
        },
        _ => false,
    }
}

/// A stable sort exists for every sequence of keys that can be held.
pub proof fn lemma_sort_exists(keys: Seq<u64>, n: int) -> (order: Seq<usize>)
    requires
        0 <= n <= keys.len() <= usize::MAX,
    ensures
        in_order(keys, order),
        lists(order, 0, n),
    decreases n,
{
    if n == 0 {
        Seq::empty()
    } else {
        let rest = lemma_sort_exists(keys, n - 1);
        lemma_insert_sorted(keys, rest, n - 1, rest.len() as int)
    }
}

/// The position `x`, larger than all listed, goes where its key belongs.
proof fn lemma_insert_sorted(keys: Seq<u64>, rest: Seq<usize>, x: int, p: int) -> (order: Seq<usize>)
    requires
        0 <= x < keys.len() <= usize::MAX,
        in_order(keys, rest),
        lists(rest, 0, x),
        0 <= p <= rest.len(),
        forall|q: int| p <= q < rest.len() ==> keys[x] < keys[(#[trigger] rest[q]) as int],
    ensures
        in_order(keys, order),
        lists(order, 0, x + 1),
    decreases p,
{
    if p > 0 && keys[x] < keys[rest[p - 1] as int] {
        lemma_insert_sorted(keys, rest, x, p - 1)
    } else {
        let order = rest.insert(p, x as usize);
        assert forall|i: int, j: int|
            #![trigger order[i], order[j]]
            0 <= i < j < order.len() implies sorts_before(keys, order[i] as int, order[j] as int) by {
            if j == p {
                assert(order[i] == rest[i]);
                if i < p - 1 {
                    assert(sorts_before(keys, rest[i] as int, rest[p - 1] as int));
                }
                assert(keys[rest[p - 1] as int] <= keys[x]);
                assert(rest[i] < x);
            } else if i == p {
                assert(order[j] == rest[j - 1]);
                assert(keys[x] < keys[rest[j - 1] as int]);
            } else {
                let a = if i < p {
                    i
                } else {
                    i - 1
                };
                let b = if j < p {
                    j
                } else {
                    j - 1
                };
                assert(order[i] == rest[a] && order[j] == rest[b]);
                assert(sorts_before(keys, rest[a] as int, rest[b] as int));
            }
        }
        assert forall|y: usize| 0 <= y < x + 1 implies #[trigger] order.contains(y) by {
            if y == x {
                assert(order[p] == y);
            } else {
                assert(rest.contains(y));
                let q = choose|q: int| 0 <= q < rest.len() && rest[q] == y;
                assert(order[if q < p {
                    q
                } else {
                    q + 1
                }] == y);
            }
        }
        assert forall|i: int| 0 <= i < order.len() implies 0 <= #[trigger] order[i] < x + 1 by {
            if i < p {
                assert(order[i] == rest[i]);
            } else if i > p {
                assert(order[i] == rest[i - 1]);
            }
        }
        order
    }
}

/// The stable order of a sequence of keys that can be held is one.
pub proof fn lemma_order_sorts(keys: Seq<u64>)
    requires
        keys.len() <= usize::MAX,
    ensures
        sorts(keys, order_of(keys)),
{
    let order = lemma_sort_exists(keys, keys.len() as int);
    assert(sorts(keys, order));
}

proof fn lemma_equivalent_items<Id>(a: ChannelInput<Id>, b: ChannelInput<Id>)
    requires
        rank_equivalent(a, b),
    ensures
        a.items.size() == b.items.size(),
        walk(a.items) == walk(b.items),
        forall|p: int|
            0 <= p < a.items.size() ==> #[trigger] a.items.id_at(p) == b.items.id_at(p) && rank_at(
                a.items,
                p,
            ) == rank_at(b.items, p),
        forall|t: int| 0 <= t < a.items.size() ==> 0 <= #[trigger] walk(a.items)[t] < a.items.size(),
        walk(a.items).len() == a.items.size(),
        a.items is Ranks ==> a.items.size() <= usize::MAX,
{
    match (a.items, b.items) {
        (Items::Ranks(x), Items::Ranks(y)) => {
            assert(walk(a.items) =~= walk(b.items));
            assert(x@.len() == x.len());
        },
        (Items::Scored(x), Items::Scored(y)) => {
            let u = descending_keys(pool_scores(x@));
            let v = descending_keys(pool_scores(y@));
            lemma_ranked_alike_keys(pool_scores(x@), pool_scores(y@));
            lemma_order_sorts(u);
            lemma_alike_order(u, v, order_of(u));
            assert forall|p: int| 0 <= p < a.items.size() implies #[trigger] a.items.id_at(p)
                == b.items.id_at(p) && rank_at(a.items, p) == rank_at(b.items, p) by {
                assert(x@[p].0 == y@[p].0);
                lemma_alike_midrank(u, v, p);
            }
        },
        _ => {},
    }
}

proof fn lemma_equivalent_gathered<Id>(
    a: ChannelInput<Id>,
    b: ChannelInput<Id>,
    id: Id,
    weight: Double,
    eta: Double,
    start: Double,
    n: int,
)
    requires
        rank_equivalent(a, b),
        0 <= n <= a.items.size(),
    ensures
        gathered(a.items, id, weight, eta, start, n) == gathered(
            b.items,
            id,
            weight,
            eta,
            start,
            n,
        ),
    decreases n,
{
    if n > 0 {
        lemma_equivalent_gathered(a, b, id, weight, eta, start, n - 1);
        lemma_equivalent_items(a, b);
        let p = walk(a.items)[n - 1] as int;
        assert(a.items.id_at(p) == b.items.id_at(p));
    }
}

/// Inputs that say the same, channel by channel.
pub open spec fn all_rank_equivalent<Id>(
    a: Seq<ChannelInput<Id>>,
    b: Seq<ChannelInput<Id>>,
) -> bool {
    a.len() == b.len() && forall|i: int|
        0 <= i < a.len() ==> rank_equivalent(#[trigger] a[i], b[i])
}

proof fn lemma_equivalent_seen<Id>(
    a: Seq<ChannelInput<Id>>,
    b: Seq<ChannelInput<Id>>,
    i: int,
    j: int,
)
    requires
        all_rank_equivalent(a, b),
        0 <= i <= a.len(),
        0 <= j,
        i < a.len() ==> j <= a[i].items.size(),
        i == a.len() ==> j == 0,
    ensures
        seen(a, i, j) == seen(b, i, j),
    decreases i, j,
{
    if j > 0 {
        lemma_equivalent_seen(a, b, i, j - 1);
        lemma_equivalent_items(a[i], b[i]);
        assert(a[i].items.id_at(j - 1) == b[i].items.id_at(j - 1));
    } else if i > 0 {
        lemma_equivalent_items(a[i - 1], b[i - 1]);
        lemma_equivalent_seen(a, b, i - 1, a[i - 1].items.size() as int);
    }
}

proof fn lemma_equivalent_score<Id>(
    a: Seq<ChannelInput<Id>>,
    b: Seq<ChannelInput<Id>>,
    weights: Map<Seq<char>, Double>,
    eta: Double,
    id: Id,
    n: int,
)
    requires
        all_rank_equivalent(a, b),
        0 <= n <= a.len(),
    ensures
        fused_score(a, weights, eta, id, n) == fused_score(b, weights, eta, id, n),
    decreases n,
{
    if n > 0 {
        lemma_equivalent_score(a, b, weights, eta, id, n - 1);
        let x = a[n - 1];
        let y = b[n - 1];
        assert(rank_equivalent(x, y));
        lemma_equivalent_items(x, y);
        lemma_equivalent_gathered(
            x,
            y,
            id,
            weight_for(weights, x.key@),
            eta,
            fused_score(a, weights, eta, id, n - 1),
            x.items.size() as int,
        );
    }
}

/// Fusion is free of scale: under given weights, scores that rank alike, channel by channel,
/// give the identical ranking, however they are calibrated.
pub proof fn lemma_scale_free<Id>(
    a: Seq<ChannelInput<Id>>,
    b: Seq<ChannelInput<Id>>,
    weights: Map<Seq<char>, Double>,
    eta: Double,
)
    requires
        all_rank_equivalent(a, b),
    ensures
        fused_ranking(a, weights, eta) == fused_ranking(b, weights, eta),
{
    lemma_equivalent_seen(a, b, a.len() as int, 0);
    assert forall|k: int| 0 <= k < surfaced(a).len() implies #[trigger] fused_scores(
        a,
        weights,
        eta,
    )[k] == fused_scores(b, weights, eta)[k] by {
        lemma_equivalent_score(a, b, weights, eta, surfaced(a)[k], a.len() as int);
    }
    assert(fused_scores(a, weights, eta) =~= fused_scores(b, weights, eta));
}

/// `b` holds the items of `a` under other ids, each id `x` being called `name(x)`.
pub open spec fn renamed<A, B>(a: Items<A>, b: Items<B>, name: spec_fn(A) -> B) -> bool {
    &&& a is Scored <==> b is Scored
    &&& a.size() == b.size()
    &&& forall|p: int| 0 <= p < a.size() ==> #[trigger] b.id_at(p) == name(a.id_at(p))
    &&& a is Scored ==> pool_scores(a->Scored_0@) == pool_scores(b->Scored_0@)
}

/// `b` holds the inputs of `a` under other ids.
pub open spec fn all_renamed<A, B>(
    a: Seq<ChannelInput<A>>,
    b: Seq<ChannelInput<B>>,
    name: spec_fn(A) -> B,
) -> bool {
    &&& a.len() == b.len()
    &&& forall|c: int|
        0 <= c < a.len() ==> (#[trigger] a[c]).key@ == b[c].key@ && renamed(
            a[c].items,
            b[c].items,
            name,
        )
}

proof fn lemma_renamed_seen<A, B>(
    a: Seq<ChannelInput<A>>,
    b: Seq<ChannelInput<B>>,
    name: spec_fn(A) -> B,
    i: int,
    j: int,
)
    requires
        injective(name),
        all_renamed(a, b, name),
        0 <= i <= a.len(),
        j <= 0 || i < a.len(),
        i < a.len() ==> j <= a[i].items.size(),
    ensures
        seen(b, i, j).len() == seen(a, i, j).len(),
        forall|k: int|
            0 <= k < seen(a, i, j).len() ==> #[trigger] seen(b, i, j)[k] == name(
                seen(a, i, j)[k],
            ),
    decreases i, j,
{
    if j > 0 {
        lemma_renamed_seen(a, b, name, i, j - 1);
        let x = seen(a, i, j - 1);
        let y = seen(b, i, j - 1);
        let id = a[i].items.id_at(j - 1);
        assert(renamed(a[i].items, b[i].items, name));
        assert(b[i].items.id_at(j - 1) == name(id));
        if x.contains(id) {
            let k = choose|k: int| 0 <= k < x.len() && x[k] == id;
            assert(y[k] == name(id));
        }
        if y.contains(name(id)) {
            let k = choose|k: int| 0 <= k < y.len() && y[k] == name(id);
            assert(y[k] == name(x[k]));
            assert(x[k] == id);
        }
    } else if i > 0 {
        assert(renamed(a[i - 1].items, b[i - 1].items, name));
        lemma_renamed_seen(a, b, name, i - 1, a[i - 1].items.size() as int);
    }
}

proof fn lemma_renamed_gathered<A, B>(
    a: Items<A>,
    b: Items<B>,
    name: spec_fn(A) -> B,
    id: A,
    weight: Double,
    eta: Double,
    start: Double,
    n: int,
)
    requires
        injective(name),
        renamed(a, b, name),
        n <= a.size(),
    ensures
        gathered(a, id, weight, eta, start, n) == gathered(b, name(id), weight, eta, start, n),
    decreases n,
{
    if n > 0 {
        lemma_renamed_gathered(a, b, name, id, weight, eta, start, n - 1);
        let p = walk(a)[n - 1] as int;
        match a {
            Items::Scored(v) => {
                assert(v.len() == v@.len());
                lemma_order_sorts(descending_keys(pool_scores(v@)));
            },
            Items::Ranks(v) => {
                assert(v.len() == v@.len());
            },
        }
        assert(0 <= p < a.size());
        assert(walk(b)[n - 1] == walk(a)[n - 1]);
        assert(b.id_at(p) == name(a.id_at(p)));
        assert(rank_at(a, p) == rank_at(b, p));
    }
}

proof fn lemma_renamed_score<A, B>(
    a: Seq<ChannelInput<A>>,
    b: Seq<ChannelInput<B>>,
    name: spec_fn(A) -> B,
    weights: Map<Seq<char>, Double>,
    eta: Double,
    id: A,
    n: int,
)
    requires
        injective(name),
        all_renamed(a, b, name),
        0 <= n <= a.len(),
    ensures
        fused_score(a, weights, eta, id, n) == fused_score(b, weights, eta, name(id), n),
    decreases n,
{
    if n > 0 {
        lemma_renamed_score(a, b, name, weights, eta, id, n - 1);
        let x = a[n - 1];
        let y = b[n - 1];
        lemma_renamed_gathered(
            x.items,
            y.items,
            name,
            id,
            weight_for(weights, x.key@),
            eta,
            fused_score(a, weights, eta, id, n - 1),
            x.items.size() as int,
        );
    }
}

/// Ids are opaque: the same inputs under other ids give the same ranking under those ids.
pub proof fn lemma_ids_are_opaque<A, B>(
    a: Seq<ChannelInput<A>>,
    b: Seq<ChannelInput<B>>,
    name: spec_fn(A) -> B,
    weights: Map<Seq<char>, Double>,
    eta: Double,
)
    requires
        injective(name),
        all_renamed(a, b, name),
        surfaced(a).len() <= usize::MAX,
    ensures
        fused_ranking(b, weights, eta) == fused_ranking(a, weights, eta).map_values(
            |entry: (A, Double)| (name(entry.0), entry.1),
        ),
{
    lemma_renamed_seen(a, b, name, a.len() as int, 0);
    let scores = fused_scores(a, weights, eta);
    assert forall|k: int| 0 <= k < surfaced(a).len() implies #[trigger] scores[k] == fused_scores(
        b,
        weights,
        eta,
    )[k] by {
        assert(surfaced(b)[k] == name(surfaced(a)[k]));
        lemma_renamed_score(a, b, name, weights, eta, surfaced(a)[k], a.len() as int);
    }
    assert(scores =~= fused_scores(b, weights, eta));
    lemma_order_sorts(descending_keys(scores));
    let order = order_of(descending_keys(scores));
    assert forall|i: int| 0 <= i < scores.len() implies #[trigger] fused_ranking(
        b,
        weights,
        eta,
    )[i] == (name(fused_ranking(a, weights, eta)[i].0), fused_ranking(a, weights, eta)[i].1) by {
        assert(0 <= order[i] < scores.len());
        assert(surfaced(b)[order[i] as int] == name(surfaced(a)[order[i] as int]));
    }
    assert(fused_ranking(b, weights, eta) =~= fused_ranking(a, weights, eta).map_values(
        |entry: (A, Double)| (name(entry.0), entry.1),
    ));
}

/// The ids that have been seen are distinct.
proof fn lemma_seen_distinct<Id>(obs: Seq<ChannelInput<Id>>, i: int, j: int)
    ensures
        seen(obs, i, j).no_duplicates(),
    decreases i, j,
{
    if 0 <= i && j > 0 {
        lemma_seen_distinct(obs, i, j - 1);
    } else if i > 0 {
        lemma_seen_distinct(obs, i - 1, obs[i - 1].items.size() as int);
    }
}

/// An id that has been seen is one of a channel's.
proof fn lemma_seen_source<Id>(obs: Seq<ChannelInput<Id>>, i: int, j: int, id: Id)
    requires
        0 <= i <= obs.len(),
        j <= 0 || i < obs.len(),
        i < obs.len() ==> j <= obs[i].items.size(),
        seen(obs, i, j).contains(id),
    ensures
        exists|c: int, p: int|
            0 <= c < obs.len() && 0 <= p < obs[c].items.size() && #[trigger] obs[c].items.id_at(p)
                == id,
    decreases i, j,
{
    if j > 0 {
        let before = seen(obs, i, j - 1);
        if before.contains(id) {
            lemma_seen_source(obs, i, j - 1, id);
        } else {
            let next = obs[i].items.id_at(j - 1);
            let s = before.push(next);
            let h = choose|h: int| 0 <= h < seen(obs, i, j).len() && seen(obs, i, j)[h] == id;
            if h < before.len() {
                assert(before[h] == id);
            }
            assert(obs[i].items.id_at(j - 1) == id);
        }
    } else if i > 0 {
        lemma_seen_source(obs, i - 1, obs[i - 1].items.size() as int, id);
    }
}

/// Nothing is lost and nothing is made up: an id is in the fused ranking exactly where a
/// channel surfaced it, and it is there once.
pub proof fn lemma_ranking_is_complete<Id>(
    obs: Seq<ChannelInput<Id>>,
    weights: Map<Seq<char>, Double>,
    eta: Double,
    id: Id,
)
    requires
        surfaced(obs).len() <= usize::MAX,
    ensures
        (exists|r: int|
            0 <= r < fused_ranking(obs, weights, eta).len() && (#[trigger] fused_ranking(
                obs,
                weights,
                eta,
            )[r]).0 == id) <==> (exists|c: int, p: int|
            0 <= c < obs.len() && 0 <= p < obs[c].items.size() && #[trigger] obs[c].items.id_at(p)
                == id),
        forall|r: int, s: int|
            #![trigger fused_ranking(obs, weights, eta)[r], fused_ranking(obs, weights, eta)[s]]
            0 <= r < s < fused_ranking(obs, weights, eta).len() ==> fused_ranking(
                obs,
                weights,
                eta,
            )[r].0 != fused_ranking(obs, weights, eta)[s].0,
{
    let ranking = fused_ranking(obs, weights, eta);
    let scores = fused_scores(obs, weights, eta);
    let keys = descending_keys(scores);
    let order = order_of(keys);
    let ids = surfaced(obs);
    lemma_order_sorts(keys);
    lemma_seen_distinct(obs, obs.len() as int, 0);
    if exists|r: int| 0 <= r < ranking.len() && (#[trigger] ranking[r]).0 == id {
        let r = choose|r: int| 0 <= r < ranking.len() && (#[trigger] ranking[r]).0 == id;
        assert(ids[order[r] as int] == id);
        assert(ids.contains(id));
        lemma_seen_source(obs, obs.len() as int, 0, id);
    }
    if exists|c: int, p: int|
        0 <= c < obs.len() && 0 <= p < obs[c].items.size() && #[trigger] obs[c].items.id_at(p)
            == id {
        let (c, p) = choose|c: int, p: int|
            0 <= c < obs.len() && 0 <= p < obs[c].items.size() && #[trigger] obs[c].items.id_at(p)
                == id;
        crate::weighting::fusion::lemma_seen_all(obs, c, obs[c].items.size() as int);
        assert(ids.contains(obs[c].items.id_at(p)));
        let h = choose|h: int| 0 <= h < ids.len() && ids[h] == id;
        assert(order.contains(h as usize));
        let r = choose|r: int| 0 <= r < order.len() && order[r] == h as usize;
        assert(ranking[r].0 == id);
    }
    assert forall|r: int, s: int|
        #![trigger ranking[r], ranking[s]]
        0 <= r < s < ranking.len() implies ranking[r].0 != ranking[s].0 by {
        assert(sorts_before(keys, order[r] as int, order[s] as int));
        assert(order[r] != order[s]);
    }
}

/// The ranking is sorted: no item has a larger score than one before it.
pub proof fn lemma_ranking_is_sorted<Id>(
    obs: Seq<ChannelInput<Id>>,
    weights: Map<Seq<char>, Double>,
    eta: Double,
    r: int,
    s: int,
)
    requires
        surfaced(obs).len() <= usize::MAX,
        0 <= r < s < fused_ranking(obs, weights, eta).len(),
    ensures
        !flt(fused_ranking(obs, weights, eta)[r].1, fused_ranking(obs, weights, eta)[s].1),
{
    let scores = fused_scores(obs, weights, eta);
    let keys = descending_keys(scores);
    let order = order_of(keys);
    lemma_order_sorts(keys);
    assert(sorts_before(keys, order[r] as int, order[s] as int));
    let x = scores[order[r] as int];
    let y = scores[order[s] as int];
    if !x.nan() && !y.nan() {
        lemma_descending_key(x, y);
        lemma_descending_key(y, x);
    }
}

proof fn lemma_same_weights_score<Id>(
    obs: Seq<ChannelInput<Id>>,
    v: Map<Seq<char>, Double>,
    w: Map<Seq<char>, Double>,
    eta: Double,
    id: Id,
    n: int,
)
    requires
        0 <= n <= obs.len(),
        forall|i: int|
            0 <= i < obs.len() ==> weight_for(v, (#[trigger] obs[i]).key@) == weight_for(
                w,
                obs[i].key@,
            ),
    ensures
        fused_score(obs, v, eta, id, n) == fused_score(obs, w, eta, id, n),
    decreases n,
{
    if n > 0 {
        lemma_same_weights_score(obs, v, w, eta, id, n - 1);
        assert(weight_for(v, obs[n - 1].key@) == weight_for(w, obs[n - 1].key@));
    }
}

/// Weights that are all one fuse as if there were none: plain reciprocal-rank fusion.
pub proof fn lemma_neutral_weights_are_plain<Id>(
    obs: Seq<ChannelInput<Id>>,
    weights: Map<Seq<char>, Double>,
    eta: Double,
)
    requires
        forall|k: Seq<char>| #[trigger] weights.contains_key(k) ==> weights[k] == fone(),
    ensures
        fused_ranking(obs, weights, eta) == fused_ranking(obs, Map::empty(), eta),
{
    assert forall|k: int| 0 <= k < surfaced(obs).len() implies #[trigger] fused_scores(
        obs,
        weights,
        eta,
    )[k] == fused_scores(obs, Map::empty(), eta)[k] by {
        lemma_same_weights_score(
            obs,
            weights,
            Map::empty(),
            eta,
            surfaced(obs)[k],
            obs.len() as int,
        );
    }
    assert(fused_scores(obs, weights, eta) =~= fused_scores(obs, Map::empty(), eta));
}

/// The rank of an item is at least one.
pub proof fn lemma_rank_positive<Id>(items: Items<Id>, p: int)
    requires
        0 <= p < items.size(),
        items.size() <= usize::MAX,
    ensures
        rank_at(items, p).finite() || rank_at(items, p).infinite(),
        !rank_at(items, p).negative(),
        rank_at(items, p).unsigned() >= fone().unsigned(),
{
    lemma_one();
    match items {
        Items::Ranks(v) => {
            crate::double::lemma_count_finite(p + 1);
        },
        Items::Scored(v) => {
            let keys = descending_keys(pool_scores(v@));
            lemma_counts_bounded(keys, p);
            let k = 2 * count_below(keys, p) + count_alike(keys, p) - 1;
            crate::double::lemma_count_finite(k);
            crate::double::lemma_count_finite(2);
            let half = fdiv(fcount(k), fcount(2));
            lemma_unsigned_results(fcount(k), fcount(2));
            assert(!half.nan()) by {
                lemma_quotient_known(fcount(k), fcount(2));
            }
            lemma_positive_sum(half, fone());
        },
    }
}

proof fn lemma_counts_bounded(keys: Seq<u64>, i: int)
    requires
        0 <= i < keys.len(),
    ensures
        count_below(keys, i) <= keys.len(),
        1 <= count_alike(keys, i) <= keys.len(),
{
    let n = keys.len() as int;
    vstd::set_lib::lemma_int_range(0, n);
    let all = vstd::set_lib::set_int_range(0, n);
    let x = Set::new(|j: int| 0 <= j < keys.len() && keys[j] < keys[i]);
    let y = Set::new(|j: int| 0 <= j < keys.len() && keys[j] == keys[i]);
    assert(x.subset_of(all) && y.subset_of(all));
    vstd::set_lib::lemma_set_subset_finite(all, x);
    vstd::set_lib::lemma_set_subset_finite(all, y);
    vstd::set_lib::lemma_len_subset(x, all);
    vstd::set_lib::lemma_len_subset(y, all);
    assert(y.contains(i));
    if y.len() == 0 {
        assert(y.is_empty());
    }
}

/// A quotient of finite numbers is a number unless both are zero.
pub proof fn lemma_quotient_known(x: Double, y: Double)
    requires
        x.finite(),
        y.finite(),
        !y.vanishes(),
    ensures
        !fdiv(x, y).nan(),
{
    reveal(fdiv);
    lemma_magnitude_sign(x.unsigned());
    lemma_magnitude_sign(y.unsigned());
    vstd::arithmetic::power2::lemma_pow2_pos(UNIT_EXPONENT as nat);
    let num = crate::rounding::magnitude(x.unsigned()) * unit();
    assert(num >= 0) by (nonlinear_arith)
        requires
            num == crate::rounding::magnitude(x.unsigned()) * unit(),
            crate::rounding::magnitude(x.unsigned()) >= 0,
            unit() > 0,
    ;
    lemma_round_range(num, crate::rounding::magnitude(y.unsigned()));
}

/// A channel with weight zero adds nothing to any score.
pub proof fn lemma_zero_weight_is_mute<Id>(
    items: Items<Id>,
    id: Id,
    eta: Double,
    start: Double,
    n: int,
)
    requires
        0 <= n <= items.size(),
        items.size() <= usize::MAX,
        !start.nan(),
        !start.negative(),
        eta.finite(),
        fle(fzero(), eta),
    ensures
        gathered(items, id, fzero(), eta, start, n) == start,
    decreases n,
{
    if n > 0 {
        lemma_zero_weight_is_mute(items, id, eta, start, n - 1);
        lemma_walk_in_range(items, n - 1);
        let p = walk(items)[n - 1] as int;
        lemma_rank_positive(items, p);
        lemma_one();
        let rank = rank_at(items, p);
        let y = fadd(eta, rank);
        if rank.finite() {
            lemma_positive_sum(eta, rank);
        } else {
            reveal(fadd);
        }
        lemma_zero_div(y);
        lemma_plus_zero(start);
    }
}

proof fn lemma_walk_in_range<Id>(items: Items<Id>, t: int)
    requires
        0 <= t < items.size(),
        items.size() <= usize::MAX,
    ensures
        0 <= walk(items)[t] < items.size(),
{
    match items {
        Items::Ranks(v) => {},
        Items::Scored(v) => {
            let keys = descending_keys(pool_scores(v@));
            lemma_order_sorts(keys);
        },
    }
}

/// Midranks see only the order of a sample: samples that rank alike have the same midranks.
/// A redundancy read from ranks is therefore the same under any monotone rescaling.
pub proof fn lemma_midranks_see_order_only(a: Seq<Double>, b: Seq<Double>)
    requires
        compares_alike(a, b),
    ensures
        midranks_of(a) == midranks_of(b),
{
    assert forall|i: int| 0 <= i < a.len() implies #[trigger] value_midrank(a, i) == value_midrank(
        b,
        i,
    ) by {
        assert(Set::new(|j: int| 0 <= j < a.len() && flt(a[j], a[i])) =~= Set::new(
            |j: int| 0 <= j < b.len() && flt(b[j], b[i]),
        ));
        assert(Set::new(|j: int| 0 <= j < a.len() && feq(a[j], a[i])) =~= Set::new(
            |j: int| 0 <= j < b.len() && feq(b[j], b[i]),
        ));
    }
    assert(midranks_of(a) =~= midranks_of(b));
}

} // verus!
