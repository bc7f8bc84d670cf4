//! Merging states in another order or grouping.
use crate::closeness::{close, lemma_close_chain, lemma_close_more, lemma_sum_close};
use crate::double::{fcount, fzero, unit, Double};
use crate::keys::STAT_VERSION;
use crate::laws::merging::{
    directions_agree, lemma_gate_is_pairwise, lemma_merge_unites_channels, lemma_merge_unites_pairs,
    tags_agree,
};
use crate::laws::moments::{
    average, few, lemma_pooled_stands_for, lemma_stands_for_more, mean_error, most, no_moments,
    scatter, scatter_error, spread_error, stands_for, together, within, workable, Moments,
};
use crate::pooling::united;
use crate::precision::{
    exact, lemma_exact_count, lemma_exact_order, lemma_least, lemma_small_errors, limit, size, ulp,
};
use crate::state::{
    mergeable, merges_to, same_contents, united_channels, united_directions, united_pairs,
    RuffleState, FORMAT_VERSION,
};
use crate::summary::{pooled, MeanVar};
use vstd::prelude::*;

verus! {

/// The moments that a summary states.
pub open spec fn own_moments(s: MeanVar) -> Moments {
    let n = exact(s.count);
    let m = exact(s.mean);
    Moments { count: n, sum: m * n, squares: exact(s.m2) + m * (m * n) }
}

/// A summary of observations of size at most `bound`, whatever they count.
pub open spec fn fit(s: MeanVar, bound: real) -> bool {
    &&& s.count.finite()
    &&& s.mean.finite()
    &&& s.m2.finite()
    &&& within(own_moments(s), bound)
}

/// A summary that backs nothing, or observations of size at most `bound`.
pub open spec fn sound(s: MeanVar, bound: real) -> bool {
    s.backs_nothing() || fit(s, bound)
}

/// The whole part of a count.
pub open spec fn whole_count(s: MeanVar) -> int {
    s.count.value() / unit()
}

/// Every summary that backs something has a whole count.
pub open spec fn all_whole<T>(list: Seq<T>, get: spec_fn(T) -> Option<MeanVar>) -> bool {
    forall|i: int|
        0 <= i < list.len() && get(#[trigger] list[i]) is Some && !get(list[i])->0.backs_nothing()
            ==> get(list[i])->0.count == fcount(whole_count(get(list[i])->0))
            && whole_count(get(list[i])->0) >= 0
}

/// Moments with those of one more part.
pub open spec fn with_part(q: Moments, s: Option<MeanVar>) -> Moments {
    if s is Some && !s->0.backs_nothing() {
        together(q, own_moments(s->0))
    } else {
        q
    }
}

/// The moments of the first `n` parts.
pub open spec fn total<T>(list: Seq<T>, get: spec_fn(T) -> Option<MeanVar>, n: int) -> Moments
    decreases n,
{
    if n <= 0 {
        no_moments()
    } else {
        with_part(total(list, get, n - 1), get(list[n - 1]))
    }
}

/// The first `n` parts, those that have a summary pooled one after another.
pub open spec fn pooled_parts<T>(
    list: Seq<T>,
    get: spec_fn(T) -> Option<MeanVar>,
    n: int,
) -> Option<MeanVar>
    decreases n,
{
    if n <= 0 {
        None
    } else {
        match (pooled_parts(list, get, n - 1), get(list[n - 1])) {
            (Some(a), Some(b)) => Some(pooled(a, b)),
            (Some(a), None) => Some(a),
            (None, b) => b,
        }
    }
}

/// Every part that has a summary has a sound one.
pub open spec fn all_sound<T>(
    list: Seq<T>,
    get: spec_fn(T) -> Option<MeanVar>,
    bound: real,
) -> bool {
    forall|i: int| 0 <= i < list.len() && get(#[trigger] list[i]) is Some ==> sound(
        get(list[i])->0,
        bound,
    )
}

/// Two summaries of the same observations, pooled from `k` parts in whatever order: both back
/// nothing, or count, mean, squared deviation and variance are as near as rounding allows.
pub open spec fn alike(a: MeanVar, b: MeanVar, q: Moments, k: int, bound: real) -> bool {
    if q.count == (0 as real) {
        a.backs_nothing() && b.backs_nothing()
    } else {
        &&& size(exact(a.count) - exact(b.count)) <= ((4 * k) as real) * (ulp() * q.count)
        &&& size(exact(a.mean) - exact(b.mean)) <= (2 as real) * mean_error(k, bound)
        &&& size(exact(a.m2) - exact(b.m2)) <= (2 as real) * scatter_error(k, q.count, bound)
        &&& size(exact(a.spread()) - exact(b.spread())) <= (2 as real) * spread_error(k, bound)
    }
}

/// Summaries that stand for the same observations are alike.
pub proof fn lemma_alike(a: MeanVar, b: MeanVar, q: Moments, k: int, bound: real)
    requires
        workable(bound),
        few(k),
        stands_for(a, q, k, bound),
        stands_for(b, q, k, bound),
    ensures
        alike(a, b, q, k, bound),
{
    lemma_least();
    crate::laws::moments::lemma_spread_near(a, q, k, bound);
    crate::laws::moments::lemma_spread_near(b, q, k, bound);
    let x = (2 * k) as real;
    let e = ulp();
    crate::reals::lemma_associate(x, e, q.count);
    crate::reals::lemma_associate((4 * k) as real, e, q.count);
    crate::reals::lemma_associate(2 as real, x, e * q.count);
    assert((4 * k) as real == (2 as real) * x);
}

/// A sound summary that backs something stands for its own moments.
pub proof fn lemma_own_moments(s: MeanVar, bound: real)
    requires
        fit(s, bound),
        (1 as real) <= bound,
    ensures
        stands_for(s, own_moments(s), 1, bound),
        !s.backs_nothing(),
        own_moments(s).count > (0 as real),
{
    lemma_least();
    lemma_small_errors();
    let q = own_moments(s);
    let n = q.count;
    let m = exact(s.mean);
    lemma_exact_order(s.count, fzero());
    crate::reals::lemma_quotient_back(q.sum, n);
    crate::reals::lemma_cancel(average(q), m, n);
    crate::reals::lemma_square_share(m, q.sum, n);
    crate::laws::moments::lemma_errors_grow(1, 1, n, bound);
    let two = 2 as real;
    crate::reals::lemma_positive_product(two, ulp());
    crate::reals::lemma_positive_product(two * ulp(), n);
}

pub proof fn lemma_pooled_parts<T>(
    list: Seq<T>,
    get: spec_fn(T) -> Option<MeanVar>,
    n: int,
    bound: real,
)
    requires
        workable(bound),
        all_sound(list, get, bound),
        0 <= n <= list.len(),
        n > 0 ==> few(n),
        total(list, get, n).count <= most(),
    ensures
        ({
            let q = total(list, get, n);
            let r = pooled_parts(list, get, n);
            &&& (0 as real) <= q.count
            &&& q.count == (0 as real) ==> q == no_moments() && (r is Some
                ==> r->0.backs_nothing())
            &&& q.count > (0 as real) ==> n > 0 && r is Some && stands_for(r->0, q, n, bound)
        }),
    decreases n,
{
    if n > 0 {
        let x = get(list[n - 1]);
        assert(list[n - 1] == list[n - 1]);
        if x is Some && !x->0.backs_nothing() {
            lemma_own_moments(x->0, bound);
        }
        lemma_pooled_parts(list, get, n - 1, bound);
        let q = total(list, get, n - 1);
        let r = pooled_parts(list, get, n - 1);
        if q.count > (0 as real) {
            lemma_stands_for_more(r->0, q, n - 1, n, bound);
        }
        match (r, x) {
            (Some(a), Some(b)) => {
                if q.count == (0 as real) {
                    if b.backs_nothing() {
                        crate::laws::moments::lemma_noughts(a.count, b.count);
                    } else {
                        lemma_blank_left(a, b, own_moments(b), 1, bound);
                        lemma_stands_for_more(b, own_moments(b), 1, n, bound);
                        assert(together(no_moments(), own_moments(b)) == own_moments(b));
                    }
                } else if b.backs_nothing() {
                    lemma_blank_right(a, b, q, n - 1, bound);
                } else {
                    lemma_pooled_stands_for(a, b, q, own_moments(b), n - 1, 1, bound);
                }
            },
            (Some(a), None) => {},
            (None, b) => {
                if b is Some && !b->0.backs_nothing() {
                    lemma_stands_for_more(b->0, own_moments(b->0), 1, n, bound);
                    assert(together(no_moments(), own_moments(b->0)) == own_moments(b->0));
                }
            },
        }
    }
}

/// Whole counts add up exactly.
pub proof fn lemma_whole_parts<T>(
    list: Seq<T>,
    get: spec_fn(T) -> Option<MeanVar>,
    n: int,
    bound: real,
) -> (m: int)
    requires
        workable(bound),
        all_sound(list, get, bound),
        all_whole(list, get),
        0 <= n <= list.len(),
        n > 0 ==> few(n),
        total(list, get, n).count <= most(),
    ensures
        0 <= m <= 0x20_0000_0000_0000,
        total(list, get, n).count == m as real,
        m > 0 ==> pooled_parts(list, get, n) is Some && pooled_parts(list, get, n)->0.count
            == fcount(m),
    decreases n,
{
    if n <= 0 {
        0
    } else {
        let x = get(list[n - 1]);
        assert(list[n - 1] == list[n - 1]);
        lemma_pooled_parts(list, get, n, bound);
        let q = total(list, get, n - 1);
        let r = pooled_parts(list, get, n - 1);
        if x is Some && !x->0.backs_nothing() {
            let b = x->0;
            lemma_own_moments(b, bound);
            lemma_pooled_parts(list, get, n - 1, bound);
            let m = lemma_whole_parts(list, get, n - 1, bound);
            let k = whole_count(b);
            lemma_whole_value(b.count, k);
            lemma_exact_count(k);
            lemma_exact_count(m);
            if r is Some {
                if m == 0 {
                    lemma_blank_left(r->0, b, own_moments(b), 1, bound);
                } else {
                    crate::laws::moments::lemma_counts_add(m, k);
                    lemma_exact_count(m + k);
                    lemma_exact_order(fcount(m), fzero());
                    lemma_exact_order(fcount(k), fzero());
                    lemma_exact_order(fcount(m + k), fzero());
                }
            }
            m + k
        } else {
            let m = lemma_whole_parts(list, get, n - 1, bound);
            lemma_pooled_parts(list, get, n - 1, bound);
            if m > 0 && x is Some {
                lemma_blank_right(r->0, x->0, q, n - 1, bound);
            }
            m
        }
    }
}

/// A whole count that is no larger than counts go is the number that it stands for.
proof fn lemma_whole_value(c: Double, k: int)
    requires
        c.finite(),
        c == fcount(k),
        k >= 0,
        k == c.value() / unit(),
        exact(c) <= most(),
    ensures
        exact(c) == k as real,
        k <= 0x20_0000_0000_0000,
{
    let u = unit();
    vstd::arithmetic::power2::lemma_pow2_pos(crate::double::UNIT_EXPONENT as nat);
    vstd::arithmetic::div_mod::lemma_fundamental_div_mod(c.value(), u);
    let ur = u as real;
    let kr = k as real;
    crate::reals::lemma_quotient_back(c.value() as real, ur);
    assert(u * k == k * u) by (nonlinear_arith);
    assert((k * u) as real == kr * ur) by (nonlinear_arith)
        requires
            kr == k as real,
            ur == u as real,
    ;
    crate::reals::lemma_cancel_order(kr, exact(c), ur);
    lemma_exact_count(k);
}

/// A summary that backs nothing, pooled with one that stands for observations, leaves it.
pub proof fn lemma_blank_left(a: MeanVar, b: MeanVar, q: Moments, k: int, bound: real)
    requires
        a.backs_nothing(),
        stands_for(b, q, k, bound),
        few(k),
        workable(bound),
    ensures
        pooled(a, b) == b,
{
    lemma_stands_above_nought(b, q, k, bound);
    crate::laws::moments::lemma_nought_added(a.count, b.count);
}

/// A summary that stands for observations counts.
proof fn lemma_stands_above_nought(s: MeanVar, q: Moments, k: int, bound: real)
    requires
        stands_for(s, q, k, bound),
        few(k),
        workable(bound),
    ensures
        (0 as real) < exact(s.count) <= limit(),
        !s.backs_nothing(),
{
    lemma_least();
    lemma_small_errors();
    crate::closeness::lemma_close_half(exact(s.count), q.count, (2 * k) as real);
    lemma_exact_order(s.count, fzero());
}

/// A summary that stands for observations, pooled with one that backs nothing, stays.
pub proof fn lemma_blank_right(a: MeanVar, b: MeanVar, q: Moments, k: int, bound: real)
    requires
        b.backs_nothing(),
        stands_for(a, q, k, bound),
        few(k),
        workable(bound),
    ensures
        pooled(a, b) == a,
{
    lemma_stands_above_nought(a, q, k, bound);
    crate::laws::moments::lemma_nought_added(b.count, a.count);
}

/// One step of summing moments, as a function.
pub open spec fn adding<T>(get: spec_fn(T) -> Option<MeanVar>) -> spec_fn(Moments, T) -> Moments {
    |q: Moments, x: T| with_part(q, get(x))
}

proof fn lemma_total_folds<T>(list: Seq<T>, get: spec_fn(T) -> Option<MeanVar>, n: int)
    requires
        0 <= n <= list.len(),
    ensures
        total(list, get, n) == list.take(n).fold_left(no_moments(), adding(get)),
    decreases n,
{
    let s = list.take(n);
    if n > 0 {
        lemma_total_folds(list, get, n - 1);
        assert(s.drop_last() =~= list.take(n - 1));
        assert(s.last() == list[n - 1]);
    }
}

/// The moments of all parts do not depend on their order.
proof fn lemma_total_reordered<T>(
    list: Seq<T>,
    other: Seq<T>,
    get: spec_fn(T) -> Option<MeanVar>,
)
    requires
        list.to_multiset() == other.to_multiset(),
    ensures
        total(list, get, list.len() as int) == total(other, get, other.len() as int),
{
    lemma_total_folds(list, get, list.len() as int);
    lemma_total_folds(other, get, other.len() as int);
    assert(list.take(list.len() as int) =~= list);
    assert(other.take(other.len() as int) =~= other);
    let f = adding(get);
    assert(vstd::seq_lib::commutative_foldl(f)) by {
        assert forall|x: T, y: T, v: Moments| #[trigger] f(f(v, x), y) == f(f(v, y), x) by {
            let a = with_part(with_part(v, get(x)), get(y));
            let b = with_part(with_part(v, get(y)), get(x));
            assert(a.count == b.count && a.sum == b.sum && a.squares == b.squares);
        }
    }
    vstd::seq_lib::lemma_fold_left_permutation(list, other, f, no_moments());
}

/// Pooling the same parts in another order gives alike summaries, and the same whole count.
pub proof fn lemma_pooling_reordered<T>(
    list: Seq<T>,
    other: Seq<T>,
    get: spec_fn(T) -> Option<MeanVar>,
    bound: real,
)
    requires
        list.to_multiset() == other.to_multiset(),
        workable(bound),
        all_sound(list, get, bound),
        few(list.len() as int),
        total(list, get, list.len() as int).count <= most(),
    ensures
        ({
            let n = list.len() as int;
            let a = pooled_parts(list, get, n);
            let b = pooled_parts(other, get, other.len() as int);
            let q = total(list, get, n);
            &&& a is Some && b is Some ==> alike(a->0, b->0, q, n, bound)
            &&& a is Some && b is Some && all_whole(list, get) && q.count > (0 as real)
                ==> a->0.count == b->0.count
        }),
{
    let n = list.len() as int;
    lemma_same_members(list, other);
    assert forall|i: int| 0 <= i < other.len() implies exists|j: int|
        0 <= j < list.len() && list[j] == #[trigger] other[i] by {
        assert(other.contains(other[i]));
        assert(list.contains(other[i]));
    }
    assert(all_sound(other, get, bound)) by {
        assert forall|i: int|
            0 <= i < other.len() && get(#[trigger] other[i]) is Some implies sound(
            get(other[i])->0,
            bound,
        ) by {
            let j = choose|j: int| 0 <= j < list.len() && list[j] == other[i];
            assert(list[j] == other[i]);
        }
    }
    lemma_total_reordered(list, other, get);
    lemma_pooled_parts(list, get, n, bound);
    lemma_pooled_parts(other, get, n, bound);
    let q = total(list, get, n);
    let a = pooled_parts(list, get, n);
    let b = pooled_parts(other, get, n);
    if q.count > (0 as real) {
        lemma_alike(a->0, b->0, q, n, bound);
        if all_whole(list, get) {
            assert(all_whole(other, get)) by {
                assert forall|i: int|
                    0 <= i < other.len() && get(#[trigger] other[i]) is Some
                        && !get(other[i])->0.backs_nothing() implies get(other[i])->0.count
                    == fcount(whole_count(get(other[i])->0)) && whole_count(get(other[i])->0)
                    >= 0 by {
                    let j = choose|j: int| 0 <= j < list.len() && list[j] == other[i];
                    assert(list[j] == other[i]);
                }
            }
            let x = lemma_whole_parts(list, get, n, bound);
            let y = lemma_whole_parts(other, get, n, bound);
            assert(x == y);
        }
    }
}

/// Reordered lists have the same members and the same length.
proof fn lemma_same_members<T>(list: Seq<T>, other: Seq<T>)
    requires
        list.to_multiset() == other.to_multiset(),
    ensures
        list.len() == other.len(),
        forall|x: T| #[trigger] list.contains(x) <==> other.contains(x),
{
    vstd::seq_lib::to_multiset_len(list);
    vstd::seq_lib::to_multiset_len(other);
    assert forall|x: T| #[trigger] list.contains(x) <==> other.contains(x) by {
        vstd::seq_lib::to_multiset_contains(list, x);
        vstd::seq_lib::to_multiset_contains(other, x);
    }
}

/// The separation baseline that a state keeps for a channel.
pub open spec fn separation_of_channel(key: Seq<char>) -> spec_fn(RuffleState) -> Option<MeanVar> {
    |s: RuffleState|
        if s.channel_table()@.contains_key(key) {
            Some(s.channel_table()@[key].separation)
        } else {
            None
        }
}

/// The reference that a state keeps for a channel.
pub open spec fn reference_of_channel(key: Seq<char>) -> spec_fn(RuffleState) -> Option<MeanVar> {
    |s: RuffleState|
        if s.channel_table()@.contains_key(key) {
            Some(s.channel_table()@[key].reference)
        } else {
            None
        }
}

/// The redundancy that a state keeps for a pair.
pub open spec fn redundancy_of_pair(pair: (Seq<char>, Seq<char>)) -> spec_fn(
    RuffleState,
) -> Option<MeanVar> {
    |s: RuffleState|
        if s.pair_table()@.contains_key(pair) {
            Some(s.pair_table()@[pair].redundancy)
        } else {
            None
        }
}

/// What merging pools for a channel.
pub proof fn lemma_channel_pooled(parts: Seq<RuffleState>, n: int, key: Seq<char>)
    requires
        0 <= n <= parts.len(),
    ensures
        ({
            let a = pooled_parts(parts, separation_of_channel(key), n);
            let b = pooled_parts(parts, reference_of_channel(key), n);
            let m = united_channels(parts, n);
            &&& m.contains_key(key) <==> a is Some
            &&& m.contains_key(key) <==> b is Some
            &&& m.contains_key(key) ==> m[key].separation == a->0 && m[key].reference == b->0
        }),
    decreases n,
{
    if n > 0 {
        lemma_channel_pooled(parts, n - 1, key);
    }
}

/// What merging pools for a pair.
pub proof fn lemma_pair_pooled(parts: Seq<RuffleState>, n: int, pair: (Seq<char>, Seq<char>))
    requires
        0 <= n <= parts.len(),
    ensures
        ({
            let a = pooled_parts(parts, redundancy_of_pair(pair), n);
            let m = united_pairs(parts, n);
            &&& m.contains_key(pair) <==> a is Some
            &&& m.contains_key(pair) ==> m[pair].redundancy == a->0
        }),
    decreases n,
{
    if n > 0 {
        lemma_pair_pooled(parts, n - 1, pair);
    }
}

/// A merged channel has the tag of one of the states that carry it.
proof fn lemma_tag_source(parts: Seq<RuffleState>, n: int, key: Seq<char>) -> (i: int)
    requires
        0 <= n <= parts.len(),
        united_channels(parts, n).contains_key(key),
    ensures
        0 <= i < n,
        parts[i].channel_table()@.contains_key(key),
        united_channels(parts, n)[key].tag == parts[i].channel_table()@[key].tag,
    decreases n,
{
    if united_channels(parts, n - 1).contains_key(key) {
        lemma_tag_source(parts, n - 1, key)
    } else {
        n - 1
    }
}

/// A merged orientation is that of one of the states that record it.
proof fn lemma_direction_source(parts: Seq<RuffleState>, n: int, key: Seq<char>) -> (i: int)
    requires
        0 <= n <= parts.len(),
        united_directions(parts, n).contains_key(key),
    ensures
        0 <= i < n,
        parts[i].stats().directions@.contains_key(key),
        united_directions(parts, n)[key] == parts[i].stats().directions@[key],
    decreases n,
{
    if united_directions(parts, n - 1).contains_key(key) {
        lemma_direction_source(parts, n - 1, key)
    } else {
        n - 1
    }
}

proof fn lemma_direction_kept(parts: Seq<RuffleState>, n: int, i: int, key: Seq<char>)
    requires
        0 <= i < n <= parts.len(),
        parts[i].stats().directions@.contains_key(key),
    ensures
        united_directions(parts, n).contains_key(key),
    decreases n,
{
    if i < n - 1 {
        lemma_direction_kept(parts, n - 1, i, key);
    }
}

/// The refreshes that a state counts for a pair.
pub open spec fn refreshes_of_pair(s: RuffleState, pair: (Seq<char>, Seq<char>)) -> int {
    if s.pair_table()@.contains_key(pair) {
        s.pair_table()@[pair].refreshes.value() / unit()
    } else {
        0
    }
}

/// The refreshes of a pair are a whole number.
pub open spec fn whole_refreshes(s: RuffleState, pair: (Seq<char>, Seq<char>)) -> bool {
    s.pair_table()@.contains_key(pair) ==> refreshes_of_pair(s, pair) >= 0
        && s.pair_table()@[pair].refreshes == fcount(refreshes_of_pair(s, pair))
}

/// The refreshes of a pair in all states.
pub open spec fn all_refreshes(parts: Seq<RuffleState>, pair: (Seq<char>, Seq<char>)) -> int {
    parts.fold_left(0int, |r: int, s: RuffleState| r + refreshes_of_pair(s, pair))
}

pub proof fn lemma_refreshes_add(parts: Seq<RuffleState>, n: int, pair: (Seq<char>, Seq<char>))
    requires
        0 <= n <= parts.len(),
        forall|i: int| 0 <= i < parts.len() ==> whole_refreshes(#[trigger] parts[i], pair),
        all_refreshes(parts.take(n), pair) <= 0x20_0000_0000_0000,
    ensures
        0 <= all_refreshes(parts.take(n), pair),
        !united_pairs(parts, n).contains_key(pair) ==> all_refreshes(parts.take(n), pair) == 0,
        united_pairs(parts, n).contains_key(pair) ==> united_pairs(parts, n)[pair].refreshes
            == fcount(all_refreshes(parts.take(n), pair)),
    decreases n,
{
    let s = parts.take(n);
    if n > 0 {
        assert(s.drop_last() =~= parts.take(n - 1));
        assert(s.last() == parts[n - 1]);
        assert(whole_refreshes(parts[n - 1], pair));
        lemma_refreshes_add(parts, n - 1, pair);
        let before = all_refreshes(parts.take(n - 1), pair);
        let more = refreshes_of_pair(parts[n - 1], pair);
        assert(all_refreshes(s, pair) == before + more);
        if united_pairs(parts, n - 1).contains_key(pair)
            && parts[n - 1].pair_table()@.contains_key(pair) {
            crate::laws::moments::lemma_counts_add(before, more);
        }
    }
}

/// The states can be merged in any order: the result has the same channels, pairs and
/// orientations, and the same tags.
pub proof fn lemma_merge_reordered(
    parts: Seq<RuffleState>,
    other: Seq<RuffleState>,
    merged: RuffleState,
)
    requires
        parts.to_multiset() == other.to_multiset(),
        forall|i: int| 0 <= i < parts.len() ==> (#[trigger] parts[i]).wf(),
        mergeable(parts),
        merges_to(parts, merged),
    ensures
        mergeable(other),
        forall|again: RuffleState| #[trigger]
            merges_to(other, again) ==> {
                &&& again.version() == merged.version()
                &&& again.stats().stat_version == merged.stats().stat_version
                &&& again.stats().baseline_mode == merged.stats().baseline_mode
                &&& again.stats().directions@ == merged.stats().directions@
                &&& again.channel_table()@.dom() == merged.channel_table()@.dom()
                &&& again.pair_table()@.dom() == merged.pair_table()@.dom()
                &&& forall|key: Seq<char>| #[trigger]
                    merged.channel_table()@.contains_key(key) ==> again.channel_table()@[key].tag@
                        == merged.channel_table()@[key].tag@
            },
{
    lemma_same_members(parts, other);
    lemma_gate_is_pairwise(parts);
    assert forall|i: int| 0 <= i < other.len() implies (#[trigger] other[i]).wf() by {
        assert(other.contains(other[i]));
        assert(parts.contains(other[i]));
    }
    lemma_gate_is_pairwise(other);
    assert(mergeable(other)) by {
        assert forall|i: int| 0 <= i < other.len() implies (#[trigger] other[i]).version()
            == FORMAT_VERSION && other[i].stats().stat_version == STAT_VERSION
            && other[i].stats().baseline_mode == other[0].stats().baseline_mode by {
            assert(other.contains(other[i]));
            assert(parts.contains(other[i]));
            assert(other.contains(other[0]));
            assert(parts.contains(other[0]));
        }
        assert forall|i: int, j: int|
            #![trigger other[i], other[j]]
            0 <= i < other.len() && 0 <= j < other.len() implies tags_agree(other[i], other[j])
            && directions_agree(other[i], other[j]) by {
            assert(other.contains(other[i]));
            assert(parts.contains(other[i]));
            assert(other.contains(other[j]));
            assert(parts.contains(other[j]));
            let a = choose|a: int| 0 <= a < parts.len() && parts[a] == other[i];
            let b = choose|b: int| 0 <= b < parts.len() && parts[b] == other[j];
            assert(tags_agree(parts[a], parts[b]));
        }
    }
    let n = parts.len() as int;
    assert forall|again: RuffleState| #[trigger] merges_to(other, again) implies {
        &&& again.version() == merged.version()
        &&& again.stats().stat_version == merged.stats().stat_version
        &&& again.stats().baseline_mode == merged.stats().baseline_mode
        &&& again.stats().directions@ == merged.stats().directions@
        &&& again.channel_table()@.dom() == merged.channel_table()@.dom()
        &&& again.pair_table()@.dom() == merged.pair_table()@.dom()
        &&& forall|key: Seq<char>| #[trigger]
            merged.channel_table()@.contains_key(key) ==> again.channel_table()@[key].tag@
                == merged.channel_table()@[key].tag@
    } by {
        assert(other.contains(other[0]));
        assert(parts.contains(other[0]));
        lemma_same_keys(parts, other);
        lemma_same_keys(other, parts);
        assert(again.channel_table()@.dom() =~= merged.channel_table()@.dom());
        assert(again.pair_table()@.dom() =~= merged.pair_table()@.dom());
        assert forall|key: Seq<char>| #[trigger]
            merged.channel_table()@.contains_key(key) implies again.channel_table()@[key].tag@
            == merged.channel_table()@[key].tag@ by {
            assert(again.channel_table()@.dom().contains(key));
            let i = lemma_tag_source(parts, n, key);
            let j = lemma_tag_source(other, n, key);
            assert(other.contains(other[j]));
            assert(parts.contains(other[j]));
            let a = choose|a: int| 0 <= a < parts.len() && parts[a] == other[j];
            assert(tags_agree(parts[i], parts[a]));
        }
        assert(again.stats().directions@ =~= merged.stats().directions@) by {
            assert forall|key: Seq<char>|
                united_directions(parts, n).contains_key(key) implies #[trigger] united_directions(
                other,
                n,
            )[key] == united_directions(parts, n)[key] by {
                let i = lemma_direction_source(parts, n, key);
                let j = lemma_direction_source(other, n, key);
                assert(other.contains(other[j]));
                assert(parts.contains(other[j]));
                let a = choose|a: int| 0 <= a < parts.len() && parts[a] == other[j];
                assert(directions_agree(parts[i], parts[a]));
            }
        }
    }
}

/// What one order of states unites, another does.
proof fn lemma_same_keys(parts: Seq<RuffleState>, other: Seq<RuffleState>)
    requires
        parts.len() == other.len(),
        forall|x: RuffleState| #[trigger] parts.contains(x) <==> other.contains(x),
    ensures
        ({
            let n = parts.len() as int;
            &&& forall|key: Seq<char>| #[trigger]
                united_channels(parts, n).contains_key(key) ==> united_channels(
                    other,
                    n,
                ).contains_key(key)
            &&& forall|pair: (Seq<char>, Seq<char>)| #[trigger]
                united_pairs(parts, n).contains_key(pair) ==> united_pairs(other, n).contains_key(
                    pair,
                )
            &&& forall|key: Seq<char>| #[trigger]
                united_directions(parts, n).contains_key(key) ==> united_directions(
                    other,
                    n,
                ).contains_key(key)
        }),
{
    let n = parts.len() as int;
    assert forall|key: Seq<char>| #[trigger]
        united_channels(parts, n).contains_key(key) implies united_channels(other, n).contains_key(
        key,
    ) by {
        lemma_merge_unites_channels(parts, n, key);
        lemma_merge_unites_channels(other, n, key);
        let i = choose|i: int|
            0 <= i < n && (#[trigger] parts[i]).channel_table()@.contains_key(key);
        assert(parts.contains(parts[i]));
        assert(other.contains(parts[i]));
        let j = choose|j: int| 0 <= j < other.len() && other[j] == parts[i];
        assert(other[j].channel_table()@.contains_key(key));
    }
    assert forall|pair: (Seq<char>, Seq<char>)| #[trigger]
        united_pairs(parts, n).contains_key(pair) implies united_pairs(other, n).contains_key(
        pair,
    ) by {
        lemma_merge_unites_pairs(parts, n, pair);
        lemma_merge_unites_pairs(other, n, pair);
        let i = choose|i: int| 0 <= i < n && (#[trigger] parts[i]).pair_table()@.contains_key(pair);
        assert(parts.contains(parts[i]));
        assert(other.contains(parts[i]));
        let j = choose|j: int| 0 <= j < other.len() && other[j] == parts[i];
        assert(other[j].pair_table()@.contains_key(pair));
    }
    assert forall|key: Seq<char>| #[trigger]
        united_directions(parts, n).contains_key(key) implies united_directions(
        other,
        n,
    ).contains_key(key) by {
        let i = lemma_direction_source(parts, n, key);
        assert(parts.contains(parts[i]));
        assert(other.contains(parts[i]));
        let j = choose|j: int| 0 <= j < other.len() && other[j] == parts[i];
        lemma_direction_kept(other, n, j, key);
    }
}

/// States merged in another order agree on the numbers of every channel: counts, means and
/// variances differ by no more than rounding once for every state can make them, and counts
/// that are whole not at all.
pub proof fn lemma_merge_reordered_channel(
    parts: Seq<RuffleState>,
    other: Seq<RuffleState>,
    merged: RuffleState,
    again: RuffleState,
    key: Seq<char>,
    bound: real,
)
    requires
        parts.to_multiset() == other.to_multiset(),
        merges_to(parts, merged),
        merges_to(other, again),
        merged.channel_table()@.contains_key(key),
        workable(bound),
        few(parts.len() as int),
        all_sound(parts, separation_of_channel(key), bound),
        all_sound(parts, reference_of_channel(key), bound),
        total(parts, separation_of_channel(key), parts.len() as int).count <= most(),
        total(parts, reference_of_channel(key), parts.len() as int).count <= most(),
    ensures
        again.channel_table()@.contains_key(key),
        alike(
            merged.channel_table()@[key].separation,
            again.channel_table()@[key].separation,
            total(parts, separation_of_channel(key), parts.len() as int),
            parts.len() as int,
            bound,
        ),
        alike(
            merged.channel_table()@[key].reference,
            again.channel_table()@[key].reference,
            total(parts, reference_of_channel(key), parts.len() as int),
            parts.len() as int,
            bound,
        ),
        all_whole(parts, separation_of_channel(key)) && total(
            parts,
            separation_of_channel(key),
            parts.len() as int,
        ).count > (0 as real) ==> again.channel_table()@[key].separation.count
            == merged.channel_table()@[key].separation.count,
        all_whole(parts, reference_of_channel(key)) && total(
            parts,
            reference_of_channel(key),
            parts.len() as int,
        ).count > (0 as real) ==> again.channel_table()@[key].reference.count
            == merged.channel_table()@[key].reference.count,
{
    let n = parts.len() as int;
    lemma_same_members(parts, other);
    lemma_same_keys(parts, other);
    assert(united_channels(parts, n).contains_key(key));
    lemma_channel_pooled(parts, n, key);
    lemma_channel_pooled(other, n, key);
    lemma_pooling_reordered(parts, other, separation_of_channel(key), bound);
    lemma_pooling_reordered(parts, other, reference_of_channel(key), bound);
}

/// States merged in another order agree on the numbers of every pair, as on those of every
/// channel.
pub proof fn lemma_merge_reordered_pair(
    parts: Seq<RuffleState>,
    other: Seq<RuffleState>,
    merged: RuffleState,
    again: RuffleState,
    pair: (Seq<char>, Seq<char>),
    bound: real,
)
    requires
        parts.to_multiset() == other.to_multiset(),
        merges_to(parts, merged),
        merges_to(other, again),
        merged.pair_table()@.contains_key(pair),
        workable(bound),
        few(parts.len() as int),
        all_sound(parts, redundancy_of_pair(pair), bound),
        total(parts, redundancy_of_pair(pair), parts.len() as int).count <= most(),
    ensures
        again.pair_table()@.contains_key(pair),
        alike(
            merged.pair_table()@[pair].redundancy,
            again.pair_table()@[pair].redundancy,
            total(parts, redundancy_of_pair(pair), parts.len() as int),
            parts.len() as int,
            bound,
        ),
        all_whole(parts, redundancy_of_pair(pair)) && total(
            parts,
            redundancy_of_pair(pair),
            parts.len() as int,
        ).count > (0 as real) ==> again.pair_table()@[pair].redundancy.count
            == merged.pair_table()@[pair].redundancy.count,
{
    let n = parts.len() as int;
    lemma_same_members(parts, other);
    lemma_same_keys(parts, other);
    assert(united_pairs(parts, n).contains_key(pair));
    lemma_pair_pooled(parts, n, pair);
    lemma_pair_pooled(other, n, pair);
    lemma_pooling_reordered(parts, other, redundancy_of_pair(pair), bound);
}

/// The refreshes that a state counts for a pair, as a real number.
pub open spec fn exact_refreshes(s: RuffleState, pair: (Seq<char>, Seq<char>)) -> real {
    if s.pair_table()@.contains_key(pair) {
        exact(s.pair_table()@[pair].refreshes)
    } else {
        0 as real
    }
}

/// The refreshes of a pair are finite and not negative.
pub open spec fn sound_refreshes(s: RuffleState, pair: (Seq<char>, Seq<char>)) -> bool {
    s.pair_table()@.contains_key(pair) ==> s.pair_table()@[pair].refreshes.finite()
        && exact_refreshes(s, pair) >= (0 as real)
}

/// The refreshes of a pair in all states, as a real number.
pub open spec fn exact_sum_of_refreshes(
    parts: Seq<RuffleState>,
    pair: (Seq<char>, Seq<char>),
) -> real {
    parts.fold_left(0 as real, |r: real, s: RuffleState| r + exact_refreshes(s, pair))
}

/// Refreshes add up, as near as one rounding for each state allows.
pub proof fn lemma_refreshes_near(parts: Seq<RuffleState>, n: int, pair: (Seq<char>, Seq<char>))
    requires
        0 <= n <= parts.len(),
        n > 0 ==> few(n),
        forall|i: int| 0 <= i < parts.len() ==> sound_refreshes(#[trigger] parts[i], pair),
        (2 as real) * exact_sum_of_refreshes(parts.take(n), pair) <= limit(),
    ensures
        (0 as real) <= exact_sum_of_refreshes(parts.take(n), pair),
        !united_pairs(parts, n).contains_key(pair) ==> exact_sum_of_refreshes(parts.take(n), pair)
            == (0 as real),
        united_pairs(parts, n).contains_key(pair) ==> united_pairs(
            parts,
            n,
        )[pair].refreshes.finite() && close(
            exact(united_pairs(parts, n)[pair].refreshes),
            exact_sum_of_refreshes(parts.take(n), pair),
            (2 * n) as real,
        ),
    decreases n,
{
    lemma_small_errors();
    if n > 0 {
        let s = parts.take(n);
        let last = parts[n - 1];
        assert(s.drop_last() =~= parts.take(n - 1));
        assert(s.last() == last);
        let before = exact_sum_of_refreshes(parts.take(n - 1), pair);
        let more = exact_refreshes(last, pair);
        assert(sound_refreshes(last, pair));
        assert(exact_sum_of_refreshes(s, pair) == before + more);
        assert(more >= (0 as real));
        lemma_refreshes_near(parts, n - 1, pair);
        let m = united_pairs(parts, n - 1);
        let one = 1 as real;
        let two = 2 as real;
        let k = (2 * (n - 1)) as real;
        let u = ulp();
        if m.contains_key(pair) && last.pair_table()@.contains_key(pair) {
            let x = m[pair].refreshes;
            let y = last.pair_table()@[pair].refreshes;
            crate::closeness::lemma_close_half(exact(x), before, k);
            crate::reals::lemma_positive_product(k, u);
            crate::reals::lemma_positive_product(k * u, more);
            crate::closeness::lemma_close_sum(exact(x), before, more, more, k);
            lemma_sum_close(x, y);
            assert(one * k * u <= one);
            lemma_close_chain(
                exact(crate::double::fadd(x, y)),
                exact(x) + more,
                before + more,
                one,
                k,
            );
            assert((2 * n) as real == one + k + one);
        } else if m.contains_key(pair) {
            lemma_close_more(exact(m[pair].refreshes), before, k, (2 * n) as real);
        } else if last.pair_table()@.contains_key(pair) {
            crate::reals::lemma_positive_product((2 * n) as real, u);
            crate::reals::lemma_positive_product((2 * n) as real * u, more);
        }
    }
}

/// States merged in another order agree on the refreshes of every pair: they differ by no more
/// than rounding once for every state can make them, and refreshes that are whole not at all.
pub proof fn lemma_merge_reordered_refreshes(
    parts: Seq<RuffleState>,
    other: Seq<RuffleState>,
    merged: RuffleState,
    again: RuffleState,
    pair: (Seq<char>, Seq<char>),
)
    requires
        parts.to_multiset() == other.to_multiset(),
        merges_to(parts, merged),
        merges_to(other, again),
        merged.pair_table()@.contains_key(pair),
        few(parts.len() as int),
        forall|i: int| 0 <= i < parts.len() ==> sound_refreshes(#[trigger] parts[i], pair),
        (2 as real) * exact_sum_of_refreshes(parts, pair) <= limit(),
    ensures
        again.pair_table()@.contains_key(pair),
        size(
            exact(again.pair_table()@[pair].refreshes) - exact(
                merged.pair_table()@[pair].refreshes,
            ),
        ) <= ((4 * parts.len()) as real) * (ulp() * exact_sum_of_refreshes(parts, pair)),
        (forall|i: int| 0 <= i < parts.len() ==> whole_refreshes(#[trigger] parts[i], pair))
            && all_refreshes(parts, pair) <= 0x20_0000_0000_0000
            ==> merged.pair_table()@[pair].refreshes == fcount(all_refreshes(parts, pair))
            && again.pair_table()@[pair].refreshes == merged.pair_table()@[pair].refreshes,
{
    let n = parts.len() as int;
    lemma_same_members(parts, other);
    lemma_same_keys(parts, other);
    assert(united_pairs(parts, n).contains_key(pair));
    assert(parts.take(n) =~= parts);
    assert(other.take(n) =~= other);
    let f = |r: int, s: RuffleState| r + refreshes_of_pair(s, pair);
    assert(vstd::seq_lib::commutative_foldl(f));
    vstd::seq_lib::lemma_fold_left_permutation(parts, other, f, 0int);
    assert(all_refreshes(parts, pair) == all_refreshes(other, pair));
    let g = |r: real, s: RuffleState| r + exact_refreshes(s, pair);
    assert(vstd::seq_lib::commutative_foldl(g)) by {
        assert forall|x: RuffleState, y: RuffleState, v: real| #[trigger]
            g(g(v, x), y) == g(g(v, y), x) by {}
    }
    vstd::seq_lib::lemma_fold_left_permutation(parts, other, g, 0 as real);
    assert(exact_sum_of_refreshes(parts, pair) == exact_sum_of_refreshes(other, pair));
    assert forall|i: int| 0 <= i < other.len() implies exists|j: int|
        0 <= j < n && parts[j] == #[trigger] other[i] by {
        assert(other.contains(other[i]));
        assert(parts.contains(other[i]));
    }
    assert forall|i: int| 0 <= i < other.len() implies sound_refreshes(#[trigger] other[i], pair) by {
        let j = choose|j: int| 0 <= j < n && parts[j] == other[i];
        assert(sound_refreshes(parts[j], pair));
    }
    lemma_refreshes_near(parts, n, pair);
    lemma_refreshes_near(other, n, pair);
    let t = exact_sum_of_refreshes(parts, pair);
    let x = (2 * n) as real;
    crate::reals::lemma_associate(x, ulp(), t);
    crate::reals::lemma_associate(2 as real, x, ulp() * t);
    assert((4 * n) as real == (2 as real) * x);
    if (forall|i: int| 0 <= i < parts.len() ==> whole_refreshes(#[trigger] parts[i], pair))
        && all_refreshes(parts, pair) <= 0x20_0000_0000_0000 {
        assert forall|i: int| 0 <= i < other.len() implies whole_refreshes(
            #[trigger] other[i],
            pair,
        ) by {
            let j = choose|j: int| 0 <= j < n && parts[j] == other[i];
            assert(whole_refreshes(parts[j], pair));
        }
        lemma_refreshes_add(parts, n, pair);
        lemma_refreshes_add(other, n, pair);
    }
}

/// A merged summary stands for all observations of its parts: their counts add, its mean is
/// that of all, and so is its variance, up to rounding; and it backs nothing where no part
/// does.
pub open spec fn pools_all(s: MeanVar, q: Moments, k: int, bound: real) -> bool {
    if q.count == (0 as real) {
        s.backs_nothing()
    } else {
        &&& stands_for(s, q, k, bound)
        &&& s.spread().finite()
        &&& size(exact(s.spread()) - scatter(q) / q.count) <= spread_error(k, bound)
    }
}

/// Merging pools: for every channel the merged baselines stand for the observations of all
/// states that carry it, none left out and none counted twice.
pub proof fn lemma_merge_pools_every_state(
    parts: Seq<RuffleState>,
    merged: RuffleState,
    key: Seq<char>,
    bound: real,
)
    requires
        merges_to(parts, merged),
        merged.channel_table()@.contains_key(key),
        workable(bound),
        few(parts.len() as int),
        all_sound(parts, separation_of_channel(key), bound),
        all_sound(parts, reference_of_channel(key), bound),
        total(parts, separation_of_channel(key), parts.len() as int).count <= most(),
        total(parts, reference_of_channel(key), parts.len() as int).count <= most(),
    ensures
        pools_all(
            merged.channel_table()@[key].separation,
            total(parts, separation_of_channel(key), parts.len() as int),
            parts.len() as int,
            bound,
        ),
        pools_all(
            merged.channel_table()@[key].reference,
            total(parts, reference_of_channel(key), parts.len() as int),
            parts.len() as int,
            bound,
        ),
{
    let n = parts.len() as int;
    lemma_channel_pooled(parts, n, key);
    lemma_pools_all(parts, separation_of_channel(key), bound);
    lemma_pools_all(parts, reference_of_channel(key), bound);
}

/// Merging pools the redundancies of every pair in the same way, and adds its refreshes.
pub proof fn lemma_merge_pools_every_pair(
    parts: Seq<RuffleState>,
    merged: RuffleState,
    pair: (Seq<char>, Seq<char>),
    bound: real,
)
    requires
        merges_to(parts, merged),
        merged.pair_table()@.contains_key(pair),
        workable(bound),
        few(parts.len() as int),
        all_sound(parts, redundancy_of_pair(pair), bound),
        total(parts, redundancy_of_pair(pair), parts.len() as int).count <= most(),
        forall|i: int| 0 <= i < parts.len() ==> sound_refreshes(#[trigger] parts[i], pair),
        (2 as real) * exact_sum_of_refreshes(parts, pair) <= limit(),
    ensures
        pools_all(
            merged.pair_table()@[pair].redundancy,
            total(parts, redundancy_of_pair(pair), parts.len() as int),
            parts.len() as int,
            bound,
        ),
        merged.pair_table()@[pair].refreshes.finite(),
        close(
            exact(merged.pair_table()@[pair].refreshes),
            exact_sum_of_refreshes(parts, pair),
            (2 * parts.len()) as real,
        ),
{
    let n = parts.len() as int;
    assert(parts.take(n) =~= parts);
    lemma_pair_pooled(parts, n, pair);
    lemma_pools_all(parts, redundancy_of_pair(pair), bound);
    lemma_refreshes_near(parts, n, pair);
}

proof fn lemma_pools_all<T>(list: Seq<T>, get: spec_fn(T) -> Option<MeanVar>, bound: real)
    requires
        workable(bound),
        all_sound(list, get, bound),
        few(list.len() as int),
        total(list, get, list.len() as int).count <= most(),
    ensures
        pooled_parts(list, get, list.len() as int) is Some ==> pools_all(
            pooled_parts(list, get, list.len() as int)->0,
            total(list, get, list.len() as int),
            list.len() as int,
            bound,
        ),
{
    let n = list.len() as int;
    lemma_pooled_parts(list, get, n, bound);
    let q = total(list, get, n);
    if q.count > (0 as real) {
        crate::laws::moments::lemma_spread_near(pooled_parts(list, get, n)->0, q, n, bound);
    }
}

/// What the first states unite does not depend on what follows.
proof fn lemma_united_start(front: Seq<RuffleState>, last: RuffleState, n: int)
    requires
        0 <= n <= front.len(),
    ensures
        united_channels(front.push(last), n) == united_channels(front, n),
        united_pairs(front.push(last), n) == united_pairs(front, n),
        united_directions(front.push(last), n) == united_directions(front, n),
    decreases n,
{
    if n > 0 {
        lemma_united_start(front, last, n - 1);
        assert(front.push(last)[n - 1] == front[n - 1]);
    }
}

/// States can be merged in groups: merging some, and the result with one more, is merging
/// them all, to the last bit.
pub proof fn lemma_merge_grouped(
    front: Seq<RuffleState>,
    last: RuffleState,
    part: RuffleState,
    grouped: RuffleState,
    all: RuffleState,
)
    requires
        front.len() > 0,
        merges_to(front, part),
        merges_to(seq![part, last], grouped),
        merges_to(front.push(last), all),
    ensures
        same_contents(grouped, all),
{
    let n = front.len() as int;
    let two = seq![part, last];
    let parts = front.push(last);
    lemma_united_start(front, last, n);
    assert(parts[n] == last);
    reveal_with_fuel(united_channels, 3);
    reveal_with_fuel(united_pairs, 3);
    reveal_with_fuel(united_directions, 3);
    assert(two[0] == part && two[1] == last);
    assert(united(Map::empty(), part.channel_table()@) =~= part.channel_table()@);
    assert(united(Map::empty(), part.pair_table()@) =~= part.pair_table()@);
    assert(united(Map::empty(), part.stats().directions@) =~= part.stats().directions@);
    assert(united_channels(two, 1) == part.channel_table()@);
    assert(united_channels(two, 2) == united(part.channel_table()@, last.channel_table()@));
    assert(united_pairs(two, 2) == united(part.pair_table()@, last.pair_table()@));
    assert(united_directions(two, 2) == united(
        part.stats().directions@,
        last.stats().directions@,
    ));
    assert(parts[0] == front[0]);
}

} // verus!
