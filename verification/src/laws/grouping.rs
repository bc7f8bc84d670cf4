//! Merging in groups: the results of two merges merged are all of their states merged.
use crate::closeness::{close, lemma_close_chain, lemma_close_more, lemma_sum_close};
use crate::double::{fcount, fzero};
use crate::laws::moments::{
    few, lemma_counts_add, lemma_noughts, lemma_pooled_stands_for, lemma_stands_for_more, most,
    no_moments, stands_for, together, workable,
};
use crate::laws::reordering::{
    alike, all_refreshes, all_sound, all_whole, exact_sum_of_refreshes, fit, lemma_alike,
    lemma_blank_left, lemma_blank_right, lemma_channel_pooled, lemma_own_moments,
    lemma_pair_pooled,
    lemma_pooled_parts, lemma_refreshes_add, lemma_refreshes_near, lemma_whole_parts,
    own_moments, pooled_parts, redundancy_of_pair, reference_of_channel, separation_of_channel,
    sound_refreshes, total, whole_count, whole_refreshes,
};
use crate::pooling::united;
use crate::precision::{
    exact, lemma_exact_count, lemma_exact_order, lemma_least, lemma_small_errors, limit, size, ulp,
};
use crate::state::{merges_to, united_channels, united_directions, united_pairs, RuffleState};
use crate::summary::{pooled, MeanVar};
use vstd::prelude::*;

verus! {

/// The moments of two groups of parts are those of all of them.
proof fn lemma_total_of_groups<T>(
    front: Seq<T>,
    rest: Seq<T>,
    get: spec_fn(T) -> Option<MeanVar>,
    m: int,
)
    requires
        0 <= m <= rest.len(),
    ensures
        total(front + rest, get, front.len() + m) == together(
            total(front, get, front.len() as int),
            total(rest, get, m),
        ),
    decreases m,
{
    let all = front + rest;
    let n = front.len() as int;
    if m > 0 {
        lemma_total_of_groups(front, rest, get, m - 1);
        assert(all[n + m - 1] == rest[m - 1]);
    } else {
        lemma_total_of_front(front, rest, get, n);
        let q = total(front, get, n);
        assert(together(q, no_moments()).sum == q.sum);
        assert(together(q, no_moments()) == q);
    }
}

proof fn lemma_total_of_front<T>(
    front: Seq<T>,
    rest: Seq<T>,
    get: spec_fn(T) -> Option<MeanVar>,
    n: int,
)
    requires
        0 <= n <= front.len(),
    ensures
        total(front + rest, get, n) == total(front, get, n),
    decreases n,
{
    if n > 0 {
        lemma_total_of_front(front, rest, get, n - 1);
        assert((front + rest)[n - 1] == front[n - 1]);
    }
}

/// What two groups pool to, pooled, is alike to what all of their parts pool to, and has the
/// same whole count.
proof fn lemma_pooling_grouped<T>(
    front: Seq<T>,
    rest: Seq<T>,
    get: spec_fn(T) -> Option<MeanVar>,
    bound: real,
)
    requires
        workable(bound),
        front.len() > 0,
        rest.len() > 0,
        all_sound(front, get, bound),
        all_sound(rest, get, bound),
        few((front.len() + rest.len()) as int),
        total(front + rest, get, (front.len() + rest.len()) as int).count <= most(),
    ensures
        ({
            let n = (front.len() + rest.len()) as int;
            let a = pooled_parts(front, get, front.len() as int);
            let b = pooled_parts(rest, get, rest.len() as int);
            let c = pooled_parts(front + rest, get, n);
            let q = total(front + rest, get, n);
            let grouped = match (a, b) {
                (Some(x), Some(y)) => Some(pooled(x, y)),
                (Some(x), None) => Some(x),
                (None, y) => y,
            };
            &&& grouped is Some && c is Some ==> alike(grouped->0, c->0, q, n, bound)
            &&& grouped is Some && c is Some && all_whole(front + rest, get) && q.count > (
            0 as real) ==> grouped->0.count == c->0.count
        }),
{
    let all = front + rest;
    let k1 = front.len() as int;
    let k2 = rest.len() as int;
    let n = k1 + k2;
    assert(all_sound(all, get, bound)) by {
        assert forall|i: int| 0 <= i < all.len() && get(#[trigger] all[i]) is Some implies
            crate::laws::reordering::sound(get(all[i])->0, bound) by {
            if i < k1 {
                assert(all[i] == front[i]);
            } else {
                assert(all[i] == rest[i - k1]);
            }
        }
    }
    lemma_total_of_groups(front, rest, get, k2);
    let q = total(all, get, n);
    let p1 = total(front, get, k1);
    let p2 = total(rest, get, k2);
    lemma_counted(front, get, k1, bound);
    lemma_counted(rest, get, k2, bound);
    lemma_pooled_parts(front, get, k1, bound);
    lemma_pooled_parts(rest, get, k2, bound);
    lemma_pooled_parts(all, get, n, bound);
    let a = pooled_parts(front, get, k1);
    let b = pooled_parts(rest, get, k2);
    let c = pooled_parts(all, get, n);
    let grouped = match (a, b) {
        (Some(x), Some(y)) => Some(pooled(x, y)),
        (Some(x), None) => Some(x),
        (None, y) => y,
    };
    let zero = 0 as real;
    if grouped is Some && c is Some {
        if q.count == zero {
            if a is Some && b is Some {
                lemma_noughts(a->0.count, b->0.count);
            }
        } else {
            if p1.count == zero {
                assert(together(no_moments(), p2) == p2);
                if a is Some {
                    lemma_blank_left(a->0, b->0, p2, k2, bound);
                }
                assert(grouped == b);
                lemma_stands_for_more(b->0, p2, k2, n, bound);
            } else if p2.count == zero {
                assert(together(p1, no_moments()) == p1);
                if b is Some {
                    lemma_blank_right(a->0, b->0, p1, k1, bound);
                }
                assert(grouped == a);
                lemma_stands_for_more(a->0, p1, k1, n, bound);
            } else {
                lemma_pooled_stands_for(a->0, b->0, p1, p2, k1, k2, bound);
            }
            lemma_alike(grouped->0, c->0, q, n, bound);
            if all_whole(all, get) {
                lemma_whole_groups(front, rest, get, bound);
            }
        }
    }
}

/// Whole counts of two groups add up exactly to that of all parts.
proof fn lemma_whole_groups<T>(
    front: Seq<T>,
    rest: Seq<T>,
    get: spec_fn(T) -> Option<MeanVar>,
    bound: real,
)
    requires
        workable(bound),
        front.len() > 0,
        rest.len() > 0,
        all_sound(front, get, bound),
        all_sound(rest, get, bound),
        all_sound(front + rest, get, bound),
        all_whole(front + rest, get),
        few((front.len() + rest.len()) as int),
        total(front + rest, get, (front.len() + rest.len()) as int).count <= most(),
        total(front + rest, get, (front.len() + rest.len()) as int).count > (0 as real),
    ensures
        ({
            let n = (front.len() + rest.len()) as int;
            let a = pooled_parts(front, get, front.len() as int);
            let b = pooled_parts(rest, get, rest.len() as int);
            let grouped = match (a, b) {
                (Some(x), Some(y)) => Some(pooled(x, y)),
                (Some(x), None) => Some(x),
                (None, y) => y,
            };
            grouped is Some ==> grouped->0.count == pooled_parts(front + rest, get, n)->0.count
        }),
{
    let all = front + rest;
    let k1 = front.len() as int;
    let k2 = rest.len() as int;
    let n = k1 + k2;
    assert(all_whole(front, get)) by {
        assert forall|i: int|
            0 <= i < front.len() && get(#[trigger] front[i]) is Some
                && !get(front[i])->0.backs_nothing() implies get(front[i])->0.count == fcount(
            whole_count(get(front[i])->0),
        ) && whole_count(get(front[i])->0) >= 0 by {
            assert(all[i] == front[i]);
        }
    }
    assert(all_whole(rest, get)) by {
        assert forall|i: int|
            0 <= i < rest.len() && get(#[trigger] rest[i]) is Some
                && !get(rest[i])->0.backs_nothing() implies get(rest[i])->0.count == fcount(
            whole_count(get(rest[i])->0),
        ) && whole_count(get(rest[i])->0) >= 0 by {
            assert(all[k1 + i] == rest[i]);
        }
    }
    lemma_total_of_groups(front, rest, get, k2);
    lemma_counted(front, get, k1, bound);
    lemma_counted(rest, get, k2, bound);
    let p1 = total(front, get, k1);
    let p2 = total(rest, get, k2);
    lemma_pooled_parts(front, get, k1, bound);
    lemma_pooled_parts(rest, get, k2, bound);
    let x = lemma_whole_parts(front, get, k1, bound);
    let y = lemma_whole_parts(rest, get, k2, bound);
    let z = lemma_whole_parts(all, get, n, bound);
    assert((x + y) as real == (x as real) + (y as real));
    assert(z == x + y);
    let a = pooled_parts(front, get, k1);
    let b = pooled_parts(rest, get, k2);
    if x == 0 {
        if a is Some {
            lemma_blank_left(a->0, b->0, p2, k2, bound);
        }
    } else if y == 0 {
        if b is Some {
            lemma_blank_right(a->0, b->0, p1, k1, bound);
        }
    } else {
        lemma_counts_add(x, y);
        lemma_exact_count(x);
        lemma_exact_count(y);
        lemma_exact_count(x + y);
        lemma_exact_order(fcount(x), fzero());
        lemma_exact_order(fcount(y), fzero());
        lemma_exact_order(fcount(x + y), fzero());
    }
}

/// Sound parts have no negative count.
proof fn lemma_counted<T>(
    list: Seq<T>,
    get: spec_fn(T) -> Option<MeanVar>,
    n: int,
    bound: real,
)
    requires
        all_sound(list, get, bound),
        0 <= n <= list.len(),
    ensures
        total(list, get, n).count >= (0 as real),
    decreases n,
{
    if n > 0 {
        lemma_least();
        lemma_counted(list, get, n - 1, bound);
        assert(list[n - 1] == list[n - 1]);
    }
}

/// What two groups unite is what all of their states unite: the same keys, tags and
/// orientations.
proof fn lemma_united_groups(
    front: Seq<RuffleState>,
    rest: Seq<RuffleState>,
    m: int,
    key: Seq<char>,
    pair: (Seq<char>, Seq<char>),
)
    requires
        0 <= m <= rest.len(),
    ensures
        ({
            let n = front.len() as int;
            let all = front + rest;
            let c = united_channels(all, n + m);
            let c1 = united_channels(front, n);
            let c2 = united_channels(rest, m);
            let d = united_directions(all, n + m);
            let d1 = united_directions(front, n);
            let d2 = united_directions(rest, m);
            &&& c.contains_key(key) <==> united(c1, c2).contains_key(key)
            &&& c.contains_key(key) ==> c[key].tag == united(c1, c2)[key].tag
            &&& d.contains_key(key) <==> united(d1, d2).contains_key(key)
            &&& d.contains_key(key) ==> d[key] == united(d1, d2)[key]
            &&& united_pairs(all, n + m).contains_key(pair) <==> united(
                united_pairs(front, n),
                united_pairs(rest, m),
            ).contains_key(pair)
        }),
    decreases m,
{
    let n = front.len() as int;
    let all = front + rest;
    if m > 0 {
        lemma_united_groups(front, rest, m - 1, key, pair);
        assert(all[n + m - 1] == rest[m - 1]);
    } else {
        lemma_united_front(front, rest, n);
    }
}

proof fn lemma_united_front(front: Seq<RuffleState>, rest: Seq<RuffleState>, n: int)
    requires
        0 <= n <= front.len(),
    ensures
        united_channels(front + rest, n) == united_channels(front, n),
        united_pairs(front + rest, n) == united_pairs(front, n),
        united_directions(front + rest, n) == united_directions(front, n),
    decreases n,
{
    if n > 0 {
        lemma_united_front(front, rest, n - 1);
        assert((front + rest)[n - 1] == front[n - 1]);
    }
}

/// What two states unite.
proof fn lemma_united_two(a: RuffleState, b: RuffleState)
    ensures
        united_channels(seq![a, b], 2) == united(a.channel_table()@, b.channel_table()@),
        united_pairs(seq![a, b], 2) == united(a.pair_table()@, b.pair_table()@),
        united_directions(seq![a, b], 2) == united(a.stats().directions@, b.stats().directions@),
{
    let two = seq![a, b];
    reveal_with_fuel(united_channels, 3);
    reveal_with_fuel(united_pairs, 3);
    reveal_with_fuel(united_directions, 3);
    assert(two[0] == a && two[1] == b);
    assert(united(Map::empty(), a.channel_table()@) =~= a.channel_table()@);
    assert(united(Map::empty(), a.pair_table()@) =~= a.pair_table()@);
    assert(united(Map::empty(), a.stats().directions@) =~= a.stats().directions@);
}

/// States can be merged in groups: merging two groups, and then the results, gives the same
/// channels, pairs, orientations and tags as merging all states at once.
pub proof fn lemma_merge_in_groups(
    front: Seq<RuffleState>,
    rest: Seq<RuffleState>,
    first: RuffleState,
    second: RuffleState,
    grouped: RuffleState,
    all: RuffleState,
)
    requires
        front.len() > 0,
        rest.len() > 0,
        merges_to(front, first),
        merges_to(rest, second),
        merges_to(seq![first, second], grouped),
        merges_to(front + rest, all),
    ensures
        grouped.version() == all.version(),
        grouped.stats().stat_version == all.stats().stat_version,
        grouped.stats().baseline_mode == all.stats().baseline_mode,
        grouped.stats().directions@ == all.stats().directions@,
        grouped.channel_table()@.dom() == all.channel_table()@.dom(),
        grouped.pair_table()@.dom() == all.pair_table()@.dom(),
        forall|key: Seq<char>| #[trigger]
            all.channel_table()@.contains_key(key) ==> grouped.channel_table()@[key].tag
                == all.channel_table()@[key].tag,
{
    let m = rest.len() as int;
    lemma_united_two(first, second);
    assert((front + rest)[0] == front[0]);
    assert(seq![first, second][0] == first);
    let no_key = Seq::<char>::empty();
    let no_pair = (no_key, no_key);
    assert forall|key: Seq<char>| #[trigger]
        all.channel_table()@.contains_key(key) <==> grouped.channel_table()@.contains_key(key) by {
        lemma_united_groups(front, rest, m, key, no_pair);
    }
    assert forall|key: Seq<char>| #[trigger]
        all.channel_table()@.contains_key(key) implies grouped.channel_table()@[key].tag
        == all.channel_table()@[key].tag by {
        lemma_united_groups(front, rest, m, key, no_pair);
    }
    assert forall|key: Seq<char>| #[trigger]
        all.stats().directions@.contains_key(key) <==> grouped.stats().directions@.contains_key(
            key,
        ) by {
        lemma_united_groups(front, rest, m, key, no_pair);
    }
    assert forall|key: Seq<char>| #[trigger]
        all.stats().directions@.contains_key(key) implies grouped.stats().directions@[key]
        == all.stats().directions@[key] by {
        lemma_united_groups(front, rest, m, key, no_pair);
    }
    assert forall|pair: (Seq<char>, Seq<char>)| #[trigger]
        all.pair_table()@.contains_key(pair) <==> grouped.pair_table()@.contains_key(pair) by {
        lemma_united_groups(front, rest, m, no_key, pair);
    }
    assert(grouped.stats().directions@.dom() =~= all.stats().directions@.dom());
    assert(grouped.stats().directions@ =~= all.stats().directions@);
    assert(grouped.channel_table()@.dom() =~= all.channel_table()@.dom());
    assert(grouped.pair_table()@.dom() =~= all.pair_table()@.dom());
}

/// States merged in groups agree with all states merged at once on the numbers of every
/// channel: counts, means and variances differ by no more than rounding once for every state
/// can make them, and counts that are whole not at all.
pub proof fn lemma_merge_in_groups_channel(
    front: Seq<RuffleState>,
    rest: Seq<RuffleState>,
    first: RuffleState,
    second: RuffleState,
    grouped: RuffleState,
    all: RuffleState,
    key: Seq<char>,
    bound: real,
)
    requires
        front.len() > 0,
        rest.len() > 0,
        merges_to(front, first),
        merges_to(rest, second),
        merges_to(seq![first, second], grouped),
        merges_to(front + rest, all),
        all.channel_table()@.contains_key(key),
        workable(bound),
        few((front + rest).len() as int),
        all_sound(front, separation_of_channel(key), bound),
        all_sound(rest, separation_of_channel(key), bound),
        all_sound(front, reference_of_channel(key), bound),
        all_sound(rest, reference_of_channel(key), bound),
        total(front + rest, separation_of_channel(key), (front + rest).len() as int).count
            <= most(),
        total(front + rest, reference_of_channel(key), (front + rest).len() as int).count
            <= most(),
    ensures
        grouped.channel_table()@.contains_key(key),
        alike(
            grouped.channel_table()@[key].separation,
            all.channel_table()@[key].separation,
            total(front + rest, separation_of_channel(key), (front + rest).len() as int),
            (front + rest).len() as int,
            bound,
        ),
        alike(
            grouped.channel_table()@[key].reference,
            all.channel_table()@[key].reference,
            total(front + rest, reference_of_channel(key), (front + rest).len() as int),
            (front + rest).len() as int,
            bound,
        ),
        all_whole(front + rest, separation_of_channel(key)) && total(
            front + rest,
            separation_of_channel(key),
            (front + rest).len() as int,
        ).count > (0 as real) ==> grouped.channel_table()@[key].separation.count
            == all.channel_table()@[key].separation.count,
        all_whole(front + rest, reference_of_channel(key)) && total(
            front + rest,
            reference_of_channel(key),
            (front + rest).len() as int,
        ).count > (0 as real) ==> grouped.channel_table()@[key].reference.count
            == all.channel_table()@[key].reference.count,
{
    lemma_merge_in_groups(front, rest, first, second, grouped, all);
    assert(grouped.channel_table()@.dom().contains(key));
    lemma_united_two(first, second);
    lemma_channel_pooled(front, front.len() as int, key);
    lemma_channel_pooled(rest, rest.len() as int, key);
    lemma_channel_pooled(front + rest, (front + rest).len() as int, key);
    lemma_pooling_grouped(front, rest, separation_of_channel(key), bound);
    lemma_pooling_grouped(front, rest, reference_of_channel(key), bound);
}

/// States merged in groups agree with all states merged at once on the numbers of every pair,
/// as on those of every channel.
pub proof fn lemma_merge_in_groups_pair(
    front: Seq<RuffleState>,
    rest: Seq<RuffleState>,
    first: RuffleState,
    second: RuffleState,
    grouped: RuffleState,
    all: RuffleState,
    pair: (Seq<char>, Seq<char>),
    bound: real,
)
    requires
        front.len() > 0,
        rest.len() > 0,
        merges_to(front, first),
        merges_to(rest, second),
        merges_to(seq![first, second], grouped),
        merges_to(front + rest, all),
        all.pair_table()@.contains_key(pair),
        workable(bound),
        few((front + rest).len() as int),
        all_sound(front, redundancy_of_pair(pair), bound),
        all_sound(rest, redundancy_of_pair(pair), bound),
        total(front + rest, redundancy_of_pair(pair), (front + rest).len() as int).count
            <= most(),
    ensures
        grouped.pair_table()@.contains_key(pair),
        alike(
            grouped.pair_table()@[pair].redundancy,
            all.pair_table()@[pair].redundancy,
            total(front + rest, redundancy_of_pair(pair), (front + rest).len() as int),
            (front + rest).len() as int,
            bound,
        ),
        all_whole(front + rest, redundancy_of_pair(pair)) && total(
            front + rest,
            redundancy_of_pair(pair),
            (front + rest).len() as int,
        ).count > (0 as real) ==> grouped.pair_table()@[pair].redundancy.count
            == all.pair_table()@[pair].redundancy.count,
{
    let n = front.len() as int;
    let m = rest.len() as int;
    lemma_merge_in_groups(front, rest, first, second, grouped, all);
    assert(grouped.pair_table()@.dom().contains(pair));
    lemma_united_two(first, second);
    lemma_pair_pooled(front, n, pair);
    lemma_pair_pooled(rest, m, pair);
    lemma_pair_pooled(front + rest, n + m, pair);
    lemma_pooling_grouped(front, rest, redundancy_of_pair(pair), bound);
}

/// States merged in groups agree with all states merged at once on the refreshes of every
/// pair: they differ by no more than rounding once for every state can make them, and
/// refreshes that are whole not at all.
pub proof fn lemma_merge_in_groups_refreshes(
    front: Seq<RuffleState>,
    rest: Seq<RuffleState>,
    first: RuffleState,
    second: RuffleState,
    grouped: RuffleState,
    all: RuffleState,
    pair: (Seq<char>, Seq<char>),
)
    requires
        front.len() > 0,
        rest.len() > 0,
        merges_to(front, first),
        merges_to(rest, second),
        merges_to(seq![first, second], grouped),
        merges_to(front + rest, all),
        all.pair_table()@.contains_key(pair),
        few((front + rest).len() as int),
        forall|i: int|
            0 <= i < (front + rest).len() ==> sound_refreshes(#[trigger] (front + rest)[i], pair),
        (4 as real) * exact_sum_of_refreshes(front + rest, pair) <= limit(),
    ensures
        grouped.pair_table()@.contains_key(pair),
        size(
            exact(grouped.pair_table()@[pair].refreshes) - exact(all.pair_table()@[pair].refreshes),
        ) <= ((4 * (front + rest).len()) as real) * (ulp() * exact_sum_of_refreshes(
            front + rest,
            pair,
        )),
        (forall|i: int|
            0 <= i < (front + rest).len() ==> whole_refreshes(#[trigger] (front + rest)[i], pair))
            && all_refreshes(front + rest, pair) <= 0x20_0000_0000_0000
            ==> grouped.pair_table()@[pair].refreshes == all.pair_table()@[pair].refreshes,
{
    lemma_small_errors();
    let n = front.len() as int;
    let m = rest.len() as int;
    let parts = front + rest;
    lemma_merge_in_groups(front, rest, first, second, grouped, all);
    assert(grouped.pair_table()@.dom().contains(pair));
    lemma_united_two(first, second);
    assert(rest.take(m) =~= rest);
    assert(front.take(n) =~= front);
    assert(parts.take(n + m) =~= parts);
    assert forall|i: int| 0 <= i < n implies sound_refreshes(#[trigger] front[i], pair) by {
        assert(parts[i] == front[i]);
        assert(sound_refreshes(parts[i], pair));
    }
    assert forall|i: int| 0 <= i < m implies sound_refreshes(#[trigger] rest[i], pair) by {
        assert(parts[n + i] == rest[i]);
        assert(sound_refreshes(parts[n + i], pair));
    }
    lemma_exact_refreshes_of_groups(front, rest, pair, m);
    lemma_exact_refreshes_counted(front, pair, n);
    lemma_exact_refreshes_counted(rest, pair, m);
    lemma_refreshes_near(front, n, pair);
    lemma_refreshes_near(rest, m, pair);
    lemma_refreshes_near(parts, n + m, pair);
    let t1 = exact_sum_of_refreshes(front, pair);
    let t2 = exact_sum_of_refreshes(rest, pair);
    let t = exact_sum_of_refreshes(parts, pair);
    let one = 1 as real;
    let u = ulp();
    let a = first.pair_table()@;
    let b = second.pair_table()@;
    let k = (2 * (n + m - 1)) as real;
    let x = (2 * (n + m)) as real;
    let r = grouped.pair_table()@[pair].refreshes;
    if a.contains_key(pair) && b.contains_key(pair) {
        let c = a[pair].refreshes;
        let d = b[pair].refreshes;
        lemma_close_more(exact(c), t1, (2 * n) as real, k);
        lemma_close_more(exact(d), t2, (2 * m) as real, k);
        crate::closeness::lemma_close_half(exact(c), t1, k);
        crate::closeness::lemma_close_half(exact(d), t2, k);
        crate::closeness::lemma_close_sum(exact(c), t1, exact(d), t2, k);
        lemma_sum_close(c, d);
        assert(one * k * u <= one);
        lemma_close_chain(exact(r), exact(c) + exact(d), t, one, k);
    } else if a.contains_key(pair) {
        lemma_close_more(exact(r), t, (2 * n) as real, x);
    } else {
        lemma_close_more(exact(r), t, (2 * m) as real, x);
    }
    assert(close(exact(r), t, x));
    crate::reals::lemma_associate(x, u, t);
    crate::reals::lemma_associate(2 as real, x, u * t);
    assert((4 * parts.len()) as real == (2 as real) * x);
    if (forall|i: int| 0 <= i < parts.len() ==> whole_refreshes(#[trigger] parts[i], pair))
        && all_refreshes(parts, pair) <= 0x20_0000_0000_0000 {
        assert forall|i: int| 0 <= i < n implies whole_refreshes(#[trigger] front[i], pair) by {
            assert(parts[i] == front[i]);
            assert(whole_refreshes(parts[i], pair));
        }
        assert forall|i: int| 0 <= i < m implies whole_refreshes(#[trigger] rest[i], pair) by {
            assert(parts[n + i] == rest[i]);
            assert(whole_refreshes(parts[n + i], pair));
        }
        lemma_refreshes_of_groups(front, rest, pair, m);
        lemma_refreshes_counted(front, pair, n);
        lemma_refreshes_counted(rest, pair, m);
        lemma_refreshes_add(front, n, pair);
        lemma_refreshes_add(rest, m, pair);
        lemma_refreshes_add(parts, n + m, pair);
        lemma_counts_add(all_refreshes(front, pair), all_refreshes(rest, pair));
    }
}

/// The refreshes in two groups of states are those in all of them, as real numbers.
proof fn lemma_exact_refreshes_of_groups(
    front: Seq<RuffleState>,
    rest: Seq<RuffleState>,
    pair: (Seq<char>, Seq<char>),
    m: int,
)
    requires
        0 <= m <= rest.len(),
    ensures
        exact_sum_of_refreshes(front + rest.take(m), pair) == exact_sum_of_refreshes(front, pair)
            + exact_sum_of_refreshes(rest.take(m), pair),
    decreases m,
{
    if m > 0 {
        lemma_exact_refreshes_of_groups(front, rest, pair, m - 1);
        let s = front + rest.take(m);
        assert(s.drop_last() =~= front + rest.take(m - 1));
        assert(s.last() == rest[m - 1]);
        assert(rest.take(m).drop_last() =~= rest.take(m - 1));
        assert(rest.take(m).last() == rest[m - 1]);
    } else {
        assert(front + rest.take(0) =~= front);
    }
}

proof fn lemma_exact_refreshes_counted(
    list: Seq<RuffleState>,
    pair: (Seq<char>, Seq<char>),
    n: int,
)
    requires
        0 <= n <= list.len(),
        forall|i: int| 0 <= i < list.len() ==> sound_refreshes(#[trigger] list[i], pair),
    ensures
        exact_sum_of_refreshes(list.take(n), pair) >= (0 as real),
    decreases n,
{
    if n > 0 {
        lemma_exact_refreshes_counted(list, pair, n - 1);
        let s = list.take(n);
        assert(s.drop_last() =~= list.take(n - 1));
        assert(s.last() == list[n - 1]);
        assert(sound_refreshes(list[n - 1], pair));
    }
}

/// The refreshes in two groups of states are those in all of them.
proof fn lemma_refreshes_of_groups(
    front: Seq<RuffleState>,
    rest: Seq<RuffleState>,
    pair: (Seq<char>, Seq<char>),
    m: int,
)
    requires
        0 <= m <= rest.len(),
    ensures
        all_refreshes(front + rest.take(m), pair) == all_refreshes(front, pair) + all_refreshes(
            rest.take(m),
            pair,
        ),
    decreases m,
{
    if m > 0 {
        lemma_refreshes_of_groups(front, rest, pair, m - 1);
        let s = front + rest.take(m);
        assert(s.drop_last() =~= front + rest.take(m - 1));
        assert(s.last() == rest[m - 1]);
        assert(rest.take(m).drop_last() =~= rest.take(m - 1));
        assert(rest.take(m).last() == rest[m - 1]);
    } else {
        assert(front + rest.take(0) =~= front);
    }
}

proof fn lemma_refreshes_counted(
    list: Seq<RuffleState>,
    pair: (Seq<char>, Seq<char>),
    n: int,
)
    requires
        0 <= n <= list.len(),
        forall|i: int| 0 <= i < list.len() ==> whole_refreshes(#[trigger] list[i], pair),
    ensures
        all_refreshes(list.take(n), pair) >= 0,
    decreases n,
{
    if n > 0 {
        lemma_refreshes_counted(list, pair, n - 1);
        let s = list.take(n);
        assert(s.drop_last() =~= list.take(n - 1));
        assert(s.last() == list[n - 1]);
        assert(whole_refreshes(list[n - 1], pair));
    }
}

/// Merging summaries pools them, whatever they count: counts add, and mean and squared deviation
/// are those of all observations, up to rounding. It is commutative and associative: the
/// results are alike in count, mean, squared deviation and variance.
pub proof fn lemma_merging_summaries(a: MeanVar, b: MeanVar, c: MeanVar, bound: real)
    requires
        workable(bound),
        fit(a, bound),
        fit(b, bound),
        fit(c, bound),
        exact(a.count) + exact(b.count) + exact(c.count) <= most(),
    ensures
        stands_for(pooled(a, b), together(own_moments(a), own_moments(b)), 2, bound),
        alike(
            pooled(a, b),
            pooled(b, a),
            together(own_moments(a), own_moments(b)),
            2,
            bound,
        ),
        alike(
            pooled(pooled(a, b), c),
            pooled(a, pooled(b, c)),
            together(together(own_moments(a), own_moments(b)), own_moments(c)),
            3,
            bound,
        ),
{
    lemma_least();
    lemma_own_moments(a, bound);
    lemma_own_moments(b, bound);
    lemma_own_moments(c, bound);
    let p = own_moments(a);
    let q = own_moments(b);
    let r = own_moments(c);
    lemma_pooled_stands_for(a, b, p, q, 1, 1, bound);
    lemma_pooled_stands_for(b, a, q, p, 1, 1, bound);
    assert(together(p, q) == together(q, p));
    lemma_alike(pooled(a, b), pooled(b, a), together(p, q), 2, bound);
    lemma_pooled_stands_for(b, c, q, r, 1, 1, bound);
    lemma_pooled_stands_for(pooled(a, b), c, together(p, q), r, 2, 1, bound);
    lemma_pooled_stands_for(a, pooled(b, c), p, together(q, r), 1, 2, bound);
    assert(together(together(p, q), r) == together(p, together(q, r)));
    lemma_alike(
        pooled(pooled(a, b), c),
        pooled(a, pooled(b, c)),
        together(together(p, q), r),
        3,
        bound,
    );
}

} // verus!
