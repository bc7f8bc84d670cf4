//! The order in which a channel lists its scored items does not matter.
use crate::double::{fadd, fcount, fdiv, fone, Double};
use crate::ingest::input::{ChannelInput, Items};
use crate::laws::ranking::{lemma_order_sorts, lemma_reordered_count, reorders};
use crate::numeric::descending_keys;
use crate::sorting::{sorts, sorts_before};
use crate::weighting::discrimination::pool_scores;
use crate::weighting::fusion::{fused_score, gathered, rank_at, walk, weight_for};
use vstd::prelude::*;

verus! {

/// The places of the keys below one.
spec fn under(keys: Seq<u64>, k: u64) -> Set<int> {
    Set::new(|j: int| 0 <= j < keys.len() && keys[j] < k)
}

/// The places of the keys equal to one.
spec fn level(keys: Seq<u64>, k: u64) -> Set<int> {
    Set::new(|j: int| 0 <= j < keys.len() && keys[j] == k)
}

/// The rank that a key has among others; equal keys share their midrank.
spec fn rank_of(keys: Seq<u64>, k: u64) -> Double {
    fadd(
        fdiv(
            fcount(2 * (under(keys, k).len() as int) + level(keys, k).len() - 1),
            fcount(2),
        ),
        fone(),
    )
}

/// The keys of the chosen among the first `n` places that an order lists.
spec fn own_keys(
    keys: Seq<u64>,
    chosen: spec_fn(int) -> bool,
    order: Seq<usize>,
    n: int,
) -> Seq<u64>
    decreases n,
{
    if n <= 0 {
        Seq::empty()
    } else {
        let p = order[n - 1] as int;
        let before = own_keys(keys, chosen, order, n - 1);
        if chosen(p) {
            before.push(keys[p])
        } else {
            before
        }
    }
}

/// A score with the contributions of the first `m` of some keys added.
spec fn added(
    keys: Seq<u64>,
    own: Seq<u64>,
    weight: Double,
    eta: Double,
    start: Double,
    m: int,
) -> Double
    decreases m,
{
    if m <= 0 {
        start
    } else {
        fadd(
            added(keys, own, weight, eta, start, m - 1),
            fdiv(weight, fadd(eta, rank_of(keys, own[m - 1]))),
        )
    }
}

proof fn lemma_added_prefix(
    keys: Seq<u64>,
    a: Seq<u64>,
    b: Seq<u64>,
    weight: Double,
    eta: Double,
    start: Double,
    m: int,
)
    requires
        m <= a.len(),
        m <= b.len(),
        forall|i: int| 0 <= i < m ==> #[trigger] a[i] == b[i],
    ensures
        added(keys, a, weight, eta, start, m) == added(keys, b, weight, eta, start, m),
    decreases m,
{
    if m > 0 {
        lemma_added_prefix(keys, a, b, weight, eta, start, m - 1);
        assert(a[m - 1] == b[m - 1]);
    }
}

/// The keys of a channel's scored items.
spec fn keys_of<Id>(items: Items<Id>) -> Seq<u64> {
    descending_keys(pool_scores(items->Scored_0@))
}

/// The places at which a channel lists an id.
spec fn lists_id<Id>(items: Items<Id>, id: Id) -> spec_fn(int) -> bool {
    |p: int| items.id_at(p) == id
}

/// What an id gathers in a channel is what its own keys add.
proof fn lemma_gathered_is_added<Id>(
    items: Items<Id>,
    id: Id,
    weight: Double,
    eta: Double,
    start: Double,
    n: int,
)
    requires
        items is Scored,
        items.size() <= usize::MAX,
        0 <= n <= items.size(),
    ensures
        ({
            let own = own_keys(keys_of(items), lists_id(items, id), walk(items), n);
            gathered(items, id, weight, eta, start, n) == added(
                keys_of(items),
                own,
                weight,
                eta,
                start,
                own.len() as int,
            )
        }),
    decreases n,
{
    if n > 0 {
        let keys = keys_of(items);
        let chosen = lists_id(items, id);
        let order = walk(items);
        lemma_gathered_is_added(items, id, weight, eta, start, n - 1);
        let before = own_keys(keys, chosen, order, n - 1);
        let own = own_keys(keys, chosen, order, n);
        lemma_order_sorts(keys);
        let p = order[n - 1] as int;
        assert(0 <= p < keys.len());
        if chosen(p) {
            let m = before.len() as int;
            assert(own[m] == keys[p]);
            lemma_added_prefix(keys, before, own, weight, eta, start, m);
            assert(Set::new(|j: int| 0 <= j < keys.len() && keys[j] < keys[p]) =~= under(
                keys,
                own[m],
            ));
            assert(Set::new(|j: int| 0 <= j < keys.len() && keys[j] == keys[p]) =~= level(
                keys,
                own[m],
            ));
            assert(rank_at(items, p) == rank_of(keys, own[m]));
        }
    }
}

/// An id's own keys come in order.
proof fn lemma_own_sorted(keys: Seq<u64>, chosen: spec_fn(int) -> bool, order: Seq<usize>, n: int)
    requires
        sorts(keys, order),
        0 <= n <= order.len(),
    ensures
        forall|i: int, j: int|
            0 <= i <= j < own_keys(keys, chosen, order, n).len() ==> #[trigger] own_keys(
                keys,
                chosen,
                order,
                n,
            )[i] <= #[trigger] own_keys(keys, chosen, order, n)[j],
        forall|i: int, t: int|
            0 <= i < own_keys(keys, chosen, order, n).len() && n <= t < order.len()
                ==> #[trigger] own_keys(keys, chosen, order, n)[i]
                <= keys[#[trigger] order[t] as int],
    decreases n,
{
    if n > 0 {
        lemma_own_sorted(keys, chosen, order, n - 1);
        let before = own_keys(keys, chosen, order, n - 1);
        let own = own_keys(keys, chosen, order, n);
        let p = order[n - 1] as int;
        assert forall|i: int, j: int| 0 <= i <= j < own.len() implies #[trigger] own[i]
            <= #[trigger] own[j] by {
            if j < before.len() {
                assert(own[i] == before[i] && own[j] == before[j]);
            } else if i < before.len() {
                assert(own[i] == before[i] && own[j] == keys[p]);
                assert(before[i] <= keys[order[n - 1] as int]);
            }
        }
        assert forall|i: int, t: int| 0 <= i < own.len() && n <= t < order.len() implies #[trigger] own[i]
            <= keys[#[trigger] order[t] as int] by {
            assert(sorts_before(keys, order[n - 1] as int, order[t] as int));
            if i < before.len() {
                assert(own[i] == before[i]);
                assert(before[i] <= keys[order[t] as int]);
            } else {
                assert(own[i] == keys[p]);
            }
        }
    }
}

/// The places up to `n` of an order at which a chosen key stands.
spec fn places(
    keys: Seq<u64>,
    chosen: spec_fn(int) -> bool,
    order: Seq<usize>,
    n: int,
    k: u64,
) -> Set<int> {
    Set::new(|t: int| 0 <= t < n && chosen(order[t] as int) && keys[order[t] as int] == k)
}

/// An id has a key as often as it stands at it.
proof fn lemma_own_counts(
    keys: Seq<u64>,
    chosen: spec_fn(int) -> bool,
    order: Seq<usize>,
    n: int,
    k: u64,
)
    requires
        0 <= n <= order.len(),
    ensures
        places(keys, chosen, order, n, k).finite(),
        own_keys(keys, chosen, order, n).to_multiset().count(k) == places(
            keys,
            chosen,
            order,
            n,
            k,
        ).len(),
    decreases n,
{
    let now = places(keys, chosen, order, n, k);
    if n > 0 {
        lemma_own_counts(keys, chosen, order, n - 1, k);
        let before = places(keys, chosen, order, n - 1, k);
        let own = own_keys(keys, chosen, order, n - 1);
        let p = order[n - 1] as int;
        if chosen(p) && keys[p] == k {
            assert(now =~= before.insert(n - 1));
        } else {
            assert(now =~= before);
        }
        if chosen(p) {
            vstd::seq_lib::to_multiset_build(own, keys[p]);
        }
    } else {
        assert(now =~= Set::<int>::empty());
        vstd::seq_lib::to_multiset_len(Seq::<u64>::empty());
        assert(Seq::<u64>::empty().to_multiset() =~= vstd::multiset::Multiset::empty());
    }
}

/// The places at which a chosen key stands, in the list itself.
spec fn spots(keys: Seq<u64>, chosen: spec_fn(int) -> bool, k: u64) -> Set<int> {
    Set::new(|p: int| 0 <= p < keys.len() && chosen(p) && keys[p] == k)
}

/// An order lists as many places with a key as there are.
proof fn lemma_places_are_spots(
    keys: Seq<u64>,
    chosen: spec_fn(int) -> bool,
    order: Seq<usize>,
    k: u64,
)
    requires
        sorts(keys, order),
        keys.len() <= usize::MAX,
    ensures
        places(keys, chosen, order, keys.len() as int, k).len() == spots(keys, chosen, k).len(),
{
    let n = keys.len() as int;
    let a = places(keys, chosen, order, n, k);
    let b = spots(keys, chosen, k);
    lemma_own_counts(keys, chosen, order, n, k);
    let f = |t: int| order[t] as int;
    assert forall|x: int, y: int|
        #![trigger f(x), f(y)]
        a.contains(x) && a.contains(y) && f(x) == f(y) implies x == y by {
        if x < y {
            assert(sorts_before(keys, order[x] as int, order[y] as int));
        } else if y < x {
            assert(sorts_before(keys, order[y] as int, order[x] as int));
        }
    }
    assert(a.map(f) =~= b) by {
        assert forall|p: int| a.map(f).contains(p) == b.contains(p) by {
            if b.contains(p) {
                assert(order.contains(p as usize));
                let t = choose|t: int| 0 <= t < order.len() && order[t] == p as usize;
                assert(a.contains(t) && f(t) == p);
            }
            if a.map(f).contains(p) {
                let t = choose|t: int| a.contains(t) && f(t) == p;
                assert(0 <= order[t] < n);
            }
        }
    }
    vstd::set_lib::lemma_map_size(a, b, f);
}

/// One channel's list is another's in another order.
pub open spec fn permutes<Id>(
    a: Items<Id>,
    b: Items<Id>,
    place: spec_fn(int) -> int,
    back: spec_fn(int) -> int,
) -> bool {
    &&& a is Scored
    &&& b is Scored
    &&& b->Scored_0@.len() == a->Scored_0@.len()
    &&& a->Scored_0@.len() <= usize::MAX
    &&& reorders(place, back, a->Scored_0@.len() as int)
    &&& forall|i: int|
        0 <= i < a->Scored_0@.len() ==> #[trigger] b->Scored_0@[i] == a->Scored_0@[place(i)]
}

/// What an id gathers in a channel does not depend on the order of its list.
proof fn lemma_gathered_permuted<Id>(
    a: Items<Id>,
    b: Items<Id>,
    place: spec_fn(int) -> int,
    back: spec_fn(int) -> int,
    id: Id,
    weight: Double,
    eta: Double,
    start: Double,
)
    requires
        permutes(a, b, place, back),
    ensures
        gathered(b, id, weight, eta, start, b.size() as int) == gathered(
            a,
            id,
            weight,
            eta,
            start,
            a.size() as int,
        ),
{
    let n = a.size() as int;
    let x = keys_of(a);
    let y = keys_of(b);
    let p = walk(a);
    let q = walk(b);
    let ca = lists_id(a, id);
    let cb = lists_id(b, id);
    lemma_order_sorts(x);
    lemma_order_sorts(y);
    assert forall|i: int| 0 <= i < n implies y[i] == x[#[trigger] place(i)] && cb(i) == ca(
        place(i),
    ) by {
        assert(b->Scored_0@[i] == a->Scored_0@[place(i)]);
    }
    lemma_gathered_is_added(a, id, weight, eta, start, n);
    lemma_gathered_is_added(b, id, weight, eta, start, n);
    let own_a = own_keys(x, ca, p, n);
    let own_b = own_keys(y, cb, q, n);
    assert forall|k: u64| own_a.to_multiset().count(k) == own_b.to_multiset().count(k) by {
        lemma_own_counts(x, ca, p, n, k);
        lemma_own_counts(y, cb, q, n, k);
        lemma_places_are_spots(x, ca, p, k);
        lemma_places_are_spots(y, cb, q, k);
        lemma_reordered_count(n, place, back, spots(y, cb, k), spots(x, ca, k));
    }
    assert(own_a.to_multiset() =~= own_b.to_multiset());
    lemma_own_sorted(x, ca, p, n);
    lemma_own_sorted(y, cb, q, n);
    let leq = |i: u64, j: u64| i <= j;
    vstd::seq_lib::lemma_sorted_unique(own_a, own_b, leq);
    assert(own_a =~= own_b);
    lemma_same_ranks(x, y, place, back, own_a, weight, eta, start, own_a.len() as int);
}

/// Reordered keys rank every key alike.
proof fn lemma_same_ranks(
    x: Seq<u64>,
    y: Seq<u64>,
    place: spec_fn(int) -> int,
    back: spec_fn(int) -> int,
    own: Seq<u64>,
    weight: Double,
    eta: Double,
    start: Double,
    m: int,
)
    requires
        x.len() == y.len(),
        reorders(place, back, x.len() as int),
        forall|i: int| 0 <= i < x.len() ==> y[i] == x[#[trigger] place(i)],
    ensures
        added(y, own, weight, eta, start, m) == added(x, own, weight, eta, start, m),
    decreases m,
{
    if m > 0 {
        lemma_same_ranks(x, y, place, back, own, weight, eta, start, m - 1);
        let k = own[m - 1];
        let n = x.len() as int;
        lemma_reordered_count(n, place, back, under(y, k), under(x, k));
        lemma_reordered_count(n, place, back, level(y, k), level(x, k));
    }
}

/// Permuting the scored list of one channel keeps every id's fused score.
pub proof fn lemma_permuted_list_keeps_scores<Id>(
    obs: Seq<ChannelInput<Id>>,
    other: Seq<ChannelInput<Id>>,
    c: int,
    place: spec_fn(int) -> int,
    back: spec_fn(int) -> int,
    weights: Map<Seq<char>, Double>,
    eta: Double,
    id: Id,
    n: int,
)
    requires
        other.len() == obs.len(),
        0 <= n <= obs.len(),
        forall|i: int| 0 <= i < obs.len() && i != c ==> #[trigger] other[i] == obs[i],
        0 <= c < obs.len() ==> other[c].key@ == obs[c].key@ && permutes(
            obs[c].items,
            other[c].items,
            place,
            back,
        ),
    ensures
        fused_score(other, weights, eta, id, n) == fused_score(obs, weights, eta, id, n),
    decreases n,
{
    if n > 0 {
        lemma_permuted_list_keeps_scores(obs, other, c, place, back, weights, eta, id, n - 1);
        if n - 1 == c {
            lemma_gathered_permuted(
                obs[c].items,
                other[c].items,
                place,
                back,
                id,
                weight_for(weights, obs[c].key@),
                eta,
                fused_score(obs, weights, eta, id, n - 1),
            );
        } else {
            assert(other[n - 1] == obs[n - 1]);
        }
    }
}

} // verus!
