//! What the agreement diagnostics are read from: the best items of the channels that
//! discriminate on the query, and of no other.
use crate::config::{ChannelConfig, DiscriminationConfig, FuseConfig};
use crate::double::{fcount, fdiv, feq, fle, flt, fone, fsub, fzero};

use crate::fuser::{fuses_to, top_ids, top_lists, Fused};
use crate::ingest::input::{ChannelInput, Items};
use crate::laws::contributions::finite_scores;
use crate::laws::ranking::lemma_order_sorts;
use crate::numeric::{descending_keys, lemma_descending_key, order_of};
use crate::sorting::sorts_before;
use crate::state::{ChannelSummary, PairSummary};
use crate::weighting::coupling::{in_all, in_any};
use crate::weighting::discrimination::{pool_scores, ChannelDiscrimination};
use crate::weighting::fusion::walk;
use vstd::prelude::*;

verus! {

/// The input at `i` has a say in the diagnostics: its channel is registered, has a baseline and
/// no earlier input; it has a separation read; it is weighted at or above the neutral weight;
/// and enough observations stand behind its norm.
pub open spec fn votes<Id>(
    obs: Seq<ChannelInput<Id>>,
    registry: Map<Seq<char>, ChannelConfig>,
    channels: Map<Seq<char>, ChannelSummary>,
    cfg: DiscriminationConfig,
    discs: Seq<ChannelDiscrimination>,
    i: int,
) -> bool {
    let key = obs[i].key@;
    &&& 0 <= i < obs.len()
    &&& registry.contains_key(key)
    &&& channels.contains_key(key)
    &&& forall|j: int| 0 <= j < i ==> (#[trigger] obs[j]).key@ != key
    &&& discs[i].raw_separation is Some
    &&& fle(fone(), discs[i].g)
    &&& fle(cfg.min_count_for_z, channels[key].separation.count)
}

/// The item at `q` of a list stands before the one at `p`: it has a larger score, or it has the
/// same, or there are none, and it is listed earlier.
pub open spec fn stands_before<Id>(items: Items<Id>, q: int, p: int) -> bool {
    match items {
        Items::Ranks(v) => q < p,
        Items::Scored(v) => flt(v@[p].1, v@[q].1) || (feq(v@[p].1, v@[q].1) && q < p),
    }
}

/// An id is among the `m` best items of a list.
pub open spec fn among_best<Id>(items: Items<Id>, m: int, id: Id) -> bool {
    exists|p: int|
        0 <= p < items.size() && #[trigger] items.id_at(p) == id && Set::new(
            |q: int| 0 <= q < items.size() && stands_before(items, q, p),
        ).len() < m
}

/// So many items stand before the one that a walk comes to after as many steps.
proof fn lemma_steps_before<Id>(items: Items<Id>, t: int)
    requires
        items.size() <= usize::MAX,
        finite_scores(items),
        0 <= t < items.size(),
    ensures
        0 <= walk(items)[t] < items.size(),
        Set::new(
            |q: int| 0 <= q < items.size() && stands_before(items, q, walk(items)[t] as int),
        ).len() == t,
{
    let n = items.size() as int;
    let order = walk(items);
    let first = vstd::set_lib::set_int_range(0, t);
    vstd::set_lib::lemma_int_range(0, t);
    let f = |s: int| order[s] as int;
    match items {
        Items::Ranks(v) => {
            let p = order[t] as int;
            let target = Set::new(|q: int| 0 <= q < n && stands_before(items, q, p));
            assert(target =~= first);
        },
        Items::Scored(v) => {
            let scores = pool_scores(v@);
            let keys = descending_keys(scores);
            lemma_order_sorts(keys);
            let p = order[t] as int;
            assert(0 <= order[t] < n);
            let target = Set::new(|q: int| 0 <= q < n && stands_before(items, q, p));
            assert forall|q: int| 0 <= q < n implies stands_before(items, q, p) == sorts_before(
                keys,
                q,
                p,
            ) by {
                assert(v@[q].1.finite() && v@[p].1.finite());
                lemma_descending_key(scores[q], scores[p]);
            }
            assert forall|x: int, y: int|
                #![trigger f(x), f(y)]
                first.contains(x) && first.contains(y) && f(x) == f(y) implies x == y by {
                if x < y {
                    assert(sorts_before(keys, order[x] as int, order[y] as int));
                } else if y < x {
                    assert(sorts_before(keys, order[y] as int, order[x] as int));
                }
            }
            assert(first.map(f) =~= target) by {
                assert forall|q: int| first.map(f).contains(q) == target.contains(q) by {
                    if first.map(f).contains(q) {
                        let s = choose|s: int| first.contains(s) && f(s) == q;
                        assert(0 <= order[s] < n);
                        assert(sorts_before(keys, order[s] as int, order[t] as int));
                    }
                    if target.contains(q) {
                        assert(order.contains(q as usize));
                        let s = choose|s: int| 0 <= s < order.len() && order[s] == q as usize;
                        if s > t {
                            assert(sorts_before(keys, order[t] as int, order[s] as int));
                        }
                        assert(first.contains(s) && f(s) == q);
                    }
                }
            }
            vstd::set_lib::lemma_map_size(first, target, f);
        },
    }
}

/// The listed top ids of a channel are those among its best.
proof fn lemma_top_ids<Id>(items: Items<Id>, m: int, id: Id)
    requires
        items.size() <= usize::MAX,
        finite_scores(items),
        0 <= m,
    ensures
        top_ids(items, m).contains(id) <==> among_best(items, m, id),
{
    let n = items.size() as int;
    let order = walk(items);
    let top = top_ids(items, m);
    if top.contains(id) {
        let t = choose|t: int| 0 <= t < top.len() && top[t] == id;
        lemma_steps_before(items, t);
        assert(items.id_at(order[t] as int) == id);
    }
    if among_best(items, m, id) {
        let p = choose|p: int|
            0 <= p < items.size() && #[trigger] items.id_at(p) == id && Set::new(
                |q: int| 0 <= q < items.size() && stands_before(items, q, p),
            ).len() < m;
        let t = lemma_step_of(items, p);
        lemma_steps_before(items, t);
        assert(top[t] == id);
    }
}

/// A walk comes to every item.
proof fn lemma_step_of<Id>(items: Items<Id>, p: int) -> (t: int)
    requires
        items.size() <= usize::MAX,
        0 <= p < items.size(),
    ensures
        0 <= t < items.size(),
        walk(items)[t] as int == p,
{
    match items {
        Items::Ranks(v) => p,
        Items::Scored(v) => {
            let keys = descending_keys(pool_scores(v@));
            let order = order_of(keys);
            lemma_order_sorts(keys);
            assert(order.contains(p as usize));
            let t = choose|t: int| 0 <= t < order.len() && order[t] == p as usize;
            t
        },
    }
}

/// The lists that are gathered are those of the inputs that have a say.
proof fn lemma_lists_of_voters<Id>(
    obs: Seq<ChannelInput<Id>>,
    registry: Map<Seq<char>, ChannelConfig>,
    channels: Map<Seq<char>, ChannelSummary>,
    cfg: DiscriminationConfig,
    discs: Seq<ChannelDiscrimination>,
    n: int,
)
    requires
        0 <= n <= obs.len(),
    ensures
        ({
            let lists = top_lists(obs, registry, channels, cfg, discs, n);
            &&& forall|l: int|
                0 <= l < lists.len() ==> exists|i: int|
                    0 <= i < n && #[trigger] votes(obs, registry, channels, cfg, discs, i)
                        && #[trigger] lists[l] == top_ids(obs[i].items, cfg.top_m as int)
            &&& forall|i: int|
                0 <= i < n && #[trigger] votes(obs, registry, channels, cfg, discs, i)
                    ==> lists.contains(top_ids(obs[i].items, cfg.top_m as int))
            &&& lists.len() >= 1 <==> exists|i: int|
                0 <= i < n && #[trigger] votes(obs, registry, channels, cfg, discs, i)
            &&& lists.len() >= 2 <==> exists|i: int, j: int|
                0 <= i < j < n && #[trigger] votes(obs, registry, channels, cfg, discs, i)
                    && #[trigger] votes(obs, registry, channels, cfg, discs, j)
        }),
    decreases n,
{
    let lists = top_lists(obs, registry, channels, cfg, discs, n);
    if n > 0 {
        lemma_lists_of_voters(obs, registry, channels, cfg, discs, n - 1);
        let before = top_lists(obs, registry, channels, cfg, discs, n - 1);
        let own = top_ids(obs[n - 1].items, cfg.top_m as int);
        let speaks = votes(obs, registry, channels, cfg, discs, n - 1);
        assert(speaks ==> lists == before.push(own));
        assert(!speaks ==> lists == before);
        assert forall|l: int| 0 <= l < lists.len() implies exists|i: int|
            0 <= i < n && #[trigger] votes(obs, registry, channels, cfg, discs, i)
                && #[trigger] lists[l] == top_ids(obs[i].items, cfg.top_m as int) by {
            if l < before.len() {
                assert(lists[l] == before[l]);
                let i = choose|i: int|
                    0 <= i < n - 1 && #[trigger] votes(obs, registry, channels, cfg, discs, i)
                        && before[l] == top_ids(obs[i].items, cfg.top_m as int);
                assert(votes(obs, registry, channels, cfg, discs, i));
            } else {
                assert(votes(obs, registry, channels, cfg, discs, n - 1));
            }
        }
        assert forall|i: int|
            0 <= i < n && #[trigger] votes(
                obs,
                registry,
                channels,
                cfg,
                discs,
                i,
            ) implies lists.contains(top_ids(obs[i].items, cfg.top_m as int)) by {
            if i < n - 1 {
                let x = top_ids(obs[i].items, cfg.top_m as int);
                assert(before.contains(x));
                let l = choose|l: int| 0 <= l < before.len() && before[l] == x;
                assert(lists[l] == x);
            } else {
                assert(lists[before.len() as int] == own);
            }
        }
        if lists.len() >= 2 {
            if before.len() >= 2 {
                let (i, j) = choose|i: int, j: int|
                    0 <= i < j < n - 1 && #[trigger] votes(obs, registry, channels, cfg, discs, i)
                        && #[trigger] votes(obs, registry, channels, cfg, discs, j);
                assert(votes(obs, registry, channels, cfg, discs, i));
                assert(votes(obs, registry, channels, cfg, discs, j));
            } else {
                let i = choose|i: int|
                    0 <= i < n - 1 && #[trigger] votes(obs, registry, channels, cfg, discs, i);
                assert(votes(obs, registry, channels, cfg, discs, i));
                assert(votes(obs, registry, channels, cfg, discs, n - 1));
            }
        }
    }
}

/// An id is among the best of some input that has a say.
pub open spec fn backed<Id>(
    obs: Seq<ChannelInput<Id>>,
    registry: Map<Seq<char>, ChannelConfig>,
    channels: Map<Seq<char>, ChannelSummary>,
    cfg: DiscriminationConfig,
    discs: Seq<ChannelDiscrimination>,
) -> Set<Id> {
    Set::new(
        |id: Id|
            exists|i: int| #[trigger]
                votes(obs, registry, channels, cfg, discs, i) && among_best(
                    obs[i].items,
                    cfg.top_m as int,
                    id,
                ),
    )
}

/// An id is among the best of every input that has a say.
pub open spec fn agreed<Id>(
    obs: Seq<ChannelInput<Id>>,
    registry: Map<Seq<char>, ChannelConfig>,
    channels: Map<Seq<char>, ChannelSummary>,
    cfg: DiscriminationConfig,
    discs: Seq<ChannelDiscrimination>,
) -> Set<Id> {
    Set::new(
        |id: Id|
            forall|i: int| #[trigger]
                votes(obs, registry, channels, cfg, discs, i) ==> among_best(
                    obs[i].items,
                    cfg.top_m as int,
                    id,
                ),
    )
}

/// At least two inputs have a say, and one of them lists an item.
pub open spec fn debated<Id>(
    obs: Seq<ChannelInput<Id>>,
    registry: Map<Seq<char>, ChannelConfig>,
    channels: Map<Seq<char>, ChannelSummary>,
    cfg: DiscriminationConfig,
    discs: Seq<ChannelDiscrimination>,
) -> bool {
    &&& exists|i: int, j: int|
        i < j && #[trigger] votes(obs, registry, channels, cfg, discs, i) && #[trigger] votes(
            obs,
            registry,
            channels,
            cfg,
            discs,
            j,
        )
    &&& exists|i: int|
        #[trigger] votes(obs, registry, channels, cfg, discs, i) && obs[i].items.size() > 0
}

/// Lists of a size that can be held, with finite scores.
pub open spec fn readable_lists<Id>(obs: Seq<ChannelInput<Id>>) -> bool {
    forall|i: int|
        0 <= i < obs.len() ==> (#[trigger] obs[i]).items.size() <= usize::MAX && finite_scores(
            obs[i].items,
        )
}

/// What the diagnostics say: where at least two channels discriminate, confidence is the number
/// of ids among the best items of all of them over the number of ids among those of any, and
/// conflict is what is left to one; else both are zero. A channel below its neutral weight,
/// without a separation read or without a norm has no say in either.
pub proof fn lemma_diagnostics_are_of_discriminating_channels<Id>(
    obs: Seq<ChannelInput<Id>>,
    registry: Map<Seq<char>, ChannelConfig>,
    channels: Map<Seq<char>, ChannelSummary>,
    pairs: Map<(Seq<char>, Seq<char>), PairSummary>,
    cfg: FuseConfig,
    discs: Seq<ChannelDiscrimination>,
    fused: Fused<Id>,
)
    requires
        fuses_to(obs, registry, channels, pairs, cfg, discs, fused),
        readable_lists(obs),
        cfg.discrimination.top_m >= 1,
    ensures
        ({
            let d = cfg.discrimination;
            let all = agreed(obs, registry, channels, d, discs);
            let any = backed(obs, registry, channels, d, discs);
            if debated(obs, registry, channels, d, discs) {
                &&& fused.confidence == fdiv(fcount(all.len() as int), fcount(any.len() as int))
                &&& fused.conflict == fsub(fone(), fused.confidence)
            } else {
                fused.confidence == fzero() && fused.conflict == fzero()
            }
        }),
{
    let d = cfg.discrimination;
    let n = obs.len() as int;
    let m = d.top_m as int;
    let lists = top_lists(obs, registry, channels, d, discs, n);
    lemma_lists_of_voters(obs, registry, channels, d, discs, n);
    let all = agreed(obs, registry, channels, d, discs);
    let any = backed(obs, registry, channels, d, discs);
    assert forall|id: Id| in_any(lists).contains(id) == any.contains(id) by {
        if in_any(lists).contains(id) {
            let l = choose|l: int| 0 <= l < lists.len() && (#[trigger] lists[l]).contains(id);
            let i = choose|i: int|
                0 <= i < n && #[trigger] votes(obs, registry, channels, d, discs, i) && lists[l]
                    == top_ids(obs[i].items, m);
            assert(obs[i].items.size() <= usize::MAX);
            lemma_top_ids(obs[i].items, m, id);
        }
        if any.contains(id) {
            let i = choose|i: int|
                #[trigger] votes(obs, registry, channels, d, discs, i) && among_best(
                    obs[i].items,
                    m,
                    id,
                );
            assert(obs[i].items.size() <= usize::MAX);
            lemma_top_ids(obs[i].items, m, id);
            let x = top_ids(obs[i].items, m);
            assert(lists.contains(x));
            let l = choose|l: int| 0 <= l < lists.len() && lists[l] == x;
            assert(lists[l].contains(id));
        }
    }
    assert(in_any(lists) =~= any);
    assert forall|id: Id| in_all(lists).contains(id) == all.contains(id) by {
        if in_all(lists).contains(id) {
            assert forall|i: int| #[trigger]
                votes(obs, registry, channels, d, discs, i) implies among_best(
                obs[i].items,
                m,
                id,
            ) by {
                assert(obs[i].items.size() <= usize::MAX);
                let x = top_ids(obs[i].items, m);
                assert(lists.contains(x));
                let l = choose|l: int| 0 <= l < lists.len() && lists[l] == x;
                assert(lists[l].contains(id));
                lemma_top_ids(obs[i].items, m, id);
            }
        }
        if all.contains(id) {
            assert forall|l: int| 0 <= l < lists.len() implies (#[trigger] lists[l]).contains(id) by {
                let i = choose|i: int|
                    0 <= i < n && #[trigger] votes(obs, registry, channels, d, discs, i)
                        && lists[l] == top_ids(obs[i].items, m);
                assert(obs[i].items.size() <= usize::MAX);
                lemma_top_ids(obs[i].items, m, id);
            }
        }
    }
    assert(in_all(lists) =~= all);
    if exists|l: int| 0 <= l < lists.len() && (#[trigger] lists[l]).len() > 0 {
        let l = choose|l: int| 0 <= l < lists.len() && (#[trigger] lists[l]).len() > 0;
        let i = choose|i: int|
            0 <= i < n && #[trigger] votes(obs, registry, channels, d, discs, i) && lists[l]
                == top_ids(obs[i].items, m);
        assert(obs[i].items.size() > 0);
    }
    if exists|i: int|
        #[trigger] votes(obs, registry, channels, d, discs, i) && obs[i].items.size() > 0 {
        let i = choose|i: int|
            #[trigger] votes(obs, registry, channels, d, discs, i) && obs[i].items.size() > 0;
        let x = top_ids(obs[i].items, m);
        assert(lists.contains(x));
        let l = choose|l: int| 0 <= l < lists.len() && lists[l] == x;
        assert(lists[l].len() > 0);
    }
    if debated(obs, registry, channels, d, discs) {
        let (i, j) = choose|i: int, j: int|
            i < j && #[trigger] votes(obs, registry, channels, d, discs, i) && #[trigger] votes(
                obs,
                registry,
                channels,
                d,
                discs,
                j,
            );
        assert(0 <= i < j < n);
    }
}

/// A channel below its neutral weight has no say: whatever items it lists instead, confidence
/// and conflict stay what they are.
pub proof fn lemma_weak_channels_have_no_say<Id>(
    obs: Seq<ChannelInput<Id>>,
    other: Seq<ChannelInput<Id>>,
    registry: Map<Seq<char>, ChannelConfig>,
    channels: Map<Seq<char>, ChannelSummary>,
    pairs: Map<(Seq<char>, Seq<char>), PairSummary>,
    cfg: FuseConfig,
    discs: Seq<ChannelDiscrimination>,
    fused: Fused<Id>,
    again: Fused<Id>,
    c: int,
)
    requires
        fuses_to(obs, registry, channels, pairs, cfg, discs, fused),
        fuses_to(other, registry, channels, pairs, cfg, discs, again),
        readable_lists(obs),
        readable_lists(other),
        cfg.discrimination.top_m >= 1,
        other.len() == obs.len(),
        0 <= c < obs.len(),
        other[c].key@ == obs[c].key@,
        flt(discs[c].g, fone()),
        forall|i: int| 0 <= i < obs.len() && i != c ==> #[trigger] other[i] == obs[i],
    ensures
        again.confidence == fused.confidence,
        again.conflict == fused.conflict,
{
    let d = cfg.discrimination;
    lemma_diagnostics_are_of_discriminating_channels(
        obs,
        registry,
        channels,
        pairs,
        cfg,
        discs,
        fused,
    );
    lemma_diagnostics_are_of_discriminating_channels(
        other,
        registry,
        channels,
        pairs,
        cfg,
        discs,
        again,
    );
    assert forall|i: int| #[trigger]
        votes(obs, registry, channels, d, discs, i) == votes(
            other,
            registry,
            channels,
            d,
            discs,
            i,
        ) by {
        if 0 <= i < obs.len() {
            assert(other[i].key@ == obs[i].key@) by {
                if i != c {
                    assert(other[i] == obs[i]);
                }
            }
            assert forall|j: int| 0 <= j < obs.len() implies (#[trigger] other[j]).key@
                == obs[j].key@ by {
                if j != c {
                    assert(other[j] == obs[j]);
                }
            }
            assert forall|j: int| 0 <= j < obs.len() implies (#[trigger] obs[j]).key@
                == other[j].key@ by {
                assert(other[j].key@ == obs[j].key@);
            }
        }
    }
    assert forall|i: int| #[trigger] votes(obs, registry, channels, d, discs, i) implies other[i]
        == obs[i] by {
        assert(i != c);
    }
    assert forall|i: int| #[trigger] votes(other, registry, channels, d, discs, i) implies votes(
        obs,
        registry,
        channels,
        d,
        discs,
        i,
    ) && other[i] == obs[i] by {
        assert(votes(obs, registry, channels, d, discs, i) == votes(
            other,
            registry,
            channels,
            d,
            discs,
            i,
        ));
    }
    assert forall|id: Id|
        agreed(obs, registry, channels, d, discs).contains(id) == agreed(
            other,
            registry,
            channels,
            d,
            discs,
        ).contains(id) by {
        if agreed(obs, registry, channels, d, discs).contains(id) {
            assert forall|i: int| #[trigger]
                votes(other, registry, channels, d, discs, i) implies among_best(
                other[i].items,
                d.top_m as int,
                id,
            ) by {
                assert(votes(obs, registry, channels, d, discs, i));
            }
        }
        if agreed(other, registry, channels, d, discs).contains(id) {
            assert forall|i: int| #[trigger]
                votes(obs, registry, channels, d, discs, i) implies among_best(
                obs[i].items,
                d.top_m as int,
                id,
            ) by {
                assert(votes(other, registry, channels, d, discs, i));
            }
        }
    }
    assert forall|id: Id|
        backed(obs, registry, channels, d, discs).contains(id) == backed(
            other,
            registry,
            channels,
            d,
            discs,
        ).contains(id) by {
        if backed(obs, registry, channels, d, discs).contains(id) {
            let i = choose|i: int|
                #[trigger] votes(obs, registry, channels, d, discs, i) && among_best(
                    obs[i].items,
                    d.top_m as int,
                    id,
                );
            assert(votes(other, registry, channels, d, discs, i));
        }
        if backed(other, registry, channels, d, discs).contains(id) {
            let i = choose|i: int|
                #[trigger] votes(other, registry, channels, d, discs, i) && among_best(
                    other[i].items,
                    d.top_m as int,
                    id,
                );
            assert(votes(obs, registry, channels, d, discs, i));
        }
    }
    assert(agreed(obs, registry, channels, d, discs) =~= agreed(
        other,
        registry,
        channels,
        d,
        discs,
    ));
    assert(backed(obs, registry, channels, d, discs) =~= backed(
        other,
        registry,
        channels,
        d,
        discs,
    ));
    if debated(obs, registry, channels, d, discs) {
        let (i, j) = choose|i: int, j: int|
            i < j && #[trigger] votes(obs, registry, channels, d, discs, i) && #[trigger] votes(
                obs,
                registry,
                channels,
                d,
                discs,
                j,
            );
        assert(votes(other, registry, channels, d, discs, i));
        assert(votes(other, registry, channels, d, discs, j));
        let h = choose|h: int|
            #[trigger] votes(obs, registry, channels, d, discs, h) && obs[h].items.size() > 0;
        assert(votes(other, registry, channels, d, discs, h));
    }
    if debated(other, registry, channels, d, discs) {
        let (i, j) = choose|i: int, j: int|
            i < j && #[trigger] votes(other, registry, channels, d, discs, i) && #[trigger] votes(
                other,
                registry,
                channels,
                d,
                discs,
                j,
            );
        assert(votes(obs, registry, channels, d, discs, i));
        assert(votes(obs, registry, channels, d, discs, j));
        let h = choose|h: int|
            #[trigger] votes(other, registry, channels, d, discs, h) && other[h].items.size() > 0;
        assert(votes(obs, registry, channels, d, discs, h));
    }
}

} // verus!
