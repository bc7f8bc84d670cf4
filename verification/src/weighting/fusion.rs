//! Weighted reciprocal-rank fusion.
//!
//! Each item's fused score sums `weight / (eta + rank)` over the channels that surfaced
//! it. An item absent from a channel's list is omitted from that channel's contribution
//! rather than charged a worst-rank penalty.
//!
//! A scored channel is ranked by descending score, tied scores sharing their midrank, the
//! average of the ranks the tie spans; a ranks-only channel is already in rank order. The
//! fused order is by score, and exact ties are broken by where an id was first seen, so
//! the result never depends on a hash seed.
use crate::config::RrfConfig;
use crate::double::{fadd, fcount, fdiv, fone, fzero, Double};
use crate::identity::identifies;
use crate::ingest::input::{ChannelInput, Items};
use crate::numeric::{
    descending_keys, keys_descending, midrank, midranks_by, order_by, order_of,
};
use crate::ordered::OrderedMap;
use crate::sorting::sorts;
use crate::weighting::discrimination::pool_scores;
use std::collections::HashMap;
use std::hash::Hash;
use vstd::prelude::*;

verus! {

/// The distinct ids of the channels before `i` and of the first `j` items of channel `i`,
/// in the order in which they are first seen.
pub open spec fn seen<Id>(obs: Seq<ChannelInput<Id>>, i: int, j: int) -> Seq<Id>
    decreases i, j,
{
    if 0 <= i && j > 0 {
        let before = seen(obs, i, j - 1);
        let id = obs[i].items.id_at(j - 1);
        if before.contains(id) {
            before
        } else {
            before.push(id)
        }
    } else if i > 0 {
        seen(obs, i - 1, obs[i - 1].items.size() as int)
    } else {
        Seq::empty()
    }
}

/// All distinct ids, in the order in which they are first seen.
pub open spec fn surfaced<Id>(obs: Seq<ChannelInput<Id>>) -> Seq<Id> {
    seen(obs, obs.len() as int, 0)
}

/// The positions of a channel's items, best first.
pub open spec fn walk<Id>(items: Items<Id>) -> Seq<usize> {
    match items {
        Items::Ranks(v) => Seq::new(v@.len(), |i: int| i as usize),
        Items::Scored(v) => order_of(descending_keys(pool_scores(v@))),
    }
}

/// The rank of a channel's item, counted from one; tied scores share their midrank.
pub open spec fn rank_at<Id>(items: Items<Id>, p: int) -> Double {
    match items {
        Items::Ranks(v) => fcount(p + 1),
        Items::Scored(v) => midrank(descending_keys(pool_scores(v@)), p),
    }
}

/// The weight of a channel; one that has none is neutral.
pub open spec fn weight_for(weights: Map<Seq<char>, Double>, key: Seq<char>) -> Double {
    if weights.contains_key(key) {
        weights[key]
    } else {
        fone()
    }
}

/// A score with a channel's contributions to an id added, over the `n` best items.
pub open spec fn gathered<Id>(
    items: Items<Id>,
    id: Id,
    weight: Double,
    eta: Double,
    start: Double,
    n: int,
) -> Double
    decreases n,
{
    if n <= 0 {
        start
    } else {
        let before = gathered(items, id, weight, eta, start, n - 1);
        let p = walk(items)[n - 1] as int;
        if items.id_at(p) == id {
            fadd(before, fdiv(weight, fadd(eta, rank_at(items, p))))
        } else {
            before
        }
    }
}

/// The fused score of an id over the first `n` channels.
pub open spec fn fused_score<Id>(
    obs: Seq<ChannelInput<Id>>,
    weights: Map<Seq<char>, Double>,
    eta: Double,
    id: Id,
    n: int,
) -> Double
    decreases n,
{
    if n <= 0 {
        fzero()
    } else {
        gathered(
            obs[n - 1].items,
            id,
            weight_for(weights, obs[n - 1].key@),
            eta,
            fused_score(obs, weights, eta, id, n - 1),
            obs[n - 1].items.size() as int,
        )
    }
}

/// The fused scores of all surfaced ids, in the order in which they are first seen.
pub open spec fn fused_scores<Id>(
    obs: Seq<ChannelInput<Id>>,
    weights: Map<Seq<char>, Double>,
    eta: Double,
) -> Seq<Double> {
    Seq::new(
        surfaced(obs).len(),
        |k: int| fused_score(obs, weights, eta, surfaced(obs)[k], obs.len() as int),
    )
}

/// The fused ranking: every surfaced id with its score, larger scores first, ties in the
/// order in which the ids are first seen.
pub open spec fn fused_ranking<Id>(
    obs: Seq<ChannelInput<Id>>,
    weights: Map<Seq<char>, Double>,
    eta: Double,
) -> Seq<(Id, Double)> {
    let scores = fused_scores(obs, weights, eta);
    let order = order_of(descending_keys(scores));
    Seq::new(scores.len(), |i: int| (surfaced(obs)[order[i] as int], scores[order[i] as int]))
}

/// The inputs behind a list of references.
pub open spec fn inputs<Id>(refs: Seq<&ChannelInput<Id>>) -> Seq<ChannelInput<Id>> {
    Seq::new(refs.len(), |i: int| *refs[i])
}

/// The places of the ids in first-seen order.
spec fn numbers<Id>(order: Seq<Id>, places: Map<Id, usize>) -> bool {
    &&& order.no_duplicates()
    &&& forall|id: Id| #[trigger] places.contains_key(id) <==> order.contains(id)
    &&& forall|k: int| 0 <= k < order.len() ==> places[#[trigger] order[k]] == k
}

fn id_ref<Id>(items: &Items<Id>, i: usize) -> (id: &Id)
    requires
        i < items.size(),
    ensures
        *id == items.id_at(i as int),
{
    match items {
        Items::Scored(v) => &v[i].0,
        Items::Ranks(v) => &v[i],
    }
}

/// Fuses ranked channel outputs into one ranking by weighted reciprocal-rank fusion.
///
/// A channel that has no weight is neutral, and a weight of zero mutes a channel. Each
/// channel's list should hold distinct ids: a repeated id is counted once per occurrence.
#[must_use]
pub fn weighted_rrf<Id: Hash + Eq + Clone>(
    obs: &[ChannelInput<Id>],
    weights: &OrderedMap<String, Double>,
    cfg: &RrfConfig,
) -> (ranking: Vec<(Id, Double)>)
    requires
        identifies::<Id>(),
        weights.wf(),
    ensures
        ranking@ == fused_ranking(obs@, weights@, cfg.rrf_eta),
{
    let mut refs: Vec<&ChannelInput<Id>> = Vec::new();
    let mut i: usize = 0;
    while i < obs.len()
        invariant
            i <= obs@.len(),
            refs@.len() == i,
            forall|h: int| 0 <= h < i ==> *(#[trigger] refs@[h]) == obs@[h],
        decreases obs@.len() - i,
    {
        refs.push(&obs[i]);
        i += 1;
    }
    assert(inputs(refs@) =~= obs@);
    fuse_inputs(refs.as_slice(), weights, cfg)
}

/// Numbers each distinct id by its first appearance.
fn number_ids<Id: Hash + Eq + Clone>(obs: &[&ChannelInput<Id>]) -> (r: (
    Vec<Id>,
    HashMap<Id, usize>,
))
    requires
        identifies::<Id>(),
    ensures
        r.0@ == surfaced(inputs(obs@)),
        numbers(r.0@, r.1@),
{
    broadcast use vstd::std_specs::hash::group_hash_axioms;

    let mut order: Vec<Id> = Vec::new();
    let mut places: HashMap<Id, usize> = HashMap::new();
    let mut i: usize = 0;
    while i < obs.len()
        invariant
            identifies::<Id>(),
            i <= inputs(obs@).len(),
            order@ == seen(inputs(obs@), i as int, 0),
            numbers(order@, places@),
        decreases inputs(obs@).len() - i,
    {
        let items = &obs[i].items;
        let n: usize = items.len();
        let mut j: usize = 0;
        while j < n
            invariant
                identifies::<Id>(),
                i < inputs(obs@).len(),
                *items == inputs(obs@)[i as int].items,
                n == items.size(),
                j <= n,
                order@ == seen(inputs(obs@), i as int, j as int),
                numbers(order@, places@),
            decreases n - j,
        {
            let id = id_ref(items, j);
            let ghost before = order@;
            let ghost known = places@;
            if !places.contains_key(id) {
                let next: usize = order.len();
                places.insert(id.clone(), next);
                order.push(id.clone());
                proof {
                    assert(!before.contains(*id));
                    assert forall|x: Id| #[trigger] places@.contains_key(x) <==> order@.contains(
                        x,
                    ) by {
                        if before.contains(x) {
                            let h = choose|h: int| 0 <= h < before.len() && before[h] == x;
                            assert(order@[h] == x);
                        }
                        if order@.contains(x) {
                            let h = choose|h: int| 0 <= h < order@.len() && order@[h] == x;
                            if h < before.len() {
                                assert(before[h] == x);
                                assert(before.contains(x));
                            }
                        }
                        assert(order@[before.len() as int] == *id);
                    }
                    assert forall|k: int| 0 <= k < order@.len() implies places@[#[trigger] order@[k]]
                        == k by {
                        if k < before.len() {
                            assert(before[k] == order@[k]);
                            assert(before.contains(before[k]));
                            assert(order@[k] != *id);
                        }
                    }
                }
            }
            j += 1;
        }
        assert(seen(inputs(obs@), i as int, n as int) == seen(inputs(obs@), i + 1, 0));
        i += 1;
    }
    (order, places)
}

/// The scores of a channel's pool.
fn scores_of<Id>(v: &Vec<(Id, Double)>) -> (scores: Vec<Double>)
    ensures
        scores@ == pool_scores(v@),
{
    let mut scores: Vec<Double> = Vec::new();
    let mut i: usize = 0;
    while i < v.len()
        invariant
            i <= v@.len(),
            scores@.len() == i,
            forall|h: int| 0 <= h < i ==> #[trigger] scores@[h] == v@[h].1,
        decreases v@.len() - i,
    {
        scores.push(v[i].1);
        i += 1;
    }
    assert(scores@ =~= pool_scores(v@));
    scores
}

/// The positions of a channel's items, best first, with the rank of each position.
pub fn rank_items<Id>(items: &Items<Id>) -> (r: (Vec<usize>, Vec<Double>))
    ensures
        r.0@ == walk(*items),
        r.0@.len() == items.size(),
        forall|t: int| 0 <= t < r.0@.len() ==> (#[trigger] r.0@[t]) < items.size(),
        r.1@.len() == items.size(),
        forall|p: int| 0 <= p < r.1@.len() ==> #[trigger] r.1@[p] == rank_at(*items, p),
{
    match items {
        Items::Ranks(v) => {
            let mut order: Vec<usize> = Vec::new();
            let mut ranks: Vec<Double> = Vec::new();
            let mut i: usize = 0;
            while i < v.len()
                invariant
                    i <= v@.len(),
                    order@.len() == i,
                    ranks@.len() == i,
                    forall|h: int| 0 <= h < i ==> #[trigger] order@[h] == h,
                    forall|h: int| 0 <= h < i ==> #[trigger] ranks@[h] == fcount(h + 1),
                decreases v@.len() - i,
            {
                order.push(i);
                ranks.push(Double::of_sum(i, 1));
                i += 1;
            }
            assert(order@ =~= walk(*items));
            (order, ranks)
        },
        Items::Scored(v) => {
            let scores = scores_of(v);
            let keys = keys_descending(scores.as_slice());
            let order = order_by(&keys);
            let ranks = midranks_by(&keys);
            (order, ranks)
        },
    }
}

/// Fuses ranked channel outputs into one ranking by weighted reciprocal-rank fusion.
pub fn fuse_inputs<Id: Hash + Eq + Clone>(
    obs: &[&ChannelInput<Id>],
    weights: &OrderedMap<String, Double>,
    cfg: &RrfConfig,
) -> (ranking: Vec<(Id, Double)>)
    requires
        identifies::<Id>(),
        weights.wf(),
    ensures
        ranking@ == fused_ranking(inputs(obs@), weights@, cfg.rrf_eta),
{
    let (order, places) = number_ids(obs);
    let scores = accumulate(obs, weights, cfg.rrf_eta, &order, &places);
    let ghost wanted = fused_scores(inputs(obs@), weights@, cfg.rrf_eta);
    assert(scores@ =~= wanted);
    let keys = keys_descending(scores.as_slice());
    let places = order_by(&keys);
    let mut ranking: Vec<(Id, Double)> = Vec::new();
    let mut i: usize = 0;
    while i < places.len()
        invariant
            identifies::<Id>(),
            order@ == surfaced(inputs(obs@)),
            scores@ == wanted,
            wanted == fused_scores(inputs(obs@), weights@, cfg.rrf_eta),
            scores@.len() == order@.len(),
            places@ == order_of(descending_keys(wanted)),
            sorts(descending_keys(wanted), places@),
            i <= places@.len(),
            ranking@.len() == i,
            forall|h: int|
                0 <= h < i ==> #[trigger] ranking@[h] == (
                    order@[places@[h] as int],
                    scores@[places@[h] as int],
                ),
        decreases places@.len() - i,
    {
        let p: usize = places[i];
        ranking.push((order[p].clone(), scores[p]));
        i += 1;
    }
    assert(ranking@ =~= fused_ranking(inputs(obs@), weights@, cfg.rrf_eta));
    ranking
}

/// Sums every channel's contributions to every id.
fn accumulate<Id: Hash + Eq + Clone>(
    obs: &[&ChannelInput<Id>],
    weights: &OrderedMap<String, Double>,
    eta: Double,
    order: &Vec<Id>,
    places: &HashMap<Id, usize>,
) -> (scores: Vec<Double>)
    requires
        identifies::<Id>(),
        weights.wf(),
        order@ == surfaced(inputs(obs@)),
        numbers(order@, places@),
    ensures
        scores@ == fused_scores(inputs(obs@), weights@, eta),
{
    let mut scores: Vec<Double> = Vec::new();
    while scores.len() < order.len()
        invariant
            scores@.len() <= order@.len(),
            forall|k: int| 0 <= k < scores@.len() ==> #[trigger] scores@[k] == fzero(),
        decreases order@.len() - scores@.len(),
    {
        scores.push(Double::zero());
    }
    let mut i: usize = 0;
    while i < obs.len()
        invariant
            identifies::<Id>(),
            weights.wf(),
            order@ == surfaced(inputs(obs@)),
            numbers(order@, places@),
            i <= inputs(obs@).len(),
            scores@.len() == order@.len(),
            forall|k: int|
                0 <= k < order@.len() ==> #[trigger] scores@[k] == fused_score(
                    inputs(obs@),
                    weights@,
                    eta,
                    order@[k],
                    i as int,
                ),
        decreases inputs(obs@).len() - i,
    {
        let weight = match weights.get(&obs[i].key) {
            Some(w) => *w,
            None => Double::one(),
        };
        proof {
            lemma_seen_all(inputs(obs@), i as int, inputs(obs@)[i as int].items.size() as int);
        }
        gather(&obs[i].items, weight, eta, order, places, &mut scores);
        i += 1;
    }
    assert(scores@ =~= fused_scores(inputs(obs@), weights@, eta));
    scores
}

/// Adds one channel's contributions to the scores.
fn gather<Id: Hash + Eq + Clone>(
    items: &Items<Id>,
    weight: Double,
    eta: Double,
    order: &Vec<Id>,
    places: &HashMap<Id, usize>,
    scores: &mut Vec<Double>,
)
    requires
        identifies::<Id>(),
        numbers(order@, places@),
        old(scores)@.len() == order@.len(),
        forall|p: int| 0 <= p < items.size() ==> order@.contains(#[trigger] items.id_at(p)),
    ensures
        final(scores)@.len() == order@.len(),
        forall|k: int|
            0 <= k < order@.len() ==> #[trigger] final(scores)@[k] == gathered(
                *items,
                order@[k],
                weight,
                eta,
                old(scores)@[k],
                items.size() as int,
            ),
{
    broadcast use vstd::std_specs::hash::group_hash_axioms;

    let ghost start = scores@;
    let (positions, ranks) = rank_items(items);
    let mut t: usize = 0;
    while t < positions.len()
        invariant
            identifies::<Id>(),
            numbers(order@, places@),
            positions@ == walk(*items),
            positions@.len() == items.size(),
            forall|h: int| 0 <= h < positions@.len() ==> (#[trigger] positions@[h]) < items.size(),
            ranks@.len() == items.size(),
            forall|p: int| 0 <= p < ranks@.len() ==> #[trigger] ranks@[p] == rank_at(*items, p),
            forall|p: int| 0 <= p < items.size() ==> order@.contains(#[trigger] items.id_at(p)),
            t <= positions@.len(),
            scores@.len() == order@.len(),
            start.len() == order@.len(),
            forall|k: int|
                0 <= k < order@.len() ==> #[trigger] scores@[k] == gathered(
                    *items,
                    order@[k],
                    weight,
                    eta,
                    start[k],
                    t as int,
                ),
        decreases positions@.len() - t,
    {
        let p: usize = positions[t];
        let id = id_ref(items, p);
        assert(order@.contains(items.id_at(p as int)));
        match places.get(id) {
            Some(place) => {
                let k: usize = *place;
                proof {
                    let h = choose|h: int| 0 <= h < order@.len() && order@[h] == *id;
                    assert(places@[order@[h]] == h);
                    assert(h == k);
                }
                let ghost before = scores@;
                let score = scores[k] + weight / (eta + ranks[p]);
                scores.set(k, score);
                proof {
                    assert forall|x: int| 0 <= x < order@.len() implies #[trigger] scores@[x]
                        == gathered(*items, order@[x], weight, eta, start[x], t + 1) by {
                        assert(before[x] == gathered(
                            *items,
                            order@[x],
                            weight,
                            eta,
                            start[x],
                            t as int,
                        ));
                        if x != k {
                            assert(order@[x] != order@[k as int]);
                        }
                    }
                }
            },
            None => {
                assert(false);
            },
        }
        t += 1;
    }
}

/// Every id of a channel is among those seen once the channel has been walked.
pub proof fn lemma_seen_all<Id>(obs: Seq<ChannelInput<Id>>, i: int, n: int)
    requires
        0 <= i < obs.len(),
        0 <= n <= obs[i].items.size(),
    ensures
        forall|p: int| 0 <= p < n ==> surfaced(obs).contains(#[trigger] obs[i].items.id_at(p)),
{
    assert forall|p: int| 0 <= p < n implies surfaced(obs).contains(
        #[trigger] obs[i].items.id_at(p),
    ) by {
        let id = obs[i].items.id_at(p);
        let before = seen(obs, i, p);
        assert(seen(obs, i, p + 1).contains(id)) by {
            if !before.contains(id) {
                assert(before.push(id)[before.len() as int] == id);
            }
        }
        lemma_seen_stays(obs, i, p + 1, id);
    }
}

/// An id once seen stays.
proof fn lemma_seen_stays<Id>(obs: Seq<ChannelInput<Id>>, i: int, j: int, id: Id)
    requires
        0 <= i < obs.len(),
        0 <= j <= obs[i].items.size(),
        seen(obs, i, j).contains(id),
    ensures
        surfaced(obs).contains(id),
    decreases obs.len() - i, obs[i].items.size() - j,
{
    if j < obs[i].items.size() {
        let before = seen(obs, i, j);
        let next = obs[i].items.id_at(j);
        let h = choose|h: int| 0 <= h < before.len() && before[h] == id;
        assert(seen(obs, i, j + 1).contains(id)) by {
            if !before.contains(next) {
                assert(before.push(next)[h] == id);
            }
        }
        lemma_seen_stays(obs, i, j + 1, id);
    } else {
        assert(seen(obs, i, j) == seen(obs, i + 1, 0)) by {
            assert(seen(obs, i + 1, 0) == seen(obs, i, obs[i].items.size() as int));
        }
        if i + 1 < obs.len() {
            lemma_seen_stays(obs, i + 1, 0, id);
        }
    }
}

} // verus!
