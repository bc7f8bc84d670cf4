use ruffle::components;
use ruffle::{ChannelInput, Double, Items, OrderedMap, RrfConfig};
use std::collections::BTreeMap;

fn d(x: f64) -> Double {
    Double::from_bits(x.to_bits())
}

fn f(x: Double) -> f64 {
    f64::from_bits(x.to_bits())
}

fn weighted_rrf(
    obs: &[ChannelInput<u32>],
    weights: &BTreeMap<String, f64>,
    cfg: &RrfConfig,
) -> Vec<(u32, f64)> {
    let mut map = OrderedMap::new();
    for (k, w) in weights {
        map.insert(k.clone(), d(*w));
    }
    let out = components::weighted_rrf(obs, &map, cfg);
    out.into_iter().map(|(id, s)| (id, f(s))).collect()
}

const EPS: f64 = 1e-12;

fn scored(key: &str, v: Vec<(u32, f64)>) -> ChannelInput<u32> {
    ChannelInput {
        key: key.to_string(),
        items: Items::Scored(v.into_iter().map(|(id, s)| (id, d(s))).collect()),
    }
}

fn ranks(key: &str, v: Vec<u32>) -> ChannelInput<u32> {
    ChannelInput {
        key: key.to_string(),
        items: Items::Ranks(v),
    }
}

fn weights(pairs: &[(&str, f64)]) -> BTreeMap<String, f64> {
    pairs.iter().map(|(k, w)| (k.to_string(), *w)).collect()
}

/// An [`RrfConfig`] with a chosen rank constant `η`, for the fusion calls below.
fn rrf(eta: f64) -> RrfConfig {
    let mut cfg = RrfConfig::default();
    cfg.rrf_eta = d(eta);
    cfg
}

fn score_of(out: &[(u32, f64)], id: u32) -> Option<f64> {
    out.iter().find(|(i, _)| *i == id).map(|(_, s)| *s)
}

fn ids(out: &[(u32, f64)]) -> Vec<u32> {
    out.iter().map(|(i, _)| *i).collect()
}

fn approx(a: f64, b: f64) {
    assert!((a - b).abs() < EPS, "expected {b}, got {a}");
}

// A deterministic Fisher-Yates shuffle (fixed-seed LCG) so "rank-equivalent
// reordering" tests are reproducible without a `rand` dependency.
fn lcg_shuffle<T>(mut v: Vec<T>, mut seed: u64) -> Vec<T> {
    for i in (1..v.len()).rev() {
        seed = seed
            .wrapping_mul(6364136223846793005)
            .wrapping_add(1442695040888963407);
        let j = (seed >> 33) as usize % (i + 1);
        v.swap(i, j);
    }
    v
}

// Two scored channels, eta = 1, neutral weights. Exact scores and order.
//
//   A: (1,0.9) (2,0.5) (3,0.1)  -> ranks 1,2,3
//   B: (1,0.8) (2,0.4)          -> ranks 1,2
//   item1 = 1/2 + 1/2 = 1.0 ; item2 = 1/3 + 1/3 ; item3 = 1/4 (A only)
#[test]
fn hand_case_exact_scores_and_order() {
    let obs = vec![
        scored("a", vec![(1, 0.9), (2, 0.5), (3, 0.1)]),
        scored("b", vec![(1, 0.8), (2, 0.4)]),
    ];
    let out = weighted_rrf(&obs, &BTreeMap::new(), &rrf(1.0));
    approx(score_of(&out, 1).unwrap(), 1.0);
    approx(score_of(&out, 2).unwrap(), 1.0 / 3.0 + 1.0 / 3.0);
    approx(score_of(&out, 3).unwrap(), 0.25);
    assert_eq!(ids(&out), vec![1, 2, 3]);
}

// An item appearing in several channels sums its per-channel contributions.
#[test]
fn appears_in_several_channels_sums() {
    let obs = vec![
        ranks("a", vec![7]),
        ranks("b", vec![7]),
        ranks("c", vec![7]),
    ];
    let out = weighted_rrf(&obs, &BTreeMap::new(), &rrf(1.0));
    // rank 1 in each of three channels: 3 * 1/(1+1).
    approx(score_of(&out, 7).unwrap(), 3.0 * 0.5);
}

// Absence omits, never penalizes: a strong single-channel item is not pushed below
// items that merely appear in more channels at weaker ranks. `solo` keeps exactly
// its one-channel mass and outranks `multi`, which spreads across three channels.
#[test]
fn absence_is_omission_not_penalty() {
    // solo (id 1) is rank 1 in A only; multi (id 100) is rank 6 in B, C, and D.
    // Distinct padding ids keep each channel's ranks well-defined.
    let obs = vec![
        ranks("a", vec![1]),
        ranks("b", vec![10, 11, 12, 13, 14, 100]),
        ranks("c", vec![20, 21, 22, 23, 24, 100]),
        ranks("d", vec![30, 31, 32, 33, 34, 100]),
    ];
    let out = weighted_rrf(&obs, &BTreeMap::new(), &rrf(1.0));
    // solo (id 1): rank 1 in A only -> exactly 1/(1+1) = 0.5. No penalty added for
    // its absence from b/c/d.
    approx(score_of(&out, 1).unwrap(), 0.5);
    // multi (id 100): rank 6 in three channels -> 3 * 1/(1+6) = 3/7 ≈ 0.4286.
    approx(score_of(&out, 100).unwrap(), 3.0 / 7.0);
    // Despite appearing in three channels, multi does not outrank the absent-from-
    // three solo item.
    assert!(score_of(&out, 1).unwrap() > score_of(&out, 100).unwrap());
    let order = ids(&out);
    let pos1 = order.iter().position(|&x| x == 1).unwrap();
    let pos100 = order.iter().position(|&x| x == 100).unwrap();
    assert!(pos1 < pos100);
}

// Doubling a channel's weight scales its contribution by two.
#[test]
fn doubling_weight_scales_contribution() {
    let obs = vec![scored("a", vec![(1, 0.9)])];
    let base = weighted_rrf(&obs, &weights(&[("a", 1.0)]), &rrf(1.0));
    let doubled = weighted_rrf(&obs, &weights(&[("a", 2.0)]), &rrf(1.0));
    approx(score_of(&base, 1).unwrap(), 0.5);
    approx(score_of(&doubled, 1).unwrap(), 1.0);
    approx(
        score_of(&doubled, 1).unwrap(),
        2.0 * score_of(&base, 1).unwrap(),
    );
}

// Only the reweighted channel scales; the other channel's contribution is unchanged.
#[test]
fn reweighting_one_channel_leaves_others() {
    let obs = vec![ranks("a", vec![5]), ranks("b", vec![5])];
    let out = weighted_rrf(&obs, &weights(&[("a", 3.0)]), &rrf(1.0));
    // a contributes 3 * 1/2, b (missing weight -> 1.0) contributes 1/2.
    approx(score_of(&out, 5).unwrap(), 3.0 * 0.5 + 0.5);
}

// Equal weights reduce to standard (unweighted) RRF.
#[test]
fn equal_weights_reduce_to_standard_rrf() {
    let obs = vec![
        scored("a", vec![(1, 0.9), (2, 0.5)]),
        scored("b", vec![(2, 0.7), (1, 0.3)]),
    ];
    let eta = 60.0;
    let weighted = weighted_rrf(&obs, &weights(&[("a", 1.0), ("b", 1.0)]), &rrf(eta));
    // Standard RRF by hand: ranks are A:{1->1,2->2}, B:{2->1,1->2}.
    let std_1 = 1.0 / (eta + 1.0) + 1.0 / (eta + 2.0);
    let std_2 = 1.0 / (eta + 2.0) + 1.0 / (eta + 1.0);
    approx(score_of(&weighted, 1).unwrap(), std_1);
    approx(score_of(&weighted, 2).unwrap(), std_2);
    // Neutral default (empty map) matches explicit equal weights.
    let neutral = weighted_rrf(&obs, &BTreeMap::new(), &rrf(eta));
    assert_eq!(weighted, neutral);
}

// Absolute rank is depth-robust: an item at rank 3 contributes the same in a pool
// of 5 and a pool of 500.
#[test]
fn depth_robust_absolute_rank() {
    let eta = 60.0;
    let shallow: Vec<u32> = vec![1, 2, 999, 4, 5]; // 999 at index 2 -> rank 3
    let mut deep: Vec<u32> = vec![1, 2, 999];
    deep.extend(1000..1497); // pad to depth 500, 999 still at rank 3
    assert_eq!(deep.len(), 500);

    let out_shallow = weighted_rrf(&[ranks("a", shallow)], &BTreeMap::new(), &rrf(eta));
    let out_deep = weighted_rrf(&[ranks("a", deep)], &BTreeMap::new(), &rrf(eta));

    let expected = 1.0 / (eta + 3.0);
    approx(score_of(&out_shallow, 999).unwrap(), expected);
    approx(score_of(&out_deep, 999).unwrap(), expected);
    approx(
        score_of(&out_shallow, 999).unwrap(),
        score_of(&out_deep, 999).unwrap(),
    );
}

// Rank-equivalent reorderings of a scored list (distinct scores -> same rank order)
// produce an identical fused result.
#[test]
fn determinism_under_rank_equivalent_reordering() {
    let base = scored("a", vec![(1, 0.9), (2, 0.7), (3, 0.5), (4, 0.3), (5, 0.1)]);
    let canonical = weighted_rrf(std::slice::from_ref(&base), &BTreeMap::new(), &rrf(30.0));
    let original = match &base.items {
        Items::Scored(v) => v.iter().map(|(id, s)| (*id, f(*s))).collect::<Vec<_>>(),
        Items::Ranks(_) => unreachable!(),
    };
    for seed in [1u64, 42, 12345, 9_999_999] {
        let shuffled = lcg_shuffle(original.clone(), seed);
        let obs = vec![scored("a", shuffled)];
        let out = weighted_rrf(&obs, &BTreeMap::new(), &rrf(30.0));
        assert_eq!(out, canonical, "reordering with seed {seed} changed output");
    }
}

// Running twice yields a byte-identical Vec, independent of the per-call HashMap
// seed. Includes score ties so the tiebreak path is exercised.
#[test]
fn determinism_two_runs_identical() {
    let obs = vec![
        scored("a", vec![(10, 0.5), (20, 0.5), (30, 0.5)]), // all tied
        ranks("b", vec![30, 10, 20]),
    ];
    let w = weights(&[("a", 1.5), ("b", 0.5)]);
    let first = weighted_rrf(&obs, &w, &rrf(7.0));
    let second = weighted_rrf(&obs, &w, &rrf(7.0));
    assert_eq!(first, second);
}

// Within a channel, tied scores share their midrank: both members of a two-way tie
// at the top take rank 1.5 and identical contributions; the fused order between
// them falls to the first-seen tiebreak.
#[test]
fn within_channel_ties_share_their_midrank() {
    // Both score 0.5: ranks 1 and 2 average to 1.5, contribution 1/(1+1.5) each.
    let obs = vec![scored("a", vec![(100, 0.5), (200, 0.5)])];
    let out = weighted_rrf(&obs, &BTreeMap::new(), &rrf(1.0));
    approx(score_of(&out, 100).unwrap(), 1.0 / 2.5);
    approx(score_of(&out, 200).unwrap(), 1.0 / 2.5);
    // Equal fused scores: first-seen order decides the output order.
    assert_eq!(ids(&out), vec![100, 200]);

    // A three-way tie below a distinct top: top takes rank 1, the tie spans ranks
    // 2..4 and shares midrank 3.
    let obs = vec![scored("a", vec![(1, 0.9), (10, 0.5), (20, 0.5), (30, 0.5)])];
    let out = weighted_rrf(&obs, &BTreeMap::new(), &rrf(1.0));
    approx(score_of(&out, 1).unwrap(), 1.0 / 2.0);
    for id in [10, 20, 30] {
        approx(score_of(&out, id).unwrap(), 1.0 / 4.0);
    }
}

// A tie carries no ordering information, so reordering tied items must not move any
// item's fused score. (Under sequential tie-ranking, the earlier-listed item of a
// tie took the better rank and input order leaked into the scores.)
#[test]
fn tied_scores_are_order_invariant() {
    let base = vec![(1u32, 0.9), (10, 0.5), (20, 0.5), (30, 0.5), (2, 0.1)];
    let canonical = weighted_rrf(&[scored("a", base.clone())], &BTreeMap::new(), &rrf(30.0));
    for seed in [3u64, 77, 4242] {
        let shuffled = lcg_shuffle(base.clone(), seed);
        let out = weighted_rrf(&[scored("a", shuffled)], &BTreeMap::new(), &rrf(30.0));
        // Per-item fused scores are identical under any reordering; only the
        // presentation order of exactly-tied fused scores may follow first-seen.
        for (id, s) in &canonical {
            approx(score_of(&out, *id).unwrap(), *s);
        }
    }
}

// A ranks-only channel: the given order is the rank.
#[test]
fn ranks_only_channel_uses_position_as_rank() {
    let obs = vec![ranks("a", vec![3, 1, 2])];
    let out = weighted_rrf(&obs, &BTreeMap::new(), &rrf(1.0));
    approx(score_of(&out, 3).unwrap(), 1.0 / 2.0); // pos 0 -> rank 1
    approx(score_of(&out, 1).unwrap(), 1.0 / 3.0); // pos 1 -> rank 2
    approx(score_of(&out, 2).unwrap(), 1.0 / 4.0); // pos 2 -> rank 3
    assert_eq!(ids(&out), vec![3, 1, 2]);
}

#[test]
fn empty_obs_yields_empty() {
    let obs: Vec<ChannelInput<u32>> = vec![];
    assert!(weighted_rrf(&obs, &BTreeMap::new(), &rrf(60.0)).is_empty());
}

#[test]
fn empty_channels_contribute_nothing() {
    // Only empty channels -> empty output.
    let only_empty = vec![scored("a", vec![]), ranks("b", vec![])];
    assert!(weighted_rrf(&only_empty, &BTreeMap::new(), &rrf(60.0)).is_empty());

    // An empty channel alongside a populated one leaves the populated result intact.
    let mixed = vec![scored("a", vec![]), ranks("b", vec![1, 2])];
    let out = weighted_rrf(&mixed, &BTreeMap::new(), &rrf(1.0));
    approx(score_of(&out, 1).unwrap(), 0.5);
    approx(score_of(&out, 2).unwrap(), 1.0 / 3.0);
    assert_eq!(out.len(), 2);
}

#[test]
fn single_item() {
    let out = weighted_rrf(&[ranks("a", vec![42])], &BTreeMap::new(), &rrf(60.0));
    assert_eq!(out.len(), 1);
    approx(score_of(&out, 42).unwrap(), 1.0 / 61.0);
}

// A channel present in obs but missing from the weight map defaults to 1.0.
#[test]
fn missing_weight_defaults_to_one() {
    let obs = vec![ranks("a", vec![1]), ranks("b", vec![2])];
    // Only "a" is weighted; "b" must default to 1.0, not be dropped.
    let out = weighted_rrf(&obs, &weights(&[("a", 1.0)]), &rrf(1.0));
    approx(score_of(&out, 1).unwrap(), 0.5);
    approx(score_of(&out, 2).unwrap(), 0.5);
    // Identical to giving both explicit 1.0.
    let explicit = weighted_rrf(&obs, &weights(&[("a", 1.0), ("b", 1.0)]), &rrf(1.0));
    assert_eq!(out, explicit);
}

// A weight of 0.0 mutes a channel without erroring; its items contribute zero.
#[test]
fn zero_weight_mutes_channel() {
    let obs = vec![ranks("a", vec![1]), ranks("b", vec![1, 2])];
    let out = weighted_rrf(&obs, &weights(&[("a", 0.0), ("b", 1.0)]), &rrf(1.0));
    // id 1: muted A contributes 0, B rank 1 contributes 1/2.
    approx(score_of(&out, 1).unwrap(), 0.5);
    // id 2: B rank 2 only.
    approx(score_of(&out, 2).unwrap(), 1.0 / 3.0);

    // An item present ONLY in a muted channel still appears, with score 0.0.
    let solo_muted = vec![ranks("a", vec![1]), ranks("b", vec![2])];
    let out2 = weighted_rrf(&solo_muted, &weights(&[("a", 0.0), ("b", 1.0)]), &rrf(1.0));
    approx(score_of(&out2, 1).unwrap(), 0.0);
    approx(score_of(&out2, 2).unwrap(), 0.5);
    // Zero-scored item sorts last (score DESC).
    assert_eq!(ids(&out2), vec![2, 1]);
}

// A mixed scored + ranks channel set with non-trivial weights, exact arithmetic.
#[test]
fn mixed_scored_and_ranks_with_weights() {
    let obs = vec![
        scored("a", vec![(1, 0.9), (2, 0.1)]), // ranks 1,2
        ranks("b", vec![2, 1]),                // 2->rank1, 1->rank2
    ];
    let w = weights(&[("a", 2.0), ("b", 1.0)]);
    let out = weighted_rrf(&obs, &w, &rrf(1.0));
    // id1: a w=2 rank1 (2*1/2=1.0) + b rank2 (1/3)
    approx(score_of(&out, 1).unwrap(), 1.0 + 1.0 / 3.0);
    // id2: a w=2 rank2 (2*1/3=2/3) + b rank1 (1/2)
    approx(score_of(&out, 2).unwrap(), 2.0 / 3.0 + 0.5);
    assert_eq!(ids(&out), vec![1, 2]);
}

#[test]
fn fused_scores_match_machine_arithmetic_exactly() {
    let obs = vec![
        scored("a", vec![(1, 0.9), (2, 0.5), (3, 0.5), (4, 0.1)]),
        ranks("b", vec![4, 3, 2]),
    ];
    let w = weights(&[("a", 1.25), ("b", 0.7)]);
    let out = weighted_rrf(&obs, &w, &rrf(60.0));
    assert_eq!(score_of(&out, 1), Some(0.0 + 1.25 / (60.0 + 1.0)));
    assert_eq!(score_of(&out, 2), Some(0.0 + 1.25 / (60.0 + 2.5) + 0.7 / (60.0 + 3.0)));
    assert_eq!(score_of(&out, 3), Some(0.0 + 1.25 / (60.0 + 2.5) + 0.7 / (60.0 + 2.0)));
    assert_eq!(score_of(&out, 4), Some(0.0 + 1.25 / (60.0 + 4.0) + 0.7 / (60.0 + 1.0)));
    assert_eq!(ids(&out), vec![3, 2, 4, 1]);
}

#[test]
fn a_monotone_rescaling_of_scores_changes_nothing() {
    let plain = vec![(1u32, 0.9), (2, 0.5), (3, 0.5), (4, 0.1), (5, -0.0), (6, 0.0)];
    let stretched: Vec<(u32, f64)> = plain.iter().map(|(i, s)| (*i, s * 1e12 - 4.0)).collect();
    let other = ranks("b", vec![6, 5, 1]);
    let x = weighted_rrf(
        &[scored("a", plain), other.clone()],
        &BTreeMap::new(),
        &rrf(60.0),
    );
    let y = weighted_rrf(
        &[scored("a", stretched), other],
        &BTreeMap::new(),
        &rrf(60.0),
    );
    assert_eq!(x, y);
}

#[test]
fn every_surfaced_id_is_ranked_once() {
    let obs = vec![
        scored("a", vec![(5, 0.1), (6, 0.2)]),
        ranks("b", vec![6, 7]),
        ranks("c", vec![8, 5]),
    ];
    let mut seen = ids(&weighted_rrf(&obs, &BTreeMap::new(), &rrf(60.0)));
    seen.sort();
    assert_eq!(seen, vec![5, 6, 7, 8]);
}

#[test]
fn a_repeated_id_counts_once_per_occurrence() {
    let obs = vec![ranks("a", vec![9, 9])];
    let out = weighted_rrf(&obs, &BTreeMap::new(), &rrf(1.0));
    assert_eq!(out, vec![(9, 0.0 + 1.0 / 2.0 + 1.0 / 3.0)]);
}

#[test]
fn a_permuted_scored_list_keeps_every_score() {
    // Ties and a repeated id included.
    let list = vec![(1, 0.9), (2, 0.4), (3, 0.9), (1, 0.4), (4, 0.1)];
    let turned = vec![(4, 0.1), (1, 0.4), (3, 0.9), (2, 0.4), (1, 0.9)];
    let w = weights(&[("a", 1.3), ("b", 0.7)]);
    let x = weighted_rrf(&[scored("a", list), ranks("b", vec![3, 1])], &w, &rrf(10.0));
    let y = weighted_rrf(&[scored("a", turned), ranks("b", vec![3, 1])], &w, &rrf(10.0));
    for id in 1..=4 {
        assert_eq!(score_of(&x, id), score_of(&y, id));
    }
}
