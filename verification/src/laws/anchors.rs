//! Laws of the redundancy that is read on an anchor.
use crate::config::CouplingConfig;
use crate::double::{feq, flt, Double};
use crate::ingest::anchor::Anchor;
use crate::laws::ranking::{lemma_midranks_see_order_only, compares_alike};
use crate::weighting::coupling::{
    all_rank_correlations, common_length, copula_argument, counts, midranks_of, observed, overlap,
    rank_correlation, rank_correlations, shared_scores, PairObservation,
};
use vstd::prelude::*;

verus! {

/// A strictly increasing function of finite numbers, with finite values.
pub open spec fn increasing_map(h: spec_fn(Double) -> Double) -> bool {
    &&& forall|x: Double| #![trigger h(x)] x.finite() ==> h(x).finite()
    &&& forall|x: Double, y: Double|
        #![trigger h(x), h(y)]
        x.finite() && y.finite() && flt(x, y) ==> flt(h(x), h(y))
    &&& forall|x: Double, y: Double|
        #![trigger h(x), h(y)]
        x.finite() && y.finite() && feq(x, y) ==> feq(h(x), h(y))
}

/// A score under a function; an absent one stays absent.
pub open spec fn rescaled_score(x: Option<Double>, h: spec_fn(Double) -> Double) -> Option<Double> {
    match x {
        Some(v) => Some(h(v)),
        None => None,
    }
}

/// One anchor is another with the scores of the channel at `c` under a function.
pub open spec fn rescales(
    anchor: Anchor,
    other: Anchor,
    c: int,
    h: spec_fn(Double) -> Double,
) -> bool {
    &&& other.channels@ == anchor.channels@
    &&& other.scores@.len() == anchor.scores@.len()
    &&& forall|i: int|
        0 <= i < anchor.scores@.len() && i != c ==> #[trigger] other.scores@[i]@
            == anchor.scores@[i]@
    &&& 0 <= c < anchor.scores@.len() ==> other.scores@[c]@ == anchor.scores@[c]@.map_values(
        |x: Option<Double>| rescaled_score(x, h),
    )
}

/// What is shared with a rescaled row is rescaled alike.
proof fn lemma_shared_rescaled(
    mine: Seq<Option<Double>>,
    theirs: Seq<Option<Double>>,
    h: spec_fn(Double) -> Double,
    n: int,
)
    requires
        n <= mine.len(),
        n <= theirs.len(),
    ensures
        shared_scores(
            mine.map_values(|x: Option<Double>| rescaled_score(x, h)),
            theirs,
            n,
        ) == shared_scores(mine, theirs, n).map_values(h),
        shared_scores(theirs, mine.map_values(|x: Option<Double>| rescaled_score(x, h)), n)
            == shared_scores(theirs, mine, n),
    decreases n,
{
    let other = mine.map_values(|x: Option<Double>| rescaled_score(x, h));
    if n > 0 {
        lemma_shared_rescaled(mine, theirs, h, n - 1);
        assert(other[n - 1] == rescaled_score(mine[n - 1], h));
    }
    assert(shared_scores(other, theirs, n) =~= shared_scores(mine, theirs, n).map_values(h));
}

/// Shared scores are scores.
proof fn lemma_shared_finite(mine: Seq<Option<Double>>, theirs: Seq<Option<Double>>, n: int)
    requires
        n <= mine.len(),
        forall|i: int| 0 <= i < mine.len() && (#[trigger] mine[i]) is Some ==> mine[i]->0.finite(),
    ensures
        forall|j: int|
            0 <= j < shared_scores(mine, theirs, n).len() ==> (#[trigger] shared_scores(
                mine,
                theirs,
                n,
            )[j]).finite(),
    decreases n,
{
    if n > 0 {
        lemma_shared_finite(mine, theirs, n - 1);
        let s = shared_scores(mine, theirs, n);
        let t = shared_scores(mine, theirs, n - 1);
        assert forall|j: int| 0 <= j < s.len() implies (#[trigger] s[j]).finite() by {
            if j < t.len() {
                assert(s[j] == t[j]);
            } else {
                assert(s[j] == mine[n - 1]->0);
            }
        }
    }
}

/// The shared scores of two channels are finite.
pub proof fn lemma_overlap_finite(anchor: Anchor, a: int, b: int)
    requires
        anchor.wf(),
        0 <= a < anchor.channels@.len(),
    ensures
        forall|j: int|
            0 <= j < overlap(anchor, a, b).len() ==> (#[trigger] overlap(anchor, a, b)[j]).finite(),
{
    let mine = anchor.scores@[a]@;
    let theirs = anchor.scores@[b]@;
    assert forall|i: int| 0 <= i < mine.len() && (#[trigger] mine[i]) is Some implies mine[i]
        ->0.finite() by {
        assert(anchor.scores@[a]@[i] is Some);
    }
    lemma_shared_finite(mine, theirs, common_length(mine, theirs));
}

/// A sample under a strictly increasing function ranks alike.
proof fn lemma_rescaled_ranks_alike(s: Seq<Double>, h: spec_fn(Double) -> Double)
    requires
        increasing_map(h),
        forall|j: int| 0 <= j < s.len() ==> (#[trigger] s[j]).finite(),
    ensures
        compares_alike(s, s.map_values(h)),
{
    let t = s.map_values(h);
    assert forall|i: int, j: int| 0 <= i < s.len() && 0 <= j < s.len() implies (flt(
        #[trigger] s[i],
        #[trigger] s[j],
    ) == flt(t[i], t[j])) && (feq(s[i], s[j]) == feq(t[i], t[j])) by {
        let x = s[i];
        let y = s[j];
        assert(x.finite() && y.finite());
        assert(t[i] == h(x) && t[j] == h(y));
        assert(h(x).finite() && h(y).finite());
        assert(flt(x, y) || flt(y, x) || feq(x, y));
    }
    assert forall|i: int| 0 <= i < s.len() implies !(#[trigger] s[i]).nan() && !t[i].nan() by {
        assert(t[i] == h(s[i]));
    }
    assert forall|i: int, j: int|
        #![trigger t[i], t[j]]
        0 <= i < s.len() && 0 <= j < s.len() implies flt(s[i], s[j]) == flt(t[i], t[j]) && feq(
        s[i],
        s[j],
    ) == feq(t[i], t[j]) by {
        assert(flt(s[i], s[j]) == flt(t[i], t[j]));
    }
}

/// What two channels share ranks alike in a rescaled anchor.
proof fn lemma_overlap_ranks_alike(
    anchor: Anchor,
    other: Anchor,
    c: int,
    h: spec_fn(Double) -> Double,
    a: int,
    b: int,
)
    requires
        anchor.wf(),
        rescales(anchor, other, c, h),
        increasing_map(h),
        0 <= a < anchor.channels@.len(),
        0 <= b < anchor.channels@.len(),
        a != b,
    ensures
        overlap(other, a, b).len() == overlap(anchor, a, b).len(),
        midranks_of(overlap(other, a, b)) == midranks_of(overlap(anchor, a, b)),
{
    let mine = anchor.scores@[a]@;
    let theirs = anchor.scores@[b]@;
    let n = common_length(mine, theirs);
    let s = overlap(anchor, a, b);
    lemma_overlap_finite(anchor, a, b);
    if a == c {
        assert(other.scores@[b]@ == theirs);
        lemma_shared_rescaled(mine, theirs, h, n);
        lemma_rescaled_ranks_alike(s, h);
        lemma_midranks_see_order_only(s, s.map_values(h));
    } else if b == c {
        assert(other.scores@[a]@ == mine);
        lemma_shared_rescaled(theirs, mine, h, n);
    } else {
        assert(other.scores@[a]@ == mine);
        assert(other.scores@[b]@ == theirs);
    }
}

proof fn lemma_correlations_rescaled(
    anchor: Anchor,
    other: Anchor,
    c: int,
    h: spec_fn(Double) -> Double,
    cfg: CouplingConfig,
    a: int,
    b: int,
)
    requires
        anchor.wf(),
        rescales(anchor, other, c, h),
        increasing_map(h),
        0 <= a <= anchor.channels@.len(),
        b <= anchor.channels@.len(),
    ensures
        rank_correlations(other, cfg, a, b) == rank_correlations(anchor, cfg, a, b),
    decreases a, b,
{
    if b > a + 1 {
        lemma_correlations_rescaled(anchor, other, c, h, cfg, a, b - 1);
        lemma_overlap_ranks_alike(anchor, other, c, h, a, b - 1);
        lemma_overlap_ranks_alike(anchor, other, c, h, b - 1, a);
        assert(counts(other, cfg, a, b - 1) == counts(anchor, cfg, a, b - 1));
        assert(rank_correlation(other, a, b - 1) == rank_correlation(anchor, a, b - 1));
    } else if a > 0 {
        lemma_correlations_rescaled(
            anchor,
            other,
            c,
            h,
            cfg,
            a - 1,
            anchor.channels@.len() as int,
        );
    }
}

/// What an anchor's redundancy is read to be, given what each sine is: the observations that
/// the contract of `anchor_correlations` allows.
pub open spec fn reads_as(
    anchor: Anchor,
    cfg: CouplingConfig,
    sine: spec_fn(Double) -> Double,
) -> Map<(Seq<char>, Seq<char>), PairObservation> {
    let list = all_rank_correlations(anchor, cfg);
    observed(
        anchor.channels@,
        list,
        Seq::new(list.len(), |i: int| sine(copula_argument(list[i].rho))),
        list.len() as int,
    )
}

/// The redundancy that is read on an anchor sees only the order of each channel's scores:
/// under any strictly increasing rescaling of one channel the same pairs count, with the same
/// rank correlations and overlaps, and what they are mapped to is the same.
pub proof fn lemma_anchor_sees_order_only(
    anchor: Anchor,
    other: Anchor,
    c: int,
    h: spec_fn(Double) -> Double,
    cfg: CouplingConfig,
    sine: spec_fn(Double) -> Double,
)
    requires
        anchor.wf(),
        rescales(anchor, other, c, h),
        increasing_map(h),
    ensures
        other.wf(),
        all_rank_correlations(other, cfg) == all_rank_correlations(anchor, cfg),
        reads_as(other, cfg, sine) == reads_as(anchor, cfg, sine),
{
    lemma_correlations_rescaled(anchor, other, c, h, cfg, anchor.channels@.len() as int, 0);
    assert forall|k: int, i: int|
        0 <= k < other.scores@.len() && 0 <= i < other.scores@[k]@.len() && (
        #[trigger] other.scores@[k]@[i]) is Some implies other.scores@[k]@[i]->0.finite() by {
        if k == c {
            let x = anchor.scores@[k]@[i];
            assert(other.scores@[k]@[i] == rescaled_score(x, h));
            assert(x->0.finite());
        } else {
            assert(other.scores@[k]@ == anchor.scores@[k]@);
            assert(anchor.scores@[k]@[i] is Some);
        }
    }
}

/// With a sine function that gives one value for one argument, what is read on an anchor is
/// what the ranks say: any outcome that the contract of `anchor_correlations` allows.
pub proof fn lemma_reading_is_determined<S: Fn(Double) -> Double>(
    anchor: Anchor,
    cfg: CouplingConfig,
    sin: S,
    sine: spec_fn(Double) -> Double,
    sines: Seq<Double>,
)
    requires
        forall|x: Double, y: Double| #[trigger] call_ensures(sin, (x,), y) ==> y == sine(x),
        sines.len() == all_rank_correlations(anchor, cfg).len(),
        forall|i: int|
            0 <= i < sines.len() ==> call_ensures(
                sin,
                (copula_argument(all_rank_correlations(anchor, cfg)[i].rho),),
                #[trigger] sines[i],
            ),
    ensures
        observed(
            anchor.channels@,
            all_rank_correlations(anchor, cfg),
            sines,
            sines.len() as int,
        ) == reads_as(anchor, cfg, sine),
{
    let list = all_rank_correlations(anchor, cfg);
    assert(sines =~= Seq::new(list.len(), |i: int| sine(copula_argument(list[i].rho))));
}

} // verus!
