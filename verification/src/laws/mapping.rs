//! What an anchor's rank correlations are mapped to.
use crate::config::CouplingConfig;
use crate::double::{fcount, fmin, fmul, fneg, fone, unit, Double};
use crate::exact::lemma_one;
use crate::ingest::anchor::Anchor;
use crate::keys::{canonical, lemma_canonical_symmetric};
use crate::laws::anchors::reads_as;
use crate::laws::correlating::{
    both_scored, lemma_rank_correlation_is_of_ranks, ranks_correlate,
};
use crate::laws::presence::{
    lemma_listed, lemma_observed_keys, lemma_pair_counts_where_both_vary, shows, stems_from,
};
use crate::laws::shrinking::held_between;
use crate::precision::{
    exact, lemma_exact_count, lemma_exact_multiple, lemma_exact_order, lemma_product_error,
    lemma_small_errors, limit, size, tiny, ulp,
};
use crate::reals::{lemma_associate, lemma_cancel, lemma_quotient_back};

use crate::weighting::coupling::{
    all_rank_correlations, copula_argument, counts, mapped, observed, overlap, rank_correlation,
    PairObservation, RankCorrelation, SIXTH_OF_PI_BITS,
};
use vstd::arithmetic::power2::{lemma2_to64, lemma2_to64_rest, lemma_pow2_adds, lemma_pow2_pos, pow2};
use vstd::prelude::*;

verus! {

/// A correlation is mapped to twice the sine, held between minus one and one.
pub proof fn lemma_mapped_is_twice_the_sine(sine: Double)
    requires
        sine.finite(),
        size(exact(sine)) <= (0x100_0000 as real),
    ensures
        mapped(sine).finite(),
        size(
            exact(mapped(sine)) - held_between(
                (2 as real) * exact(sine),
                -(1 as real),
                1 as real,
            ),
        ) <= (2 as real) * (ulp() * size(exact(sine))) + tiny(),
{
    lemma_small_errors();
    lemma_one();
    lemma_exact_count(2);
    let x = fmul(fcount(2), sine);
    assert((0x200_0000 as real) <= limit());
    lemma_product_error(fcount(2), sine);
    let s = size(exact(sine));
    lemma_associate(ulp(), 2 as real, s);
    lemma_exact_multiple(fone());
    lemma_exact_order(x, fone());
    let y = fmin(x, fone());
    lemma_exact_order(y, fneg(fone()));
    lemma_exact_order(fone(), fneg(fone()));
    lemma_exact_order(x, fneg(fone()));
}

/// The sine is taken of the sixth part of a half turn, as far as the correlation goes.
pub proof fn lemma_argument_is_a_sixth_of_a_half_turn(rho: Double)
    requires
        rho.finite(),
        size(exact(rho)) <= (1 as real),
    ensures
        ({
            let turn = exact(Double { bits: SIXTH_OF_PI_BITS });
            let scale = 6_000_000_000_000_000int as real;
            &&& (3_141_592_653_589_793int as real) < scale * turn < (
            3_141_592_653_589_794int as real)
            &&& copula_argument(rho).finite()
            &&& size(exact(copula_argument(rho)) - turn * exact(rho)) <= ulp() * size(
                turn * exact(rho),
            ) + tiny()
        }),
{
    lemma_small_errors();
    lemma_sixth();
    let t = Double { bits: SIXTH_OF_PI_BITS };
    crate::reals::lemma_product_bound(exact(t), exact(rho), 1 as real, 1 as real);
    lemma_product_error(t, rho);
}

proof fn lemma_sixth()
    ensures
        (Double { bits: SIXTH_OF_PI_BITS }).finite(),
        exact(Double { bits: SIXTH_OF_PI_BITS }) == (0x10_c152_382d_7366int as real) / (
        0x20_0000_0000_0000int as real),
{
    let t = Double { bits: SIXTH_OF_PI_BITS };
    let k = 0x10_c152_382d_7366int;
    let two = 0x20_0000_0000_0000int;
    let low = pow2(1021) as int;
    lemma2_to64();
    lemma2_to64_rest();
    lemma_pow2_adds(53, 1021);
    lemma_pow2_pos(1021);
    assert(unit() == two * low);
    assert(t.value() == k * low);
    let lr = low as real;
    let kr = k as real;
    let tr = two as real;
    let ur = unit() as real;
    assert((k * low) as real == kr * lr);
    assert((two * low) as real == tr * lr);
    let x = exact(t);
    let q = kr / tr;
    lemma_quotient_back(kr * lr, ur);
    lemma_quotient_back(kr, tr);
    lemma_associate(q, tr, lr);
    assert(x * ur == q * ur);
    lemma_cancel(x, q, ur);
}

/// An observation is that of a listed pair with the same key.
proof fn lemma_observed_source(
    channels: Seq<String>,
    list: Seq<RankCorrelation>,
    sines: Seq<Double>,
    n: int,
    k: (Seq<char>, Seq<char>),
) -> (h: int)
    requires
        0 <= n <= list.len(),
        observed(channels, list, sines, n).contains_key(k),
    ensures
        0 <= h < n,
        k == canonical(channels[list[h].first as int]@, channels[list[h].second as int]@),
        observed(channels, list, sines, n)[k].correlation == mapped(sines[h]),
        observed(channels, list, sines, n)[k].n_both == list[h].n_both,
    decreases n,
{
    let r = list[n - 1];
    if k == canonical(channels[r.first as int]@, channels[r.second as int]@) {
        n - 1
    } else {
        lemma_observed_source(channels, list, sines, n - 1, k)
    }
}

/// What is read of two channels: with a rank correlation of the scores that they share, the
/// mapped correlation, and the number of items that both score.
pub open spec fn read_of_ranks(
    anchor: Anchor,
    a: int,
    b: int,
    sine: spec_fn(Double) -> Double,
    o: PairObservation,
) -> bool {
    &&& o.n_both == both_scored(anchor.scores@[a]@, anchor.scores@[b]@).len()
    &&& exists|rho: Double| #[trigger]
        ranks_correlate(rho, overlap(anchor, a, b), overlap(anchor, b, a)) && o.correlation
            == mapped(sine(copula_argument(rho)))
}

/// Two channels of an anchor that share enough items, with neither channel's scores all equal
/// over them, are read to be as redundant as the ranks that they give to those items.
pub proof fn lemma_anchor_reads_ranks(
    anchor: Anchor,
    cfg: CouplingConfig,
    sine: spec_fn(Double) -> Double,
    a: int,
    b: int,
)
    requires
        anchor.wf(),
        0 <= a < b < anchor.channels@.len(),
        forall|i: int, j: int|
            0 <= i < j < anchor.channels@.len() ==> (#[trigger] anchor.channels@[i])@ != (
            #[trigger] anchor.channels@[j])@,
        0 < overlap(anchor, a, b).len() <= 0x200_0000,
        shows(anchor, cfg, a, b),
    ensures
        ({
            let k = canonical(anchor.channels@[a]@, anchor.channels@[b]@);
            reads_as(anchor, cfg, sine).contains_key(k) && read_of_ranks(
                anchor,
                a,
                b,
                sine,
                reads_as(anchor, cfg, sine)[k],
            )
        }),
{
    let names = anchor.channels@;
    let n = names.len() as int;
    let k = canonical(names[a]@, names[b]@);
    let list = all_rank_correlations(anchor, cfg);
    let sines = Seq::new(list.len(), |i: int| sine(copula_argument(list[i].rho)));
    let limit: usize = anchor.channels.len();
    lemma_pair_counts_where_both_vary(anchor, cfg, a, b);
    lemma_listed(anchor, cfg, n, 0);
    let r = rank_correlation(anchor, a, b);
    assert(counts(anchor, cfg, a, b));
    assert(list.contains(r));
    let g = choose|g: int| 0 <= g < list.len() && list[g] == r;
    assert(list[g].first as int == a && list[g].second as int == b);
    lemma_observed_keys(names, list, sines, list.len() as int, k);
    assert(reads_as(anchor, cfg, sine).contains_key(k));
    let h = lemma_observed_source(names, list, sines, list.len() as int, k);
    assert(stems_from(anchor, cfg, list[h]));
    let (x, y) = choose|x: int, y: int|
        0 <= x < y < n && #[trigger] counts(anchor, cfg, x, y) && list[h] == rank_correlation(
            anchor,
            x,
            y,
        );
    assert(list[h].first as int == x && list[h].second as int == y);
    lemma_canonical_symmetric(names[a]@, names[b]@);
    lemma_canonical_symmetric(names[x]@, names[y]@);
    assert(x == a && y == b);
    lemma_rank_correlation_is_of_ranks(anchor, a, b);
    assert(sines[h] == sine(copula_argument(r.rho)));
}

} // verus!
