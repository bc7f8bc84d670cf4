//! What a separation read is held to before a baseline learns it.
use crate::closeness::close;
use crate::config::DiscriminationConfig;
use crate::double::{flt, fmul, fzero, Double};
use crate::exact::lemma_one;
use crate::precision::{
    exact, lemma_difference_error, lemma_exact_order, lemma_product_error, lemma_root_error,
    lemma_small_errors, lemma_sum_error, limit, size, tiny, ulp,
};
use crate::reals::{lemma_distribute, lemma_positive_product, lemma_scale_order};
use crate::summary::MeanVar;
use crate::weighting::discrimination::{band_high, band_low, winsorized};
use vstd::prelude::*;

verus! {

/// A baseline with a usable band: enough observations, a positive variance, and ends that are
/// far from overflow.
pub open spec fn bands(baseline: MeanVar, cfg: DiscriminationConfig, root: Double) -> bool {
    let reach = exact(cfg.winsor_z) * exact(root);
    &&& !flt(baseline.count, cfg.min_count_for_z)
    &&& baseline.mean.finite()
    &&& baseline.spread().finite()
    &&& exact(baseline.spread()) > (0 as real)
    &&& cfg.winsor_z.finite()
    &&& exact(cfg.winsor_z) > (0 as real)
    &&& (8 as real) * (size(exact(baseline.mean)) + reach) <= limit()
}

/// How far the ends of a band can be off.
pub open spec fn band_error(mean: real, reach: real) -> real {
    (4 as real) * (ulp() * (size(mean) + reach)) + (2 as real) * tiny()
}

/// A read held to the mean of a baseline plus or minus so many deviations: it passes through
/// inside the band and where the baseline has too few observations, and becomes the end of the
/// band outside it, up to rounding.
pub open spec fn clipped(
    raw: Double,
    baseline: MeanVar,
    cfg: DiscriminationConfig,
    w: Double,
) -> bool {
    &&& flt(baseline.count, cfg.min_count_for_z) ==> w == raw
    &&& raw.finite() && exact(baseline.spread()) > (0 as real) && baseline.spread().finite()
        ==> exists|root: Double| #[trigger] clipped_at(raw, baseline, cfg, w, root)
}

/// A read held to a band of the given deviation.
pub open spec fn clipped_at(
    raw: Double,
    baseline: MeanVar,
    cfg: DiscriminationConfig,
    w: Double,
    root: Double,
) -> bool {
    let mean = exact(baseline.mean);
    let reach = exact(cfg.winsor_z) * exact(root);
    let e = band_error(mean, reach);
    &&& root.finite()
    &&& exact(root) > (0 as real)
    &&& close(exact(baseline.spread()), exact(root) * exact(root), 3 as real)
    &&& bands(baseline, cfg, root) && (2 as real) * e < reach ==> {
        &&& w.finite()
        &&& mean - reach + e <= exact(raw) <= mean + reach - e ==> w == raw
        &&& exact(raw) < mean - reach - e ==> size(exact(w) - (mean - reach)) <= e
        &&& exact(raw) > mean + reach + e ==> size(exact(w) - (mean + reach)) <= e
        &&& mean - reach - e <= exact(w) <= mean + reach + e
    }
}

/// The winsorized read is held to the band.
pub proof fn lemma_winsorized_clips(raw: Double, baseline: MeanVar, cfg: DiscriminationConfig)
    ensures
        clipped(raw, baseline, cfg, winsorized(raw, baseline, cfg)),
{
    lemma_small_errors();
    lemma_one();
    let w = winsorized(raw, baseline, cfg);
    if raw.finite() && exact(baseline.spread()) > (0 as real) && baseline.spread().finite() {
        let root = baseline.deviation();
        lemma_root_error(baseline.spread());
        let r = exact(root);
        lemma_positive_product(r, r);
        lemma_exact_order(root, fzero());
        if bands(baseline, cfg, root) {
            lemma_band_near(baseline, cfg, root);
            let low = band_low(baseline, cfg);
            let high = band_high(baseline, cfg);
            lemma_exact_order(low, high);
            lemma_exact_order(raw, low);
            lemma_exact_order(high, raw);
        }
        assert(clipped_at(raw, baseline, cfg, w, root));
    }
}

/// The ends of a band are near the exact ones.
proof fn lemma_band_near(baseline: MeanVar, cfg: DiscriminationConfig, root: Double)
    requires
        root == baseline.deviation(),
        root.finite(),
        exact(root) > (0 as real),
        bands(baseline, cfg, root),
    ensures
        ({
            let mean = exact(baseline.mean);
            let reach = exact(cfg.winsor_z) * exact(root);
            let e = band_error(mean, reach);
            &&& band_low(baseline, cfg).finite()
            &&& band_high(baseline, cfg).finite()
            &&& size(exact(band_low(baseline, cfg)) - (mean - reach)) <= e
            &&& size(exact(band_high(baseline, cfg)) - (mean + reach)) <= e
            &&& e >= (0 as real)
        }),
{
    lemma_small_errors();
    let u = ulp();
    let one = 1 as real;
    let z = cfg.winsor_z;
    let mean = exact(baseline.mean);
    let reach = exact(z) * exact(root);
    lemma_positive_product(exact(z), exact(root));
    lemma_product_error(z, root);
    let p = fmul(z, root);
    lemma_scale_order(u, one / (1_000_000 as real), reach);
    let all = size(mean) + reach;
    lemma_scale_order(reach, all, u);
    lemma_difference_error(baseline.mean, p);
    lemma_sum_error(baseline.mean, p);
    let more = (2 as real) * all + tiny();
    lemma_scale_order(size(mean - exact(p)), more, u);
    lemma_scale_order(size(mean + exact(p)), more, u);
    lemma_distribute(u, (2 as real) * all, tiny());
    crate::laws::affine::lemma_scaled_out(u, 2 as real, all);
    lemma_scale_order(u, one, tiny());
    lemma_scale_order(0 as real, all, u);
}

} // verus!
