//! Where nothing can be read: the neutral weight.
use crate::config::{CouplingConfig, DiscriminationConfig};
use crate::double::{fadd, fdiv, fle, flt, fmax, fmin, fmul, fone, fsub, fzero, Double};
use crate::exact::lemma_one;
use crate::ingest::input::Items;
use crate::laws::seeding::{lemma_ordinary, ordinary};
use crate::laws::norms::bounds_in_order;
use crate::laws::shrinking::held_between;
use crate::precision::{
    exact, lemma_difference_error, lemma_exact_order, lemma_product_error, lemma_quotient_error,
    lemma_small_errors, lemma_sum_error, limit, size, tiny, ulp,
};
use crate::reals::{
    lemma_associate, lemma_cancel_order, lemma_commute, lemma_distribute, lemma_product_bound,
    lemma_quotient_back, lemma_scale_order,
};
use crate::summary::MeanVar;
use crate::weighting::coupling::{coupled, strengths, PairBaseline};
use crate::weighting::discrimination::{discriminated, leveled, ChannelDiscrimination};
use vstd::prelude::*;

verus! {

/// A list of ranks, and a list without items, say nothing of how well a channel ranked: its
/// weight is one, it has no statistics, and nothing is flagged.
pub proof fn lemma_nothing_to_read_is_neutral<Id, E: Fn(Double) -> Double>(
    items: Items<Id>,
    separation: MeanVar,
    reference: MeanVar,
    cfg: DiscriminationConfig,
    exp: E,
    d: ChannelDiscrimination,
)
    requires
        discriminated(items, separation, reference, cfg, exp, d),
        items is Ranks || items->Scored_0@.len() == 0,
    ensures
        d.g == fone(),
        d.raw_separation is None,
        d.top_m_average is None,
        !d.degenerate_separation,
        !d.reference_cold,
{
}

/// A channel whose discrimination weight is missing, not finite or not positive is weighted as
/// one whose weight is one.
pub proof fn lemma_unusable_strength_is_one(
    g: Map<Seq<char>, Double>,
    redundancy: Map<(Seq<char>, Seq<char>), PairBaseline>,
    keys: Seq<Seq<char>>,
    cfg: CouplingConfig,
    k: Seq<char>,
)
    requires
        g.contains_key(k) && g[k].finite() ==> exact(g[k]) <= (0 as real),
    ensures
        coupled(g, redundancy, keys, cfg) == coupled(g.insert(k, fone()), redundancy, keys, cfg),
{
    lemma_one();
    let h = g.insert(k, fone());
    if g.contains_key(k) && g[k].finite() {
        lemma_exact_order(fzero(), g[k]);
    }
    assert forall|i: int| 0 <= i < keys.len() implies #[trigger] strengths(g, keys)[i] == strengths(
        h,
        keys,
    )[i] by {}
    assert(strengths(g, keys) =~= strengths(h, keys));
}

/// What leveling makes of a weight: it is divided by the channel's own mean level where that has
/// enough observations and is positive; what is left of its deviation from one is kept in the
/// given part; and the result is held to its bounds; up to rounding.
pub proof fn lemma_leveling_divides_by_the_level(
    g: Double,
    level: MeanVar,
    cfg: DiscriminationConfig,
)
    requires
        g.finite(),
        ordinary(exact(g)),
        bounds_in_order(cfg),
        cfg.g_deviation_keep.finite(),
        (0 as real) <= exact(cfg.g_deviation_keep) <= (1 as real),
    ensures
        leveled(g, level, cfg).finite(),
        !fle(cfg.min_count_for_z, level.count) ==> leveled_near(
            leveled(g, level, cfg),
            exact(g),
            cfg,
        ),
        fle(cfg.min_count_for_z, level.count) && level.mean.finite() && ordinary(exact(level.mean))
            ==> leveled_near(leveled(g, level, cfg), exact(g) / exact(level.mean), cfg),
        fle(cfg.min_count_for_z, level.count) && level.mean.finite() && exact(level.mean) <= (
        0 as real) ==> leveled_near(leveled(g, level, cfg), exact(g), cfg),
{
    lemma_one();
    lemma_small_errors();
    lemma_ordinary(exact(g));
    if level.mean.finite() {
        lemma_exact_order(fzero(), level.mean);
    }
    lemma_exact_zero(g);
    lemma_leveled_core(g, exact(g), cfg);
    if level.mean.finite() && ordinary(exact(level.mean)) {
        lemma_level_quotient(g, level.mean);
        lemma_leveled_core(fdiv(g, level.mean), exact(g) / exact(level.mean), cfg);
    }
    if flt(fzero(), level.mean) && level.mean.finite() && !ordinary(exact(level.mean)) {
        // Divided by a level of another size the weight is still held to its bounds.
        lemma_leveled_finite(fdiv(g, level.mean), cfg);
    }
}

proof fn lemma_exact_zero(g: Double)
    requires
        g.finite(),
    ensures
        size(exact(g) - exact(g)) <= (2 as real) * (ulp() * size(exact(g))),
{
    lemma_small_errors();
    lemma_scale_order(0 as real, size(exact(g)), ulp());
}

/// A weight after leveling, given what it is before the deviation is kept in part.
pub open spec fn leveled_near(w: Double, x: real, cfg: DiscriminationConfig) -> bool {
    let t = (1 as real) + exact(cfg.g_deviation_keep) * (x - (1 as real));
    w.finite() && size(
        exact(w) - held_between(t, exact(cfg.g_floor), exact(cfg.g_upper_bound)),
    ) <= (16 as real) * (ulp() * (size(x) + (1 as real)))
}

/// A quotient by an ordinary level.
proof fn lemma_level_quotient(g: Double, m: Double)
    requires
        g.finite(),
        m.finite(),
        ordinary(exact(g)),
        ordinary(exact(m)),
    ensures
        fdiv(g, m).finite(),
        size(exact(fdiv(g, m)) - exact(g) / exact(m)) <= (2 as real) * (ulp() * size(
            exact(g) / exact(m),
        )),
        (0 as real) <= exact(g) / exact(m) <= (0x100_0000_0000int as real) * (
        0x100_0000_0000int as real),
{
    lemma_small_errors();
    let one = 1 as real;
    let zero = 0 as real;
    let big = 0x100_0000_0000int as real;
    let x = exact(g);
    let y = exact(m);
    lemma_ordinary(x);
    lemma_ordinary(y);
    let q = x / y;
    lemma_quotient_back(x, y);
    assert(zero * y == zero);
    lemma_cancel_order(zero, q, y);
    lemma_scale_order(one / big, y, big * big);
    assert(big * big * (one / big) == big);
    lemma_commute(big * big, y);
    lemma_cancel_order(q, big * big, y);
    assert(big * big <= limit());
    lemma_exact_order(m, m);
    lemma_quotient_error(g, m);
    // tiny y <= u x, and so tiny <= u q.
    lemma_scale_order(y, big, tiny());
    lemma_associate(ulp(), q, y);
    lemma_commute(big, tiny());
    lemma_cancel_order(tiny(), ulp() * q, y);
}

/// The kept part of a deviation, and the bounds.
proof fn lemma_leveled_core(n: Double, x: real, cfg: DiscriminationConfig)
    requires
        n.finite(),
        size(x) <= (0x100_0000_0000int as real) * (0x100_0000_0000int as real),
        size(exact(n) - x) <= (2 as real) * (ulp() * size(x)),
        bounds_in_order(cfg),
        cfg.g_deviation_keep.finite(),
        (0 as real) <= exact(cfg.g_deviation_keep) <= (1 as real),
    ensures
        ({
            let kept = fadd(fone(), fmul(cfg.g_deviation_keep, fsub(n, fone())));
            leveled_near(fmax(fmin(kept, cfg.g_upper_bound), cfg.g_floor), x, cfg)
        }),
{
    lemma_small_errors();
    lemma_one();
    lemma_exact_order(fone(), fone());
    let one = 1 as real;
    let two = 2 as real;
    let u = ulp();
    let all = size(x) + one;
    let ua = u * all;
    lemma_distribute(u, size(x), one);
    lemma_scale_order(u, one / (1_000_000 as real), all);
    lemma_scale_order(0 as real, size(x), u);
    let d = fsub(n, fone());
    let k = exact(cfg.g_deviation_keep);
    let big = (0x100_0000_0000int as real) * (0x100_0000_0000int as real);
    assert((8 as real) * (big + one) <= limit());
    assert(size(exact(n) - one) <= two * all);
    lemma_difference_error(n, fone());
    lemma_scale_order(size(exact(n) - one), two * all, u);
    crate::laws::affine::lemma_scaled_out(u, two, all);
    assert(size(exact(d) - (x - one)) <= (4 as real) * ua);
    let y = exact(d);
    lemma_product_bound(k, y, one, (3 as real) * all);
    lemma_product_error(cfg.g_deviation_keep, d);
    let p = fmul(cfg.g_deviation_keep, d);
    lemma_scale_order(size(k * y), (3 as real) * all, u);
    crate::laws::affine::lemma_scaled_out(u, 3 as real, all);
    lemma_product_bound(k, y - (x - one), one, (4 as real) * ua);
    lemma_distribute(k, y, x - one);
    assert(size(exact(p) - k * (x - one)) <= (8 as real) * ua);
    lemma_sum_error(fone(), p);
    let kept = fadd(fone(), p);
    assert(size(one + exact(p)) <= (5 as real) * all);
    lemma_scale_order(size(one + exact(p)), (5 as real) * all, u);
    crate::laws::affine::lemma_scaled_out(u, 5 as real, all);
    lemma_exact_order(kept, cfg.g_upper_bound);
    lemma_exact_order(cfg.g_upper_bound, kept);
    let low = fmin(kept, cfg.g_upper_bound);
    lemma_exact_order(low, cfg.g_floor);
}

/// Whatever the quotient, the bounds are finite.
proof fn lemma_leveled_finite(n: Double, cfg: DiscriminationConfig)
    requires
        bounds_in_order(cfg),
    ensures
        ({
            let kept = fadd(fone(), fmul(cfg.g_deviation_keep, fsub(n, fone())));
            fmax(fmin(kept, cfg.g_upper_bound), cfg.g_floor).finite()
        }),
{
    let kept = fadd(fone(), fmul(cfg.g_deviation_keep, fsub(n, fone())));
    lemma_bounded_finite(kept, cfg.g_floor, cfg.g_upper_bound);
}

proof fn lemma_bounded_finite(x: Double, low: Double, high: Double)
    requires
        low.finite(),
        high.finite(),
    ensures
        fmax(fmin(x, high), low).finite(),
{
}

} // verus!
