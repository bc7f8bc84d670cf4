//! What summaries start from and how they fade: declared references, priors, and decay.
use crate::closeness::{
    close, lemma_close_chain, lemma_close_half, lemma_close_more, lemma_close_product,
    lemma_close_scaled, lemma_close_unscaled, lemma_product_near, lemma_quotient_near,
};
use crate::config::{ChannelConfig, FuseConfig};
use crate::double::{fadd, fcount, fdiv, flt, fmax, fmul, fneg, fone, fsub, fzero, Double};
use crate::exact::{lemma_one, lemma_vanishing_product, lemma_vanishing_quotient};
use crate::fuser::{refreshed_pairs, seed};

use crate::laws::outcome::as_found;
use crate::laws::shrinking::held_between;
use crate::precision::{
    exact, least, lemma_difference_error, lemma_exact_count, lemma_exact_multiple,
    lemma_exact_order, lemma_least, lemma_product_error, lemma_small_errors, lemma_sum_error,
    limit, size, tiny, ulp,
};
use crate::reals::{lemma_associate, lemma_commute, lemma_positive_product, lemma_scale_order};
use crate::score::{oriented, reference_scale, usable, Direction};
use crate::state::{
    decayed_channel, decayed_pair, ChannelSummary, PairSummary, RuffleState,
};
use crate::summary::{decayed, empty_summary, kept_fraction, pooled, prior, MeanVar};
use crate::weighting::coupling::PairObservation;
use vstd::prelude::*;

verus! {

/// A summary of nothing, part by part.
pub open spec fn holds_nothing(s: MeanVar) -> bool {
    s.count == fzero() && s.mean == fzero() && s.m2 == fzero()
}

/// A number of a size that products and quotients of a few of its kind keep clear of overflow
/// and of the smallest numbers.
pub open spec fn ordinary(x: real) -> bool {
    (1 as real) / (0x100_0000_0000int as real) <= x <= (0x100_0000_0000int as real)
}

/// What ordinary numbers are next to the smallest one and the limit.
pub proof fn lemma_ordinary(x: real)
    requires
        ordinary(x),
    ensures
        x > (0 as real),
        tiny() <= ulp() * x,
        (0x100_0000_0000int as real) * tiny() <= ulp() * x,
        x <= limit(),
{
    lemma_small_errors();
    lemma_least();
    let l = least();
    let u = ulp();
    let big = 0x100_0000_0000int as real;
    let huge = 0x1_0000_0000_0000_0000int as real;
    lemma_scale_order(l * l, l, u);
    lemma_scale_order(l, x, u);
    lemma_scale_order(big, huge, tiny());
}

/// What a prior states: its mean and count as they are given, and its variance up to rounding;
/// and nothing where the count is not positive or a part is not finite.
pub proof fn lemma_prior_states_its_parts(mean: Double, variance: Double, count: Double)
    ensures
        mean.finite() && variance.finite() && count.finite() && exact(count) > (0 as real) ==> {
            let s = prior(mean, variance, count);
            &&& s.mean == mean
            &&& s.count == count
            &&& exact(variance) <= (0 as real) && exact(count) <= limit() ==> exact(s.spread()) == (
            0 as real)
            &&& ordinary(exact(variance)) && ordinary(exact(count)) ==> s.spread().finite()
                && close(exact(s.spread()), exact(variance), 5 as real)
        },
        !(mean.finite() && variance.finite() && count.finite() && exact(count) > (0 as real))
            ==> holds_nothing(prior(mean, variance, count)),
{
    lemma_small_errors();
    lemma_one();
    if count.finite() {
        lemma_exact_order(fzero(), count);
        lemma_exact_order(count, fzero());
    }
    if mean.finite() && variance.finite() && count.finite() && exact(count) > (0 as real) {
        let s = prior(mean, variance, count);
        let v = fmax(variance, fzero());
        lemma_exact_order(variance, fzero());
        lemma_exact_order(fzero(), fzero());
        lemma_exact_order(count, count);
        if exact(variance) <= (0 as real) {
            lemma_exact_order(v, v);
            lemma_vanishing_product(v, count);
            lemma_vanishing_quotient(s.m2, count);
            let q = fdiv(s.m2, count);
            lemma_exact_order(q, q);
            lemma_exact_order(q, fzero());
        }
        if ordinary(exact(variance)) && ordinary(exact(count)) {
            lemma_variance_kept(variance, count);
            let q = fdiv(s.m2, count);
            lemma_exact_order(q, fzero());
            lemma_close_half(exact(q), exact(variance), 5 as real);
        }
    }
}

/// A variance times a count, over the count.
proof fn lemma_variance_kept(v: Double, c: Double)
    requires
        v.finite(),
        c.finite(),
        ordinary(exact(v)),
        ordinary(exact(c)),
    ensures
        fmul(v, c).finite(),
        fdiv(fmul(v, c), c).finite(),
        close(exact(fdiv(fmul(v, c), c)), exact(v), 5 as real),
{
    lemma_small_errors();
    let one = 1 as real;
    let two = 2 as real;
    let u = ulp();
    let x = exact(v);
    let y = exact(c);
    let big = 0x100_0000_0000int as real;
    let low = one / big;
    lemma_ordinary(x);
    lemma_ordinary(y);
    let p = x * y;
    lemma_positive_product(x, y);
    lemma_scale_order(x, big, y);
    lemma_scale_order(y, big, big);
    assert(p <= big * big);
    assert((2 as real) * (big * big) <= limit());
    // tiny <= u x y: from big tiny <= u x and 1 <= big y.
    lemma_scale_order(big * tiny(), u * x, y);
    lemma_associate(big, tiny(), y);
    lemma_commute(tiny(), y);
    lemma_associate(big, y, tiny());
    lemma_scale_order(low, y, big);
    assert(big * low == one);
    lemma_scale_order(one, big * y, tiny());
    lemma_associate(u, x, y);
    assert(tiny() <= u * p);
    lemma_product_near(v, c);
    let m = fmul(v, c);
    lemma_close_half(exact(m), p, two);
    // And back.
    lemma_commute(y, big);
    lemma_scale_order(x, big, y);
    lemma_scale_order(low, y, limit());
    assert(exact(m) <= limit() * y) by {
        lemma_scale_order(big, limit() * low, y);
        assert(two * big <= limit() * low) by {
            lemma_scale_order((2 as real) * (big * big), limit(), low);
            assert(two * (big * big) * low == two * big);
        }
        lemma_scale_order(two * big, limit() * low, y);
        lemma_associate(two, big, y);
        lemma_associate(limit(), low, y);
        lemma_scale_order(low * y, y, limit()) ;
    }
    lemma_scale_order(p, two * exact(m), u);
    crate::laws::affine::lemma_scaled_out(u, two, exact(m));
    lemma_scale_order(x * y, p, u);
    // tiny y <= u m: big tiny y <= u x y == u p <= 2 u m.
    lemma_associate(big, tiny(), y);
    lemma_positive_product(tiny(), y);
    assert(big * (tiny() * y) <= u * p) by {
        lemma_associate(big, tiny(), y);
    }
    assert(tiny() * y <= u * exact(m));
    lemma_quotient_near(m, c);
    let q = exact(fdiv(m, c));
    lemma_close_chain(q * y, exact(m), p, two, two);
    lemma_close_unscaled(q, x, 5 as real, y);
}

/// A score as a number, larger ones better.
pub open spec fn facing(dir: Direction, x: Double) -> real {
    match dir {
        Direction::HigherIsBetter => exact(x),
        Direction::LowerIsBetter => -exact(x),
    }
}

/// Orienting a score turns its sign where lower ones are better.
pub proof fn lemma_orientation(dir: Direction, x: Double)
    requires
        x.finite(),
    ensures
        oriented(dir, x).finite(),
        exact(oriented(dir, x)) == facing(dir, x),
{
    lemma_exact_multiple(x);
}

/// What a registration starts a channel from: no separation baseline; its tag; and a reference
/// whose mean is the declared typical score, whose deviation is half the distance from there to
/// the declared good one, and whose count is the declared weight; no reference where none is
/// declared, or where the good score is no better than the typical one.
pub proof fn lemma_seed_is_the_declared_reference(c: ChannelConfig)
    ensures
        holds_nothing(seed(c).separation),
        seed(c).tag == c.id.tag,
        c.good_score is None ==> holds_nothing(seed(c).reference),
        c.good_score is Some && c.good_score->0.typical.finite() && c.good_score->0.good.finite()
            ==> {
            let g = c.good_score->0;
            let gap = facing(c.direction, g.good) - facing(c.direction, g.typical);
            let r = seed(c).reference;
            &&& gap <= (0 as real) ==> holds_nothing(r)
            &&& ordinary(gap) && g.weight.finite() && exact(g.weight) > (0 as real) ==> {
                &&& r.count == g.weight
                &&& r.mean.finite()
                &&& exact(r.mean) == facing(c.direction, g.typical)
                &&& ordinary(gap * gap / (8 as real)) && ordinary(gap * gap) && ordinary(
                    exact(g.weight),
                ) ==> close((4 as real) * exact(r.spread()), gap * gap, 28 as real)
            }
        },
{
    lemma_small_errors();
    lemma_one();
    lemma_exact_order(fzero(), fzero());
    if c.good_score is Some && c.good_score->0.typical.finite() && c.good_score->0.good.finite() {
        let g = c.good_score->0;
        let a = oriented(c.direction, g.typical);
        let b = oriented(c.direction, g.good);
        lemma_orientation(c.direction, g.typical);
        lemma_orientation(c.direction, g.good);
        let gap = exact(b) - exact(a);
        let sigma = reference_scale(g, c.direction);
        if gap <= (0 as real) {
            lemma_no_scale(a, b);
        }
        if ordinary(gap) {
            lemma_scale_is_half(a, b);
            lemma_exact_order(fzero(), sigma);
            assert(usable(g, c.direction));
            let big = 0x100_0000_0000int as real;
            lemma_close_half((2 as real) * exact(sigma), gap, 4 as real);
            crate::reals::lemma_product_bound(exact(sigma), exact(sigma), big, big);
            assert(big * big <= limit());
            lemma_product_error(sigma, sigma);
            lemma_prior_states_its_parts(a, fmul(sigma, sigma), g.weight);
            if ordinary(gap * gap / (8 as real)) && ordinary(gap * gap) && ordinary(
                exact(g.weight),
            ) && g.weight.finite() {
                lemma_square_of_half(sigma, gap);
                let v = exact(fmul(sigma, sigma));
                assert(ordinary(v));
                let r = seed(c).reference;
                let w = exact(r.spread());
                let four = 4 as real;
                lemma_close_scaled(w, v, 5 as real, four);
                lemma_close_chain(four * w, four * v, gap * gap, 5 as real, 15 as real);
                lemma_close_more(four * w, gap * gap, 21 as real, 28 as real);
            }
        }
    }
}

/// A good score that is no better has no usable scale.
pub proof fn lemma_no_scale(a: Double, b: Double)
    requires
        a.finite(),
        b.finite(),
        exact(b) <= exact(a),
    ensures
        !flt(Double { bits: 0 }, fdiv(fsub(b, a), fcount(2))),
{
    lemma_small_errors();
    lemma_one();
    lemma_exact_count(2);
    lemma_exact_order(fzero(), fzero());
    let d = fsub(b, a);
    let q = fdiv(d, fcount(2));
    if d.finite() {
        crate::precision::lemma_difference_error(b, a);
        let gap = exact(b) - exact(a);
        lemma_scale_order(ulp(), 1 as real, size(gap));
        assert(exact(d) <= (0 as real));
        lemma_negative_half(d);
    } else {
        lemma_negative_infinity(a, b);
    }
    assert(fzero() == Double { bits: 0 });
}

/// Half of a number that is not positive is not.
proof fn lemma_negative_half(d: Double)
    requires
        d.finite(),
        exact(d) <= (0 as real),
    ensures
        !flt(fzero(), fdiv(d, fcount(2))),
{
    lemma_small_errors();
    lemma_one();
    lemma_exact_count(2);
    lemma_exact_multiple(d);
    lemma_exact_order(d, d);
    lemma_exact_order(d, fzero());
    let q = fdiv(d, fcount(2));
    if d.vanishes() {
        lemma_vanishing_quotient(d, fcount(2));
    } else {
        crate::exact::lemma_magnitude_sign(d.unsigned());
        reveal(fdiv);
        let m = crate::rounding::magnitude(d.unsigned());
        let unit = crate::double::unit();
        vstd::arithmetic::power2::lemma_pow2_pos(crate::double::UNIT_EXPONENT as nat);
        crate::exact::lemma_magnitude_sign(fcount(2).unsigned());
        assert(m * unit >= 0) by (nonlinear_arith)
            requires
                m >= 0,
                unit >= 0,
        ;
        crate::double::lemma_round_range(
            m * unit,
            crate::rounding::magnitude(fcount(2).unsigned()),
        );
        assert(d.negative());
    }
}

/// A difference that overflows below stays below.
proof fn lemma_negative_infinity(a: Double, b: Double)
    requires
        a.finite(),
        b.finite(),
        exact(b) <= exact(a),
        !fsub(b, a).finite(),
    ensures
        !flt(fzero(), fdiv(fsub(b, a), fcount(2))),
{
    lemma_one();
    lemma_exact_count(2);
    lemma_exact_multiple(a);
    lemma_exact_multiple(b);
    lemma_exact_order(b, a);
    reveal(fadd);
    reveal(fdiv);
    let v = b.value() - a.value();
    assert(fneg(a).value() == -a.value());
    assert(v <= 0) by {
        crate::precision::lemma_value_order(b, a);
    }
    if v < 0 {
        crate::double::lemma_round_range(-v, 1);
    }
}

/// The scale of a reference is half the distance of the declared scores.
pub proof fn lemma_scale_is_half(a: Double, b: Double)
    requires
        a.finite(),
        b.finite(),
        ordinary(exact(b) - exact(a)),
    ensures
        fdiv(fsub(b, a), fcount(2)).finite(),
        exact(fdiv(fsub(b, a), fcount(2))) > (0 as real),
        close(
            (2 as real) * exact(fdiv(fsub(b, a), fcount(2))),
            exact(b) - exact(a),
            4 as real,
        ),
{
    lemma_small_errors();
    let one = 1 as real;
    let two = 2 as real;
    let gap = exact(b) - exact(a);
    lemma_ordinary(gap);
    lemma_difference_error(b, a);
    let d = fsub(b, a);
    assert(close(exact(d), gap, one)) by {
        assert(one * ulp() == ulp());
    }
    lemma_close_half(exact(d), gap, one);
    lemma_exact_count(2);
    lemma_scale_order(gap, two * exact(d), ulp());
    crate::laws::affine::lemma_scaled_out(ulp(), two, exact(d));
    assert(tiny() * two <= ulp() * exact(d)) by {
        lemma_scale_order(8 as real, 0x100_0000_0000int as real, tiny());
    }
    lemma_scale_order(one, two, limit());
    lemma_quotient_near(d, fcount(2));
    let h = exact(fdiv(d, fcount(2)));
    lemma_commute(h, two);
    lemma_close_chain(two * h, exact(d), gap, two, one);
    lemma_close_half(two * h, gap, 4 as real);
}

/// Four times the square of the half is the square.
proof fn lemma_square_of_half(sigma: Double, gap: real)
    requires
        sigma.finite(),
        exact(sigma) > (0 as real),
        close((2 as real) * exact(sigma), gap, 4 as real),
        ordinary(gap),
        ordinary(gap * gap / (8 as real)),
        ordinary(gap * gap),
    ensures
        fmul(sigma, sigma).finite(),
        ordinary(exact(fmul(sigma, sigma))),
        close((4 as real) * exact(fmul(sigma, sigma)), gap * gap, 15 as real),
{
    lemma_small_errors();
    let two = 2 as real;
    let four = 4 as real;
    let x = exact(sigma);
    let y = two * x;
    lemma_close_product(y, gap, y, gap, 4 as real, 4 as real);
    crate::laws::discounting::lemma_pairs(two, x, two, x);
    let xx = x * x;
    assert(y * y == four * xx);
    lemma_close_half(y * y, gap * gap, 12 as real);
    lemma_positive_product(x, x);
    lemma_ordinary(gap * gap);
    lemma_ordinary(gap * gap / (8 as real));
    lemma_scale_order(gap * gap / (8 as real), xx, ulp());
    lemma_product_near(sigma, sigma);
    let m = exact(fmul(sigma, sigma));
    lemma_close_scaled(m, xx, two, four);
    lemma_close_chain(four * m, four * xx, gap * gap, two, 12 as real);
    lemma_close_half(four * m, gap * gap, 15 as real);
    lemma_close_half(m, xx, two);
    // A quarter of the square, up to rounding, is ordinary too.
    lemma_scale_order((15 as real) * ulp(), (1 as real) / (10 as real), gap * gap);
}

/// What decay leaves of a summary: the mean as it is, and count and squared deviation times
/// the factor, held to zero and one, up to rounding; a factor that is not finite leaves no
/// count.
pub proof fn lemma_decay_scales_confidence(s: MeanVar, factor: Double)
    requires
        s.count.finite(),
        s.m2.finite(),
    ensures
        decayed(s, factor).mean == s.mean,
        factor.finite() ==> {
            let k = held_between(exact(factor), 0 as real, 1 as real);
            &&& scaled_by(s.count, k, decayed(s, factor).count)
            &&& scaled_by(s.m2, k, decayed(s, factor).m2)
        },
        !factor.finite() ==> decayed(s, factor).count.vanishes() && decayed(
            s,
            factor,
        ).m2.vanishes(),
{
    lemma_one();
    lemma_exact_order(fzero(), fone());
    let f = kept_fraction(factor);
    if factor.finite() {
        lemma_kept(factor);
        lemma_scaled(s.count, f);
        lemma_scaled(s.m2, f);
    } else {
        crate::double::lemma_mul_commutes(s.count, fzero());
        crate::double::lemma_mul_commutes(s.m2, fzero());
        lemma_vanishing_product(fzero(), s.count);
        lemma_vanishing_product(fzero(), s.m2);
    }
}

/// A number times a factor, up to rounding.
pub open spec fn scaled_by(x: Double, k: real, y: Double) -> bool {
    &&& y.finite()
    &&& size(exact(y) - exact(x) * k) <= ulp() * size(exact(x) * k) + tiny()
}

/// The kept fraction is the factor held to zero and one.
proof fn lemma_kept(factor: Double)
    requires
        factor.finite(),
    ensures
        kept_fraction(factor).finite(),
        exact(kept_fraction(factor)) == held_between(exact(factor), 0 as real, 1 as real),
{
    lemma_one();
    lemma_exact_order(fzero(), fone());
    lemma_exact_order(factor, fzero());
    lemma_exact_order(fone(), factor);
}

/// A product with a factor up to one does not overflow.
proof fn lemma_scaled(x: Double, f: Double)
    requires
        x.finite(),
        f.finite(),
        (0 as real) <= exact(f) <= (1 as real),
    ensures
        scaled_by(x, exact(f), fmul(x, f)),
{
    crate::precision::lemma_shrinking_product(x, f);
    lemma_product_error(x, f);
}

/// A state decays throughout: every summary of every channel and pair, and the refreshes.
pub proof fn lemma_state_decays_throughout(
    before: RuffleState,
    after: RuffleState,
    factor: Double,
)
    requires
        after.channel_table()@ == before.channel_table()@.map_values(
            |s: ChannelSummary| decayed_channel(s, factor),
        ),
        after.pair_table()@ == before.pair_table()@.map_values(
            |s: PairSummary| decayed_pair(s, factor),
        ),
    ensures
        forall|k: Seq<char>| #[trigger]
            after.channel_table()@.contains_key(k) <==> before.channel_table()@.contains_key(k),
        forall|k: Seq<char>| #[trigger]
            before.channel_table()@.contains_key(k) ==> {
                let x = before.channel_table()@[k];
                let y = after.channel_table()@[k];
                &&& y.tag == x.tag
                &&& y.separation == decayed(x.separation, factor)
                &&& y.reference == decayed(x.reference, factor)
            },
        forall|k: (Seq<char>, Seq<char>)| #[trigger]
            after.pair_table()@.contains_key(k) <==> before.pair_table()@.contains_key(k),
        forall|k: (Seq<char>, Seq<char>)| #[trigger]
            before.pair_table()@.contains_key(k) ==> {
                let x = before.pair_table()@[k];
                let y = after.pair_table()@[k];
                &&& y.redundancy == decayed(x.redundancy, factor)
                &&& factor.finite() && x.refreshes.finite() ==> scaled_by(
                    x.refreshes,
                    held_between(exact(factor), 0 as real, 1 as real),
                    y.refreshes,
                )
            },
{
    assert forall|k: (Seq<char>, Seq<char>)| #[trigger]
        before.pair_table()@.contains_key(k) implies {
        let x = before.pair_table()@[k];
        let y = after.pair_table()@[k];
        &&& y.redundancy == decayed(x.redundancy, factor)
        &&& factor.finite() && x.refreshes.finite() ==> scaled_by(
            x.refreshes,
            held_between(exact(factor), 0 as real, 1 as real),
            y.refreshes,
        )
    } by {
        let x = before.pair_table()@[k];
        assert(after.pair_table()@.contains_key(k));
        if factor.finite() && x.refreshes.finite() {
            lemma_kept(factor);
            lemma_scaled(x.refreshes, kept_fraction(factor));
        }
    }
}

/// What a coupling refresh does: every observed pair, as it is found, is merged with a summary
/// of its correlation without spread that counts the items both channels scored, and counts one
/// refresh more, up to rounding; every other pair stays.
pub proof fn lemma_refresh_merges_each_pair(
    before: Map<(Seq<char>, Seq<char>), PairSummary>,
    observations: Map<(Seq<char>, Seq<char>), PairObservation>,
    cfg: FuseConfig,
)
    ensures
        forall|k: (Seq<char>, Seq<char>)| #[trigger]
            refreshed_pairs(before, observations, cfg).contains_key(k) <==> before.contains_key(k)
                || observations.contains_key(k),
        forall|k: (Seq<char>, Seq<char>)|
            before.contains_key(k) && !observations.contains_key(k) ==> #[trigger] refreshed_pairs(
                before,
                observations,
                cfg,
            )[k] == before[k],
        forall|k: (Seq<char>, Seq<char>)| #[trigger]
            observations.contains_key(k) ==> merges_reading(
                if before.contains_key(k) {
                    Some(before[k])
                } else {
                    None
                },
                observations[k],
                cfg,
                refreshed_pairs(before, observations, cfg)[k],
            ),
{
    assert forall|k: (Seq<char>, Seq<char>)| #[trigger]
        observations.contains_key(k) implies merges_reading(
        if before.contains_key(k) {
            Some(before[k])
        } else {
            None
        },
        observations[k],
        cfg,
        refreshed_pairs(before, observations, cfg)[k],
    ) by {
        let o = observations[k];
        let after = refreshed_pairs(before, observations, cfg);
        assert(after.contains_key(k));
        let old = if before.contains_key(k) {
            before[k].redundancy
        } else {
            empty_summary()
        };
        let reading = prior(o.correlation, fzero(), fcount(o.n_both as int));
        lemma_reading(o);
        assert(after[k].redundancy == pooled(as_found(old, cfg), reading));
        let times = if before.contains_key(k) {
            before[k].refreshes
        } else {
            fzero()
        };
        let found = if cfg.decay.enabled {
            fmul(times, kept_fraction(cfg.decay.factor))
        } else {
            times
        };
        lemma_one();
        lemma_exact_order(fone(), fone());
        assert(after[k].refreshes == fadd(found, fone()));
        if found.finite() && size(exact(found) + (1 as real)) <= limit() {
            lemma_sum_error(found, fone());
        }
    }
}

/// One observation merged into a pair's summary.
pub open spec fn merges_reading(
    before: Option<PairSummary>,
    o: PairObservation,
    cfg: FuseConfig,
    after: PairSummary,
) -> bool {
    let old = if before is Some {
        before->0.redundancy
    } else {
        MeanVar { count: fzero(), mean: fzero(), m2: fzero() }
    };
    let times = if before is Some {
        before->0.refreshes
    } else {
        fzero()
    };
    let found = if cfg.decay.enabled {
        fmul(times, kept_fraction(cfg.decay.factor))
    } else {
        times
    };
    &&& 0 < o.n_both <= 0x20_0000_0000_0000 && o.correlation.finite() ==> exists|r: MeanVar|
        #[trigger] reads_correlation(r, o) && after.redundancy == pooled(as_found(old, cfg), r)
    &&& found.finite() && size(exact(found) + (1 as real)) <= limit() ==> after.refreshes.finite()
        && size(exact(after.refreshes) - (exact(found) + (1 as real))) <= ulp() * size(
        exact(found) + (1 as real),
    )
}

/// A summary of one correlation, counted by the items behind it, without spread.
pub open spec fn reads_correlation(r: MeanVar, o: PairObservation) -> bool {
    &&& r.count.finite()
    &&& exact(r.count) == (o.n_both as real)
    &&& r.mean == o.correlation
    &&& r.m2.vanishes()
}

proof fn lemma_reading(o: PairObservation)
    ensures
        0 < o.n_both <= 0x20_0000_0000_0000 && o.correlation.finite() ==> reads_correlation(
            prior(o.correlation, fzero(), fcount(o.n_both as int)),
            o,
        ),
{
    lemma_one();
    if 0 < o.n_both <= 0x20_0000_0000_0000 && o.correlation.finite() {
        lemma_exact_count(o.n_both as int);
        let c = fcount(o.n_both as int);
        lemma_exact_order(fzero(), c);
        lemma_exact_order(fzero(), fzero());
        lemma_vanishing_product(fzero(), c);
    }
}

} // verus!
