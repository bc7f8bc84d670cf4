//! Laws that hold up to rounding, with how far rounding can move the result.
use crate::closeness::{
    close, lemma_close_back, lemma_close_chain, lemma_close_half, lemma_close_scaled,
    lemma_close_unscaled, lemma_product_near, lemma_quotient_near,
};
use crate::config::ChannelConfig;
use crate::double::{
    fadd, fcount, fdiv, flt, fmul, fone, fzero, lemma_exact_magnitude, lemma_round_range, unit,
    Double, UNIT_EXPONENT,
};
use crate::exact::{
    lemma_magnitude_sign, lemma_one, lemma_power_magnitude, lemma_vanishing_product,
    lemma_vanishing_quotient,
};
use crate::fuser::{judgments, reads_of, seeded_channels, Fused, Fuser};
use crate::ingest::input::ChannelInput;
use crate::precision::{
    exact, lemma_exact_count, lemma_exact_order, lemma_product_error, lemma_small_errors,
    lemma_sum_error, limit, size, tiny, ulp,
};
use crate::reals::{
    lemma_associate, lemma_cancel, lemma_cancel_order, lemma_commute, lemma_distribute,
    lemma_positive_product, lemma_quotient_back, lemma_scale_order,
};
use crate::rounding::{
    lemma_magnitude_increases, lemma_round_monotone, lemma_step, magnitude, spacing, FRACTION,
};
use crate::state::ChannelSummary;
use crate::summary::{decayed, kept_fraction, pushed, MeanVar};
use vstd::arithmetic::power2::{lemma_pow2_adds, lemma_pow2_pos, pow2};
use vstd::prelude::*;

verus! {

/// What rounding adds to the bound on a decaying count, relative to it.
pub open spec fn decay_slack(factor: Double) -> real {
    (8 as real) * ulp() / ((1 as real) - exact(factor))
}

/// A count at most `1 / (1 - factor)`, up to rounding: the effective number of observations
/// that a decaying baseline remembers.
pub open spec fn remembers(count: Double, factor: Double) -> bool {
    &&& count.finite()
    &&& (0 as real) <= exact(count)
    &&& exact(count) * ((1 as real) - exact(factor)) <= (1 as real) + decay_slack(factor)
}

/// A factor that is not negative and lies below one.
pub open spec fn forgets(factor: Double) -> bool {
    &&& factor.finite()
    &&& (0 as real) <= exact(factor)
    &&& exact(factor) < (1 as real)
}

/// No number lies between one and the one that is a rounding error less.
proof fn lemma_below_one(f: Double)
    requires
        f.finite(),
        exact(f) < (1 as real),
    ensures
        exact(f) <= (1 as real) - ulp(),
{
    lemma_small_errors();
    lemma_one();
    lemma_exact_order(f, fone());
    lemma_exact_order(fzero(), fone());
    let u = unit();
    lemma_pow2_pos(UNIT_EXPONENT as nat);
    let a = 1023 * FRACTION;
    lemma_power_magnitude(UNIT_EXPONENT as int);
    lemma_step(a - 1);
    lemma_pow2_adds(53, 1021);
    vstd::arithmetic::power2::lemma2_to64_rest();
    let p = pow2(1021) as int;
    assert((a - 1) / (FRACTION as int) == 1022);
    assert(spacing(a - 1) == p);
    assert(u == 0x20_0000_0000_0000 * p);
    lemma_magnitude_sign(f.unsigned());
    assert(f.value() <= u - p) by {
        if f.negative() {
            assert(p > 0);
        } else {
            let b = f.unsigned();
            let ur = u as real;
            if b >= a {
                if b > a {
                    lemma_magnitude_increases(a, b);
                }
                assert(f.value() >= u);
                lemma_quotient_back(f.value() as real, ur);
                lemma_cancel_order(1 as real, exact(f), ur);
            } else if b < a - 1 {
                lemma_magnitude_increases(b, a - 1);
            }
        }
    }
    let ur = u as real;
    let pr = p as real;
    let big = 0x20_0000_0000_0000int as real;
    lemma_quotient_back(f.value() as real, ur);
    assert(ur == big * pr);
    lemma_distribute(ur, 1 as real, ulp());
    lemma_associate(ulp(), big, pr);
    assert(ulp() * big == (1 as real));
    assert(ulp() * ur == pr);
    lemma_cancel_order(exact(f), (1 as real) - ulp(), ur);
}

/// A large number is whole.
proof fn lemma_large_is_whole(x: Double) -> (k: int)
    requires
        x.finite(),
        (0x10_0000_0000_0000int as real) <= exact(x),
    ensures
        exact(x) == k as real,
{
    lemma_one();
    lemma_exact_order(x, fzero());
    let u = unit();
    lemma_pow2_pos(UNIT_EXPONENT as nat);
    lemma_power_magnitude(1126);
    lemma_pow2_adds(52, UNIT_EXPONENT as nat);
    vstd::arithmetic::power2::lemma2_to64_rest();
    let f = FRACTION as int;
    let low = 1075 * FRACTION;
    let a = x.unsigned();
    lemma_magnitude_sign(a);
    let ur = u as real;
    lemma_quotient_back(x.value() as real, ur);
    lemma_scale_order(0x10_0000_0000_0000int as real, exact(x), ur);
    assert(x.value() >= 0x10_0000_0000_0000 * u);
    assert(!x.negative());
    if a < low {
        lemma_magnitude_increases(a, low);
    }
    let e = a / f;
    let s = f + a % f;
    assert(e >= 1075);
    lemma_pow2_adds(UNIT_EXPONENT as nat, (e - 1 - UNIT_EXPONENT) as nat);
    let t = pow2((e - 1 - UNIT_EXPONENT) as nat) as int;
    let w = pow2((e - 1) as nat) as int;
    assert(w == u * t);
    let k = s * t;
    assert(s * w == k * u) by (nonlinear_arith)
        requires
            w == u * t,
            k == s * t,
    ;
    assert(x.value() == k * u);
    let kr = k as real;
    assert((k * u) as real == kr * ur) by (nonlinear_arith)
        requires
            kr == k as real,
            ur == u as real,
    ;
    lemma_cancel(exact(x), kr, ur);
    k
}

/// A sum with one is no more than a number that the exact sum does not exceed.
proof fn lemma_one_more(m: Double, c: Double)
    requires
        m.finite(),
        c.finite(),
        exact(m) >= (0 as real),
        exact(m) + (1 as real) <= exact(c),
    ensures
        fadd(m, fone()).finite(),
        exact(fadd(m, fone())) <= exact(c),
{
    lemma_one();
    lemma_exact_order(m, fzero());
    lemma_exact_order(c, fzero());
    lemma_exact_order(fzero(), fone());
    reveal(fadd);
    let u = unit();
    let ur = u as real;
    lemma_pow2_pos(UNIT_EXPONENT as nat);
    lemma_quotient_back(m.value() as real, ur);
    lemma_quotient_back(c.value() as real, ur);
    lemma_quotient_back(fone().value() as real, ur);
    lemma_scale_order(exact(m) + (1 as real), exact(c), ur);
    lemma_distribute(ur, exact(m), 1 as real);
    lemma_scale_order(0 as real, exact(m), ur);
    assert(fone().value() == u);
    let v = m.value() + u;
    assert(0 < v <= c.value());
    lemma_magnitude_sign(c.unsigned());
    assert(!c.negative());
    lemma_round_monotone(v, 1, magnitude(c.unsigned()), 1);
    lemma_exact_magnitude(c.unsigned());
    lemma_round_range(v, 1);
    let z = fadd(m, fone());
    assert(z.unsigned() <= c.unsigned() && !z.negative());
    if z.unsigned() < c.unsigned() {
        lemma_magnitude_increases(z.unsigned(), c.unsigned());
    }
    lemma_quotient_back(z.value() as real, ur);
    lemma_cancel_order(exact(z), exact(c), ur);
}

/// With a factor next to one a large count does not grow, and no other grows beyond what
/// counts can be told apart.
proof fn lemma_large_counts_stay(c: Double, f: Double)
    requires
        forgets(f),
        c.finite(),
        (0 as real) <= exact(c),
        exact(c) <= (9 as real) * (0x20_0000_0000_0000int as real),
    ensures
        fmul(c, f).finite(),
        (0 as real) <= exact(fmul(c, f)),
        exact(fmul(c, f)) <= exact(c) || exact(fmul(c, f)) <= (3 as real),
        fadd(fmul(c, f), fone()).finite(),
        (0 as real) < exact(fadd(fmul(c, f), fone())),
        exact(fadd(fmul(c, f), fone())) <= exact(c) || exact(fadd(fmul(c, f), fone())) <= (
        0x20_0000_0000_0000int as real),
{
    lemma_small_errors();
    lemma_below_one(f);
    let e = ulp();
    let one = 1 as real;
    let zero = 0 as real;
    let big = 0x20_0000_0000_0000int as real;
    let x = exact(c);
    let k = exact(f);
    assert((100 as real) * big <= limit());
    lemma_positive_product(x, k);
    lemma_scale_order(k, one - e, x);
    lemma_distribute(x, one, e);
    lemma_commute(x, k);
    let xk = x * k;
    assert(xk <= x - e * x);
    lemma_scale_order(zero, x, e);
    lemma_product_error(c, f);
    let m = fmul(c, f);
    let y = exact(m);
    lemma_unsigned_product(c, f);
    // The product is below the count, where this is not small.
    lemma_scale_order(xk, x - e * x, e);
    lemma_distribute(e, x, e * x);
    lemma_associate(e, e, x);
    assert(y <= x - e * e * x + tiny());
    let two = 2 as real;
    let ee = e * e;
    lemma_positive_product(e, e);
    lemma_scale_order(e, one / (1_000_000 as real), e);
    lemma_one();
    lemma_exact_order(fzero(), fone());
    assert(size(y + one) <= limit());
    lemma_sum_error(m, fone());
    let z = exact(fadd(m, fone()));
    lemma_scale_order(e, one / (1_000_000 as real), y + one);
    if x >= two {
        lemma_scale_order(two, x, ee);
        assert(y < x);
        lemma_exact_count(0x20_0000_0000_0000);
        let cap = fcount(0x20_0000_0000_0000);
        let half = 0x10_0000_0000_0000int as real;
        if x > big {
            if y >= half {
                let i = lemma_large_is_whole(m);
                let j = lemma_large_is_whole(c);
                assert(i < j);
                lemma_one_more(m, c);
            } else {
                lemma_one_more(m, c);
            }
        } else {
            if y >= half {
                let i = lemma_large_is_whole(m);
                assert(i < 0x20_0000_0000_0000);
            }
            lemma_one_more(m, cap);
        }
    } else {
        lemma_positive_product(ee, x);
        assert(y <= (3 as real));
        assert(z <= (5 as real));
    }
}

/// A remembered count that decays and then grows by one is still remembered.
proof fn lemma_remembers_step(c: Double, f: Double)
    requires
        forgets(f),
        remembers(c, f),
    ensures
        remembers(fmul(c, f), f),
        remembers(fadd(fmul(c, f), fone()), f),
        flt(fzero(), fadd(fmul(c, f), fone())),
{
    lemma_small_errors();
    lemma_below_one(f);
    lemma_exact_order(fzero(), fone());
    let e = ulp();
    let x = exact(c);
    let k = exact(f);
    let h = (1 as real) - k;
    let d = decay_slack(f);
    let one = 1 as real;
    let big = 0x20_0000_0000_0000int as real;
    let p = one + d;
    let eight_e = (8 as real) * e;
    lemma_quotient_back(eight_e, h);
    assert(d * h == eight_e);
    // The slack, and the count, are not too large.
    lemma_scale_order(e, h, 8 as real);
    lemma_commute(8 as real, h);
    lemma_cancel_order(d, 8 as real, h);
    let zero = 0 as real;
    assert(zero * h == zero);
    lemma_cancel_order(zero, d, h);
    lemma_scale_order(e, h, x);
    assert(x * e <= (9 as real));
    lemma_associate(x, e, big);
    assert(e * big == one);
    lemma_scale_order(x * e, 9 as real, big);
    assert(x <= (9 as real) * big);
    lemma_large_counts_stay(c, f);
    let m = fmul(c, f);
    let y = exact(m);
    let n = fadd(m, fone());
    let z = exact(n);
    lemma_exact_order(fzero(), n);
    if h < (3 as real) * e {
        // The slack is wide: what counts can be told apart is within it.
        lemma_scale_order(h, (3 as real) * e, d);
        lemma_commute(d, (3 as real) * e);
        lemma_associate(3 as real, e, d);
        assert(eight_e <= (3 as real) * (e * d));
        lemma_commute(e, d);
        lemma_cancel_order((8 as real) / (3 as real), d, e);
        lemma_scale_order(h, (3 as real) * e, big);
        lemma_commute(h, big);
        assert(big * h <= (3 as real));
        if z <= big {
            lemma_scale_order(z, big, h);
        } else {
            lemma_scale_order(z, x, h);
        }
        if y <= (3 as real) {
            lemma_scale_order(y, big, h);
        } else {
            lemma_scale_order(y, x, h);
        }
    } else {
        lemma_remembers_narrow(c, f);
    }
}

/// The step for a factor that rounding cannot take for one.
proof fn lemma_remembers_narrow(c: Double, f: Double)
    requires
        forgets(f),
        remembers(c, f),
        (1 as real) - exact(f) >= (3 as real) * ulp(),
        exact(c) <= (9 as real) * (0x20_0000_0000_0000int as real),
        (0 as real) <= exact(fmul(c, f)),
    ensures
        remembers(fmul(c, f), f),
        remembers(fadd(fmul(c, f), fone()), f),
{
    lemma_small_errors();
    let e = ulp();
    let w = tiny();
    let x = exact(c);
    let k = exact(f);
    let h = (1 as real) - k;
    let d = decay_slack(f);
    let one = 1 as real;
    let zero = 0 as real;
    let p = one + d;
    let eight_e = (8 as real) * e;
    let most = (11 as real) / (3 as real);
    assert((100 as real) * (0x20_0000_0000_0000int as real) <= limit());
    lemma_quotient_back(eight_e, h);
    lemma_scale_order((3 as real) * e, h, (8 as real) / (3 as real));
    lemma_commute((8 as real) / (3 as real), h);
    lemma_cancel_order(d, (8 as real) / (3 as real), h);
    assert(p <= most);
    let a = x * k;
    lemma_positive_product(x, k);
    lemma_scale_order(k, one, x);
    lemma_commute(x, k);
    lemma_product_error(c, f);
    let m = fmul(c, f);
    let y = exact(m);
    lemma_scale_order(e, one, a);
    lemma_one();
    lemma_exact_order(fzero(), fone());
    assert(size(y + one) <= limit());
    lemma_sum_error(m, fone());
    let z = exact(fadd(m, fone()));
    // a * h <= p * k == p - h - 8 e
    lemma_associate(k, x, h);
    lemma_scale_order(x * h, p, k);
    lemma_distribute(p, one, h);
    lemma_distribute(h, one, d);
    lemma_commute(p, h);
    lemma_commute(p, k);
    let ah = a * h;
    assert(ah <= p - h - eight_e);
    // In units of the bound.
    lemma_scale_order(ah, p, e);
    lemma_scale_order(p, most, e);
    assert(e * ah <= most * e);
    lemma_scale_order(h, one, w);
    lemma_scale_order(e, one / (1_000_000 as real), e);
    let s = a + e * a + w;
    lemma_distribute(h, a + e * a, w);
    lemma_distribute(h, a, e * a);
    lemma_associate(e, a, h);
    lemma_scale_order(y, s, h);
    let quarter = (17 as real) / (4 as real);
    assert(s * h <= p - h - quarter * e);
    assert(y * h <= p);
    let t = y + one;
    lemma_distribute(h, y, one);
    let th = t * h;
    assert(th <= p - quarter * e);
    lemma_scale_order(z, t + e * t, h);
    lemma_distribute(h, t, e * t);
    lemma_associate(e, t, h);
    lemma_scale_order(th, p, e);
    assert(e * th <= most * e);
    assert(z * h <= p);
    lemma_scale_order(e, one / (1_000_000 as real), t);
}

/// A product of numbers that are not below zero is not below zero.
proof fn lemma_unsigned_product(x: Double, y: Double)
    requires
        x.finite(),
        y.finite(),
        fmul(x, y).finite(),
        exact(x) >= (0 as real),
        exact(y) >= (0 as real),
    ensures
        exact(fmul(x, y)) >= (0 as real),
{
    lemma_exact_order(fzero(), x);
    lemma_exact_order(fzero(), y);
    lemma_exact_order(fzero(), fmul(x, y));
    crate::exact::lemma_unsigned_results(x, y);
}

/// A channel both of whose counts are remembered.
pub open spec fn channel_remembers(s: ChannelSummary, factor: Double) -> bool {
    remembers(s.separation.count, factor) && remembers(s.reference.count, factor)
}

proof fn lemma_summary_remembers(s: MeanVar, f: Double, x: Double)
    requires
        forgets(f),
        remembers(s.count, f),
    ensures
        remembers(decayed(s, f).count, f),
        remembers(pushed(decayed(s, f), x).count, f),
{
    lemma_small_errors();
    lemma_exact_order(fzero(), f);
    lemma_exact_order(f, fone());
    lemma_kept_whole(f);
    lemma_remembers_step(s.count, f);
    lemma_remembers_none(f);
    let aged = decayed(s, f);
    let n = fadd(aged.count, fone());
    lemma_exact_order(aged.count, fzero());
    lemma_exact_order(n, fzero());
    if aged.backs_nothing() {
        // A first observation counts once.
        assert(exact(aged.count) == (0 as real));
        lemma_sum_error(aged.count, fone());
    }
}

/// A factor between nought and one is kept as it is.
proof fn lemma_kept_whole(f: Double)
    requires
        forgets(f),
    ensures
        kept_fraction(f) == f,
{
    lemma_small_errors();
    lemma_exact_order(fzero(), f);
    lemma_exact_order(f, fone());
}

/// Nought and one are remembered counts.
proof fn lemma_remembers_none(f: Double)
    requires
        forgets(f),
    ensures
        remembers(fzero(), f),
        remembers(fone(), f),
{
    lemma_small_errors();
    lemma_exact_order(fzero(), fone());
    let e = ulp();
    let k = exact(f);
    let h = (1 as real) - k;
    let d = decay_slack(f);
    let zero = 0 as real;
    lemma_quotient_back((8 as real) * e, h);
    assert(zero * h == zero);
    lemma_cancel_order(zero, d, h);
    assert((1 as real) * h == h);
    crate::exact::lemma_one();
}

/// With decay on a baseline forgets: where every count is at most `1 / (1 - factor)`, up to
/// rounding, and every channel of a query that is new declares no good score, every count
/// still is after the query. This holds of every factor below one. The slack for rounding is
/// the same before and after, so the counts never leave the bound.
pub proof fn lemma_decay_bounds_counts<Id>(
    f: Fuser,
    obs: Seq<ChannelInput<Id>>,
    exps: Seq<(Double, Double)>,
    after: Fuser,
    fused: Fused<Id>,
)
    requires
        f.settings().decay.enabled,
        forgets(f.settings().decay.factor),
        forall|k: Seq<char>| #[trigger]
            f.held().channel_table()@.contains_key(k) ==> channel_remembers(
                f.held().channel_table()@[k],
                f.settings().decay.factor,
            ),
        forall|i: int|
            0 <= i < obs.len() && f.registry()@.contains_key((#[trigger] obs[i]).key@)
                && !f.held().channel_table()@.contains_key(obs[i].key@)
                ==> f.registry()@[obs[i].key@].good_score is None,
        f.fuses(obs, exps, after, fused),
    ensures
        forall|k: Seq<char>| #[trigger]
            after.held().channel_table()@.contains_key(k) ==> channel_remembers(
                after.held().channel_table()@[k],
                f.settings().decay.factor,
            ),
{
    let cfg = f.settings();
    let factor = cfg.decay.factor;
    let registry = f.registry()@;
    let channels = f.held().channel_table()@;
    let n = obs.len() as int;
    let seeded = f.baselines_for(obs);
    let discs = judgments(obs, registry, seeded, cfg, exps);
    let reads = reads_of(obs, registry, seeded, discs, n);
    assert forall|k: Seq<char>| #[trigger]
        after.held().channel_table()@.contains_key(k) implies channel_remembers(
        after.held().channel_table()@[k],
        factor,
    ) by {
        lemma_seeded_remembers(obs, registry, channels, factor, n, k);
        assert(seeded.contains_key(k));
        if reads.contains_key(k) {
            let s = seeded[k];
            let d = reads[k];
            let aged = crate::state::decayed_channel(s, factor);
            lemma_summary_remembers(
                s.separation,
                factor,
                crate::weighting::discrimination::winsorized(
                    d.raw_separation->0,
                    aged.separation,
                    cfg.discrimination,
                ),
            );
            lemma_summary_remembers(s.reference, factor, d.top_m_average->0);
        }
    }
}

proof fn lemma_seeded_remembers<Id>(
    obs: Seq<ChannelInput<Id>>,
    registry: Map<Seq<char>, ChannelConfig>,
    channels: Map<Seq<char>, ChannelSummary>,
    factor: Double,
    n: int,
    k: Seq<char>,
)
    requires
        0 <= n <= obs.len(),
        forgets(factor),
        channels.contains_key(k) ==> channel_remembers(channels[k], factor),
        forall|i: int|
            0 <= i < obs.len() && registry.contains_key((#[trigger] obs[i]).key@)
                && !channels.contains_key(obs[i].key@) ==> registry[obs[i].key@].good_score is None,
    ensures
        seeded_channels(obs, registry, channels, n).contains_key(k) ==> channel_remembers(
            seeded_channels(obs, registry, channels, n)[k],
            factor,
        ),
        channels.contains_key(k) ==> seeded_channels(obs, registry, channels, n).contains_key(k),
    decreases n,
{
    if n > 0 {
        lemma_seeded_remembers(obs, registry, channels, factor, n - 1, k);
        lemma_remembers_none(factor);
        assert(obs[n - 1].key@ == obs[n - 1].key@);
    }
}

/// A summary whose count and spread stay clear of the smallest numbers, and of overflow, when
/// they are scaled by a factor and divided.
pub open spec fn decays_clear(s: MeanVar, factor: real) -> bool {
    let c = exact(s.count);
    let m = exact(s.m2);
    &&& s.count.finite()
    &&& s.m2.finite()
    &&& (0 as real) < c <= limit()
    &&& tiny() <= ulp() * (c * factor)
    &&& (0 as real) <= m <= limit()
    &&& (16 as real) * m <= limit() * c
    &&& m > (0 as real) ==> tiny() <= ulp() * (m * factor) && (16 as real) * (tiny() * c) <= ulp()
        * m
}

/// Decay keeps the mean, and the variance up to thirteen rounding errors: count and spread
/// shrink by the same factor.
pub proof fn lemma_decay_keeps_mean_and_variance(s: MeanVar, factor: Double)
    requires
        kept_fraction(factor).finite(),
        exact(kept_fraction(factor)) > (0 as real),
        decays_clear(s, exact(kept_fraction(factor))),
    ensures
        decayed(s, factor).mean == s.mean,
        s.spread().finite(),
        decayed(s, factor).spread().finite(),
        close(exact(decayed(s, factor).spread()), exact(s.spread()), 13 as real),
{
    lemma_small_errors();
    lemma_one();
    let k = kept_fraction(factor);
    let f = exact(k);
    let d = decayed(s, factor);
    let c = exact(s.count);
    let m = exact(s.m2);
    let one = 1 as real;
    let two = 2 as real;
    let zero = 0 as real;
    let u = ulp();
    lemma_kept_at_most_one(factor);
    lemma_positive_product(c, f);
    lemma_positive_product(m, f);
    lemma_scale_order(f, one, c);
    lemma_scale_order(f, one, m);
    lemma_commute(c, one);
    lemma_product_near(s.count, k);
    let c1 = exact(d.count);
    lemma_close_half(c1, c * f, two);
    lemma_exact_order(s.count, fzero());
    lemma_exact_order(d.count, fzero());
    lemma_exact_order(fzero(), fzero());
    if m == zero {
        lemma_still(s, factor);
    } else {
        lemma_product_near(s.m2, k);
        let m1 = exact(d.m2);
        lemma_close_half(m1, m * f, two);
        // The quotients before and after.
        lemma_scale_order(tiny(), (16 as real) * tiny(), c);
        lemma_quotient_near(s.m2, s.count);
        let v = exact(fdiv(s.m2, s.count));
        lemma_decayed_ratio(c, m, f, c1, m1);
        lemma_quotient_near(d.m2, d.count);
        let v1 = exact(fdiv(d.m2, d.count));
        lemma_close_half(v * c, m, two);
        lemma_close_half(v1 * c1, m1, two);
        assert(zero * c == zero && zero * c1 == zero);
        lemma_cancel_order(zero, v, c);
        lemma_cancel_order(zero, v1, c1);
        // What is after, times the scaled count, is near the scaled spread.
        let cf = c * f;
        let mf = m * f;
        lemma_close_chain(v1 * c1, m1, mf, two, two);
        lemma_close_back(c1, cf, two);
        lemma_close_scaled(cf, c1, 3 as real, v1);
        lemma_close_chain(v1 * cf, v1 * c1, mf, 3 as real, 5 as real);
        // So is what was before.
        lemma_close_scaled(v * c, m, two, f);
        lemma_associate(v, c, f);
        lemma_close_back(v * cf, mf, two);
        lemma_close_chain(v1 * cf, mf, v * cf, 9 as real, 3 as real);
        lemma_close_unscaled(v1, v, 13 as real, cf);
        lemma_exact_order(fdiv(s.m2, s.count), fzero());
        lemma_exact_order(fdiv(d.m2, d.count), fzero());
    }
}

/// A kept fraction is at most one.
proof fn lemma_kept_at_most_one(factor: Double)
    requires
        kept_fraction(factor).finite(),
    ensures
        exact(kept_fraction(factor)) <= (1 as real),
{
    lemma_one();
    let k = kept_fraction(factor);
    lemma_exact_order(k, fone());
    lemma_exact_order(fzero(), fone());
    if factor.finite() {
        lemma_exact_order(fone(), factor);
        lemma_exact_order(factor, fzero());
    }
}

/// The spread over the count is of the same size after decay.
proof fn lemma_decayed_ratio(c: real, m: real, f: real, c1: real, m1: real)
    requires
        (0 as real) < c,
        (0 as real) < m,
        (0 as real) < f,
        (16 as real) * m <= limit() * c,
        (16 as real) * (tiny() * c) <= ulp() * m,
        c * f <= (2 as real) * c1,
        c1 <= (2 as real) * (c * f),
        m * f <= (2 as real) * m1,
        m1 <= (2 as real) * (m * f),
    ensures
        (0 as real) < c1,
        (0 as real) < m1,
        m1 <= limit() * c1,
        tiny() * c1 <= ulp() * m1,
{
    lemma_small_errors();
    let sixteen = 16 as real;
    let two = 2 as real;
    lemma_positive_product(c, f);
    lemma_positive_product(m, f);
    let cf = c * f;
    let mf = m * f;
    lemma_scale_order(sixteen * m, limit() * c, f);
    lemma_associate(sixteen, m, f);
    lemma_associate(limit(), c, f);
    lemma_scale_order(cf, two * c1, limit());
    lemma_associate(limit(), two, c1);
    lemma_commute(limit(), two);
    lemma_associate(two, limit(), c1);
    lemma_scale_order(sixteen * (tiny() * c), ulp() * m, f);
    lemma_associate(sixteen, tiny() * c, f);
    lemma_associate(tiny(), c, f);
    lemma_associate(ulp(), m, f);
    lemma_scale_order(c1, two * cf, tiny());
    lemma_associate(tiny(), two, cf);
    lemma_commute(tiny(), two);
    lemma_associate(two, tiny(), cf);
    lemma_scale_order(mf, two * m1, ulp());
    lemma_associate(ulp(), two, m1);
    lemma_commute(ulp(), two);
    lemma_associate(two, ulp(), m1);
    lemma_positive_product(tiny(), cf);
    lemma_positive_product(ulp(), m1);
}

/// Without spread there is none after decay.
proof fn lemma_still(s: MeanVar, factor: Double)
    requires
        kept_fraction(factor).finite(),
        s.count.finite(),
        s.m2.finite(),
        exact(s.count) > (0 as real),
        decayed(s, factor).count.finite(),
        exact(decayed(s, factor).count) > (0 as real),
        exact(s.m2) == (0 as real),
    ensures
        s.spread().finite(),
        decayed(s, factor).spread().finite(),
        exact(s.spread()) == (0 as real),
        exact(decayed(s, factor).spread()) == (0 as real),
        close(exact(decayed(s, factor).spread()), exact(s.spread()), 13 as real),
{
    lemma_small_errors();
    lemma_one();
    let k = kept_fraction(factor);
    let d = decayed(s, factor);
    let zero = 0 as real;
    lemma_exact_order(s.m2, fzero());
    lemma_vanishing_product(s.m2, k);
    lemma_exact_order(s.count, fzero());
    lemma_exact_order(d.count, fzero());
    lemma_vanishing_quotient(s.m2, s.count);
    lemma_vanishing_quotient(d.m2, d.count);
    let x = fdiv(s.m2, s.count);
    let y = fdiv(d.m2, d.count);
    lemma_exact_order(x, fzero());
    lemma_exact_order(y, fzero());
    lemma_exact_order(fzero(), fzero());
    assert((13 as real) * ulp() * zero == zero);
}

} // verus!
