//! Laws of the weights: neutral points, bounds, redundancy, and declared base weights.
use crate::config::{is_non_negative, CouplingConfig, DiscriminationConfig};
use crate::double::{
    fadd, fcount, fdiv, feq, fle, flt, fmax, fmul, fone, fratio, fsub, fzero, lemma_count_finite,
    lemma_small_counts, unit, Double,
};
use crate::exact::{
    lemma_complement, lemma_count_exact, lemma_count_next, lemma_div_one, lemma_div_self,
    lemma_half, lemma_magnitude_sign, lemma_mul_one, lemma_mul_zero, lemma_neutral_mixture,
    lemma_one, lemma_plus_zero, lemma_root_one, lemma_unsigned_results, lemma_zero_div,
    unsigned_or_nan,
};
use crate::fuser::{tilted, tilted_raw, top_base};
use crate::keys::canonical;
use crate::numeric::fsum;
use crate::rounding::{lemma_magnitude_increases, magnitude};
use crate::weighting::coupling::{
    channel_scale, cleared, correlation_matrix, coupled, covariance_matrix, diagnosed, discount,
    effective_count, grid_sum, has_overlap, in_all, in_any, inverse_matrix, keyed, normalized, ones,
    overlap_share, positive_parts, raw_weights, shrinkage, shrunk_entry, strengths, PairBaseline,
};
use crate::weighting::discrimination::{
    discrimination, held, neutral_factor, shrunk, squashed, weight_of, PoolReading,
};
use crate::weighting::linalg::{
    back, back_rest, basis, factor, factor_of, factors, forward, forward_rest, passes, residual,
    solution,
};
use vstd::prelude::*;

verus! {

/// Magnitudes tell encodings apart.
proof fn lemma_magnitude_injective(a: int, b: int)
    requires
        0 <= a,
        0 <= b,
        magnitude(a) == magnitude(b),
    ensures
        a == b,
{
    if a < b {
        lemma_magnitude_increases(a, b);
    } else if b < a {
        lemma_magnitude_increases(b, a);
    }
}

/// Both factors at their neutral midpoint give the weight one, whatever the cap and the floor,
/// as long as these admit it.
pub proof fn lemma_neutral_point(cfg: DiscriminationConfig)
    requires
        fle(cfg.g_floor, fone()),
        fle(fone(), cfg.g_upper_bound),
    ensures
        weight_of(neutral_factor(), neutral_factor(), cfg) == fone(),
{
    lemma_half();
    lemma_one();
    lemma_count_exact(4);
    lemma_count_exact(2);
    let half = fratio(1, 2);
    let four = fcount(4);
    let two = fmul(four, half);
    let u = unit();
    assert(four.unsigned() >= 2 * crate::rounding::FRACTION) by {
        lemma_count_finite(4);
    }
    crate::exact::lemma_halved(four);
    lemma_magnitude_injective(two.unsigned(), fcount(2).unsigned());
    assert(two == fcount(2));
    lemma_count_finite(2);
    crate::exact::lemma_halved(two);
    let one = fmul(two, half);
    lemma_magnitude_injective(one.unsigned(), fone().unsigned());
    assert(one == fone());
}

/// A logistic factor whose exponential is one is exactly neutral, whatever the evidence.
pub proof fn lemma_norm_is_neutral(lambda: Double)
    requires
        !lambda.nan(),
        !lambda.negative(),
    ensures
        shrunk(lambda, fone()) == neutral_factor(),
{
    lemma_small_counts();
    lemma_count_next(1);
    assert(squashed(fone()) == fratio(1, 2));
    lemma_one();
    let l = held(lambda);
    assert(l.finite() && !l.negative() && fle(fzero(), l) && fle(l, fone()));
    lemma_neutral_mixture(l);
}

/// A channel without a trusted separation baseline and without a reference is exactly
/// neutral: its weight is one.
pub proof fn lemma_cold_channel_is_neutral(
    r: PoolReading,
    cfg: DiscriminationConfig,
    goodness_exp: Double,
)
    requires
        !r.pool_factor.nan(),
        !r.pool_factor.negative(),
        r.goodness_z is None,
        fle(cfg.g_floor, fone()),
        fle(fone(), cfg.g_upper_bound),
    ensures
        discrimination(r, cfg, fone(), goodness_exp).g == fone(),
{
    lemma_norm_is_neutral(r.pool_factor);
    lemma_neutral_point(cfg);
}

/// The identity matrix.
pub open spec fn identity(n: nat) -> Seq<Seq<Double>> {
    Seq::new(
        n,
        |i: int|
            Seq::new(
                n,
                |j: int|
                    if i == j {
                        fone()
                    } else {
                        fzero()
                    },
            ),
    )
}

/// Where no pair is discounted the correlation matrix is exactly the identity.
pub proof fn lemma_no_discount_no_correlation(
    redundancy: Map<(Seq<char>, Seq<char>), PairBaseline>,
    keys: Seq<Seq<char>>,
    cfg: CouplingConfig,
)
    requires
        forall|i: int, j: int|
            0 <= i < keys.len() && 0 <= j < keys.len() && i != j ==> #[trigger] discount(
                redundancy,
                keys[i],
                keys[j],
                cfg,
            ) == fzero(),
    ensures
        correlation_matrix(redundancy, keys, cfg) == identity(keys.len()),
{
    lemma_one();
    let s = shrinkage(cfg);
    assert(s.finite() && fle(fzero(), s) && fle(s, fone()));
    let d = fsub(fone(), s);
    crate::exact::lemma_complement_value(s);
    lemma_complement(s);
    lemma_mul_one(d);
    lemma_mul_one(s);
    lemma_mul_zero(d);
    lemma_mul_zero(s);
    assert(shrunk_entry(fone(), fone(), cfg) == fone());
    assert(shrunk_entry(fzero(), fzero(), cfg) == fzero()) by {
        reveal(fadd);
        lemma_magnitude_sign(0);
    }
    let m = correlation_matrix(redundancy, keys, cfg);
    assert forall|i: int| 0 <= i < keys.len() implies #[trigger] m[i] == identity(keys.len())[i] by {
        assert forall|j: int| 0 <= j < keys.len() implies #[trigger] m[i][j] == identity(
            keys.len(),
        )[i][j] by {
            if i != j {
                assert(discount(redundancy, keys[i], keys[j], cfg) == fzero());
            }
        }
        assert(m[i] =~= identity(keys.len())[i]);
    }
    assert(m =~= identity(keys.len()));
}

/// With coupling off the correlation matrix is exactly the identity.
pub proof fn lemma_coupling_off_is_independence(
    redundancy: Map<(Seq<char>, Seq<char>), PairBaseline>,
    keys: Seq<Seq<char>>,
    cfg: CouplingConfig,
)
    requires
        !cfg.enabled,
    ensures
        correlation_matrix(redundancy, keys, cfg) == identity(keys.len()),
{
    lemma_no_discount_no_correlation(redundancy, keys, cfg);
}

proof fn lemma_identity_residual(n: nat, i: int, j: int, k: int)
    requires
        0 <= k <= j <= i < n,
    ensures
        residual(identity(n), i, j, k) == identity(n)[i][j],
    decreases i, j, k,
{
    if k > 0 {
        lemma_identity_residual(n, i, j, k - 1);
        lemma_identity_factor(n, i, k - 1);
        lemma_identity_factor(n, j, k - 1);
        lemma_one();
        let a = factor(identity(n), i, k - 1);
        let b = factor(identity(n), j, k - 1);
        lemma_mul_zero(a);
        lemma_mul_zero(b);
        assert(fmul(a, b) == fzero());
        lemma_plus_zero(fone());
        lemma_plus_zero(fzero());
    }
}

proof fn lemma_identity_factor(n: nat, i: int, j: int)
    requires
        0 <= j <= i < n,
    ensures
        factor(identity(n), i, j) == identity(n)[i][j],
    decreases i, j, j + 1,
{
    lemma_identity_residual(n, i, j, j);
    lemma_one();
    if i == j {
        lemma_root_one();
    } else {
        lemma_identity_factor(n, j, j);
        lemma_zero_div(fone());
    }
}

/// The identity factors, and its factor is itself.
pub proof fn lemma_identity_factors(n: nat)
    ensures
        factors(identity(n)),
{
    let m = identity(n);
    lemma_one();
    assert forall|i: int, j: int| 0 <= j <= i < n implies #[trigger] passes(m, i, j) by {
        lemma_identity_residual(n, i, i, i);
        lemma_identity_factor(n, j, j);
    }
}

proof fn lemma_identity_forward_rest(n: nat, b: Seq<Double>, i: int, k: int)
    requires
        0 <= k <= i < n,
        b.len() == n,
        forall|h: int| 0 <= h < n ==> #[trigger] b[h] == fone() || b[h] == fzero(),
    ensures
        forward_rest(factor_of(identity(n)), b, i, k) == b[i],
    decreases i, k,
{
    lemma_one();
    assert(b[i] == fone() || b[i] == fzero());
    lemma_plus_zero(b[i]);
    if k > 0 {
        lemma_identity_forward_rest(n, b, i, k - 1);
        lemma_identity_forward_entry(n, b, k - 1);
        lemma_identity_factor(n, i, k - 1);
        assert(b[k - 1] == fone() || b[k - 1] == fzero());
        lemma_mul_zero(b[k - 1]);
    }
}

proof fn lemma_identity_forward_entry(n: nat, b: Seq<Double>, i: int)
    requires
        0 <= i < n,
        b.len() == n,
        forall|h: int| 0 <= h < n ==> #[trigger] b[h] == fone() || b[h] == fzero(),
    ensures
        forward(factor_of(identity(n)), b, i) == b[i],
    decreases i, i + 1,
{
    lemma_one();
    lemma_identity_forward_rest(n, b, i, i);
    lemma_identity_factor(n, i, i);
    assert(b[i] == fone() || b[i] == fzero());
    lemma_div_one(b[i]);
}

proof fn lemma_identity_back_rest(n: nat, y: Seq<Double>, i: int, k: int)
    requires
        0 <= i < k <= n,
        y.len() == n,
        forall|h: int| 0 <= h < n ==> #[trigger] y[h] == fone() || y[h] == fzero(),
    ensures
        back_rest(factor_of(identity(n)), y, i, k) == y[i],
    decreases n - i, k,
{
    lemma_one();
    assert(y[i] == fone() || y[i] == fzero());
    lemma_plus_zero(y[i]);
    if k > i + 1 {
        lemma_identity_back_rest(n, y, i, k - 1);
        lemma_identity_back_entry(n, y, k - 1);
        lemma_identity_factor(n, k - 1, i);
        assert(y[k - 1] == fone() || y[k - 1] == fzero());
        lemma_mul_zero(y[k - 1]);
    }
}

proof fn lemma_identity_back_entry(n: nat, y: Seq<Double>, i: int)
    requires
        0 <= i < n,
        y.len() == n,
        forall|h: int| 0 <= h < n ==> #[trigger] y[h] == fone() || y[h] == fzero(),
    ensures
        back(factor_of(identity(n)), y, i) == y[i],
    decreases n - i, n + 1,
{
    lemma_one();
    lemma_identity_back_rest(n, y, i, n as int);
    lemma_identity_factor(n, i, i);
    assert(y[i] == fone() || y[i] == fzero());
    lemma_div_one(y[i]);
}

/// Solving against the identity gives a vector of ones and zeros back.
pub proof fn lemma_identity_solves(n: nat, b: Seq<Double>)
    requires
        b.len() == n,
        forall|h: int| 0 <= h < n ==> #[trigger] b[h] == fone() || b[h] == fzero(),
    ensures
        solution(factor_of(identity(n)), b) == b,
{
    let l = factor_of(identity(n));
    let y = Seq::new(b.len(), |i: int| forward(l, b, i));
    assert forall|i: int| 0 <= i < n implies #[trigger] y[i] == b[i] by {
        lemma_identity_forward_entry(n, b, i);
    }
    assert(y =~= b);
    assert forall|i: int| 0 <= i < n implies #[trigger] back(l, y, i) == b[i] by {
        lemma_identity_back_entry(n, y, i);
    }
    assert(solution(l, b) =~= b);
}

/// So many ones add up to their number.
proof fn lemma_sum_of_ones(n: nat, k: int)
    requires
        0 <= k <= n,
        n <= 0x20_0000_0000_0000,
    ensures
        fsum(ones(n), 0, k) == fcount(k),
    decreases k,
{
    lemma_small_counts();
    if k > 0 {
        lemma_sum_of_ones(n, k - 1);
        lemma_count_next(k - 1);
    }
}

/// Equal discrimination weights of one, and no correlation, give every channel the weight one.
pub proof fn lemma_even_weights(n: nat)
    requires
        n <= 0x20_0000_0000_0000,
    ensures
        normalized(positive_parts(raw_weights(ones(n), identity(n)))) == ones(n),
{
    lemma_one();
    lemma_root_one();
    lemma_div_one(fone());
    lemma_mul_one(fone());
    lemma_mul_one(fzero());
    assert(channel_scale(fone()) == fone());
    let sigma = covariance_matrix(ones(n), identity(n));
    assert forall|i: int| 0 <= i < n implies #[trigger] sigma[i] == identity(n)[i] by {
        assert(sigma[i] =~= identity(n)[i]);
    }
    assert(sigma =~= identity(n));
    lemma_identity_factors(n);
    lemma_identity_solves(n, ones(n));
    let x = raw_weights(ones(n), identity(n));
    assert(x == ones(n));
    let c = positive_parts(x);
    assert(c =~= ones(n));
    lemma_sum_of_ones(n, n as int);
    let w = normalized(c);
    assert forall|i: int| 0 <= i < n implies #[trigger] w[i] == fone() by {
        lemma_count_exact(n as int);
        lemma_mul_one(fcount(n as int));
        lemma_div_self(fcount(n as int));
    }
    assert(w =~= ones(n));
}

/// Channels whose discrimination weights are all one, and that no pair discounts, are all
/// weighted one.
pub proof fn lemma_even_channels_weigh_one(
    g: Map<Seq<char>, Double>,
    redundancy: Map<(Seq<char>, Seq<char>), PairBaseline>,
    keys: Seq<Seq<char>>,
    cfg: CouplingConfig,
)
    requires
        !cfg.enabled,
        keys.len() <= 0x20_0000_0000_0000,
        forall|i: int|
            0 <= i < keys.len() ==> g.contains_key(#[trigger] keys[i]) && g[keys[i]] == fone(),
    ensures
        coupled(g, redundancy, keys, cfg) == ones(keys.len()),
{
    lemma_one();
    assert(strengths(g, keys) =~= ones(keys.len()));
    lemma_coupling_off_is_independence(redundancy, keys, cfg);
    lemma_even_weights(keys.len());
}

proof fn lemma_identity_grid_sum(n: nat, i: int, j: int)
    requires
        0 <= i <= n,
        0 <= j <= n,
        i == n ==> j == 0,
        n <= 0x20_0000_0000_0000,
    ensures
        grid_sum(identity(n), i, j) == fcount(
            i + if j > i {
                1int
            } else {
                0
            },
        ),
    decreases i, j,
{
    lemma_small_counts();
    if j > 0 {
        lemma_identity_grid_sum(n, i, j - 1);
        if i == j - 1 {
            lemma_count_next(i);
        } else {
            lemma_count_exact(i);
            lemma_count_exact(i + 1);
            if i == 0 && j - 1 <= i {
                lemma_plus_zero(fzero());
            } else {
                lemma_plus_zero(fcount(i));
                lemma_plus_zero(fcount(i + 1));
            }
        }
    } else if i > 0 {
        lemma_identity_grid_sum(n, i - 1, n as int);
    }
}

/// Channels that no pair discounts count in full: as many effective channels as channels.
pub proof fn lemma_independent_channels_count_fully(n: nat)
    requires
        n <= 0x20_0000_0000_0000,
    ensures
        effective_count(identity(n)) == fcount(n as int),
{
    lemma_identity_factors(n);
    let inv = inverse_matrix(identity(n));
    assert forall|i: int| 0 <= i < n implies #[trigger] inv[i] == identity(n)[i] by {
        assert forall|j: int| 0 <= j < n implies #[trigger] inv[i][j] == identity(n)[i][j] by {
            lemma_identity_solves(n, basis(n, j));
        }
        assert(inv[i] =~= identity(n)[i]);
    }
    assert(inv =~= identity(n));
    lemma_identity_grid_sum(n, n as int, 0);
    lemma_count_finite(n as int);
}

/// A pair that does not count is as good as absent: one that fails a requirement, or whose
/// mean is not above zero, discounts nothing, and every weight and the effective number of
/// channels are what they are without it.
pub proof fn lemma_pair_that_fails_is_absent(
    g: Map<Seq<char>, Double>,
    redundancy: Map<(Seq<char>, Seq<char>), PairBaseline>,
    keys: Seq<Seq<char>>,
    cfg: CouplingConfig,
    pair: (Seq<char>, Seq<char>),
)
    requires
        redundancy.contains_key(pair),
        !cleared(redundancy[pair], cfg) || !flt(fzero(), redundancy[pair].redundancy.mean),
    ensures
        coupled(g, redundancy, keys, cfg) == coupled(g, redundancy.remove(pair), keys, cfg),
        effective_count(correlation_matrix(redundancy, keys, cfg)) == effective_count(
            correlation_matrix(redundancy.remove(pair), keys, cfg),
        ),
{
    let fewer = redundancy.remove(pair);
    let a = correlation_matrix(redundancy, keys, cfg);
    let b = correlation_matrix(fewer, keys, cfg);
    assert forall|i: int| 0 <= i < keys.len() implies #[trigger] a[i] == b[i] by {
        assert forall|j: int| 0 <= j < keys.len() implies #[trigger] a[i][j] == b[i][j] by {
            if canonical(keys[i], keys[j]) == pair {
                assert(discount(redundancy, keys[i], keys[j], cfg) == fzero());
            }
            assert(discount(redundancy, keys[i], keys[j], cfg) == discount(
                fewer,
                keys[i],
                keys[j],
                cfg,
            ));
        }
        assert(a[i] =~= b[i]);
    }
    assert(a =~= b);
}

/// A redundancy only ever discounts: it lies between nought and the cap.
pub proof fn lemma_discount_bounded(
    redundancy: Map<(Seq<char>, Seq<char>), PairBaseline>,
    a: Seq<char>,
    b: Seq<char>,
    cfg: CouplingConfig,
)
    ensures
        fle(fzero(), discount(redundancy, a, b, cfg)),
        fle(discount(redundancy, a, b, cfg), fmax(cfg.discount_cap, fzero())),
{
}

/// The redundancy of a pair does not depend on which channel comes first.
pub proof fn lemma_discount_symmetric(
    redundancy: Map<(Seq<char>, Seq<char>), PairBaseline>,
    a: Seq<char>,
    b: Seq<char>,
    cfg: CouplingConfig,
)
    ensures
        discount(redundancy, a, b, cfg) == discount(redundancy, b, a, cfg),
{
    crate::keys::lemma_canonical_symmetric(a, b);
}

/// No weight that coupling gives is negative.
pub proof fn lemma_coupled_not_negative(
    g: Map<Seq<char>, Double>,
    redundancy: Map<(Seq<char>, Seq<char>), PairBaseline>,
    keys: Seq<Seq<char>>,
    cfg: CouplingConfig,
    i: int,
)
    requires
        0 <= i < coupled(g, redundancy, keys, cfg).len(),
        keys.len() <= u64::MAX,
    ensures
        !flt(coupled(g, redundancy, keys, cfg)[i], fzero()),
{
    let x = raw_weights(strengths(g, keys), correlation_matrix(redundancy, keys, cfg));
    let c = positive_parts(x);
    assert forall|h: int| 0 <= h < c.len() implies unsigned_or_nan(#[trigger] c[h]) by {}
    lemma_scaled_not_negative(c, i);
}

proof fn lemma_scaled_not_negative(c: Seq<Double>, i: int)
    requires
        0 <= i < c.len() <= u64::MAX,
        forall|h: int| 0 <= h < c.len() ==> unsigned_or_nan(#[trigger] c[h]),
    ensures
        !flt(normalized(c)[i], fzero()),
{
    lemma_one();
    let total = fsum(c, 0, c.len() as int);
    let nf = fcount(c.len() as int);
    lemma_count_finite(c.len() as int);
    assert(unsigned_or_nan(c[i]));
    lemma_unsigned_results(nf, c[i]);
    if flt(fzero(), total) {
        lemma_unsigned_results(fmul(nf, c[i]), total);
    }
}

/// Tilting keeps weights from being negative.
pub proof fn lemma_tilted_not_negative(weights: Seq<Double>, bases: Seq<Double>, i: int)
    requires
        0 <= i < weights.len() <= u64::MAX,
        bases.len() == weights.len(),
        forall|h: int| 0 <= h < weights.len() ==> !flt(#[trigger] weights[h], fzero()),
        forall|h: int| 0 <= h < bases.len() ==> is_non_negative(#[trigger] bases[h]),
    ensures
        !flt(tilted(weights, bases)[i], fzero()),
{
    let raw = tilted_raw(weights, bases);
    let top = top_base(bases, bases.len() as int);
    assert forall|h: int| 0 <= h < raw.len() implies unsigned_or_nan(#[trigger] raw[h]) by {
        if flt(fzero(), top) {
            assert(!flt(weights[h], fzero()));
            assert(is_non_negative(bases[h]));
            lemma_unsigned_results(bases[h], top);
            lemma_unsigned_results(weights[h], fdiv(bases[h], top));
        }
    }
    assert(!flt(weights[i], fzero()));
    assert(unsigned_or_nan(raw[i]));
    let total = fsum(raw, 0, raw.len() as int);
    let nf = fcount(raw.len() as int);
    lemma_count_finite(raw.len() as int);
    lemma_unsigned_results(nf, raw[i]);
    if flt(fzero(), total) {
        lemma_unsigned_results(fmul(nf, raw[i]), total);
    }
}

proof fn lemma_level_top(bases: Seq<Double>, b: Double, n: int)
    requires
        0 < n <= bases.len(),
        flt(fzero(), b),
        forall|i: int| 0 <= i < bases.len() ==> #[trigger] bases[i] == b,
    ensures
        top_base(bases, n) == b,
    decreases n,
{
    assert(bases[n - 1] == b);
    if n > 1 {
        lemma_level_top(bases, b, n - 1);
    } else {
        assert(top_base(bases, 0) == fzero());
    }
}

/// Only what base weights say of channels relative to each other matters: equal ones, of
/// whatever size, change no weight.
pub proof fn lemma_equal_bases_change_nothing(weights: Seq<Double>, bases: Seq<Double>, b: Double)
    requires
        bases.len() == weights.len(),
        flt(fzero(), b),
        forall|i: int| 0 <= i < bases.len() ==> #[trigger] bases[i] == b,
    ensures
        tilted(weights, bases) == weights,
{
    if weights.len() > 0 {
        lemma_level_top(bases, b, bases.len() as int);
    } else {
        assert(tilted_raw(weights, bases) =~= weights);
        assert(tilted(weights, bases) =~= weights);
    }
}

/// A base weight of nought silences its channel.
pub proof fn lemma_zero_base_silences(weights: Seq<Double>, bases: Seq<Double>, i: int)
    requires
        0 <= i < weights.len() <= u64::MAX,
        bases.len() == weights.len(),
        bases[i] == fzero(),
        forall|h: int| 0 <= h < bases.len() ==> is_non_negative(#[trigger] bases[h]),
        weights[i].finite(),
        !weights[i].negative(),
    ensures
        tilted(weights, bases)[i] == fzero(),
{
    let raw = tilted_raw(weights, bases);
    let top = top_base(bases, bases.len() as int);
    let total = fsum(raw, 0, raw.len() as int);
    let nf = fcount(raw.len() as int);
    lemma_top_finite(bases, bases.len() as int);
    if flt(fzero(), top) {
        lemma_zero_div(top);
        lemma_mul_zero(weights[i]);
        assert(!feq(bases[i], top));
    }
    assert(raw[i] == fzero());
    lemma_count_finite(raw.len() as int);
    lemma_mul_zero(nf);
    if flt(fzero(), total) {
        lemma_zero_div(total);
    }
}

proof fn lemma_top_finite(bases: Seq<Double>, n: int)
    requires
        0 <= n <= bases.len(),
        forall|h: int| 0 <= h < bases.len() ==> is_non_negative(#[trigger] bases[h]),
    ensures
        top_base(bases, n).finite(),
        top_base(bases, n).rank() >= 0,
    decreases n,
{
    if n > 0 {
        lemma_top_finite(bases, n - 1);
        assert(is_non_negative(bases[n - 1]));
    }
}

/// The two diagnostics lie between nought and one.
pub proof fn lemma_diagnostics_in_range<Id>(lists: Seq<Seq<Id>>)
    requires
        in_any(lists).finite(),
        in_any(lists).len() <= u64::MAX,
    ensures
        fle(fzero(), diagnosed(lists).confidence),
        fle(diagnosed(lists).confidence, fone()),
        fle(fzero(), diagnosed(lists).conflict),
        fle(diagnosed(lists).conflict, fone()),
{
    lemma_one();
    if has_overlap(lists) {
        let u = in_any(lists);
        let x = in_all(lists);
        let h = choose|h: int| 0 <= h < lists.len() && (#[trigger] lists[h]).len() > 0;
        let id = lists[h][0];
        assert(lists[h].contains(id));
        assert(u.contains(id));
        if u.len() == 0 {
            assert(u.is_empty());
        }
        assert(x.subset_of(u)) by {
            assert forall|y: Id| x.contains(y) implies u.contains(y) by {
                assert(lists[0].contains(y));
            }
        }
        vstd::set_lib::lemma_set_subset_finite(u, x);
        vstd::set_lib::lemma_len_subset(x, u);
        crate::exact::lemma_share(x.len() as int, u.len() as int);
        crate::exact::lemma_complement_value(overlap_share(lists));
    }
}

/// Where no key is repeated every key has its own weight.
pub proof fn lemma_each_key_has_its_weight(
    keys: Seq<Seq<char>>,
    values: Seq<Double>,
    n: int,
    i: int,
)
    requires
        keys.no_duplicates(),
        0 <= i < n <= keys.len(),
    ensures
        keyed(keys, values, n).contains_key(keys[i]),
        keyed(keys, values, n)[keys[i]] == values[i],
    decreases n,
{
    if i < n - 1 {
        lemma_each_key_has_its_weight(keys, values, n - 1, i);
    }
}

} // verus!
