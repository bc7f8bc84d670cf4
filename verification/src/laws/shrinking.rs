//! What the redundancy correlations are: a pair's mean held to the cap and shrunk toward
//! independence.
use crate::config::CouplingConfig;
use crate::double::{fcount, fle, fmax, fmin, fmul, fone, fsub, fzero, Double};
use crate::exact::{lemma_mul_one, lemma_mul_zero, lemma_one, lemma_plus_zero};
use crate::keys::{canonical, lemma_canonical_symmetric};
use crate::laws::weights::{
    identity, lemma_coupling_off_is_independence, lemma_independent_channels_count_fully,
};
use crate::precision::{
    exact, lemma_difference_error, lemma_exact_order, lemma_product_error, lemma_small_errors, size,
    tiny, ulp,
};
use crate::reals::{
    lemma_associate, lemma_commute, lemma_distribute, lemma_positive_product, lemma_product_bound,
    lemma_scale_order,
};
use crate::weighting::coupling::{
    correlation_matrix, coupled, discount, effective_count, shrinkage, shrunk_entry, PairBaseline,
};
use vstd::prelude::*;

verus! {

/// The pair of two channels counts: coupling is on, the pair has a baseline with a finite mean,
/// and this has enough observations and refreshes and little enough variance.
pub open spec fn pair_counts(
    redundancy: Map<(Seq<char>, Seq<char>), PairBaseline>,
    a: Seq<char>,
    b: Seq<char>,
    cfg: CouplingConfig,
) -> bool {
    let k = canonical(a, b);
    &&& cfg.enabled
    &&& redundancy.contains_key(k)
    &&& redundancy[k].redundancy.mean.finite()
    &&& fle(cfg.min_reliability, redundancy[k].redundancy.count)
    &&& fle(cfg.min_refreshes, redundancy[k].refreshes)
    &&& fle(redundancy[k].redundancy.spread(), cfg.stratum_stability_max_var)
}

/// A real number held between two others.
pub open spec fn held_between(x: real, low: real, high: real) -> real {
    if x < low {
        low
    } else if x > high {
        high
    } else {
        x
    }
}

/// The correlation that two channels are taken to have, without rounding: none for a pair that
/// does not count; else its mean, from zero to the cap, times what the shrinkage leaves.
pub open spec fn taken_correlation(
    redundancy: Map<(Seq<char>, Seq<char>), PairBaseline>,
    a: Seq<char>,
    b: Seq<char>,
    cfg: CouplingConfig,
) -> real {
    if pair_counts(redundancy, a, b, cfg) {
        ((1 as real) - exact(cfg.shrink_to_identity)) * held_between(
            exact(redundancy[canonical(a, b)].redundancy.mean),
            0 as real,
            exact(cfg.discount_cap),
        )
    } else {
        0 as real
    }
}

/// Cap and shrinkage are between zero and one.
pub open spec fn coupling_in_range(cfg: CouplingConfig) -> bool {
    &&& cfg.discount_cap.finite()
    &&& (0 as real) <= exact(cfg.discount_cap) <= (1 as real)
    &&& cfg.shrink_to_identity.finite()
    &&& (0 as real) <= exact(cfg.shrink_to_identity) <= (1 as real)
}

/// The shrinkage of a configuration in range is what it says.
proof fn lemma_shrinkage_exact(cfg: CouplingConfig)
    requires
        coupling_in_range(cfg),
    ensures
        shrinkage(cfg).finite(),
        exact(shrinkage(cfg)) == exact(cfg.shrink_to_identity),
{
    lemma_one();
    let s = cfg.shrink_to_identity;
    lemma_exact_order(s, fone());
    lemma_exact_order(fone(), s);
    lemma_exact_order(s, fzero());
    lemma_exact_order(fzero(), fzero());
    let m = fmin(s, fone());
    lemma_exact_order(m, fzero());
    lemma_exact_order(fone(), fzero());
}

/// The discount of a pair is its mean held to the cap.
proof fn lemma_discount_exact(
    redundancy: Map<(Seq<char>, Seq<char>), PairBaseline>,
    a: Seq<char>,
    b: Seq<char>,
    cfg: CouplingConfig,
)
    requires
        coupling_in_range(cfg),
    ensures
        ({
            let d = discount(redundancy, a, b, cfg);
            &&& d.finite()
            &&& !d.negative()
            &&& (0 as real) <= exact(d) <= (1 as real)
            &&& !pair_counts(redundancy, a, b, cfg) ==> d == fzero()
            &&& pair_counts(redundancy, a, b, cfg) ==> exact(d) == held_between(
                exact(redundancy[canonical(a, b)].redundancy.mean),
                0 as real,
                exact(cfg.discount_cap),
            )
        }),
{
    lemma_one();
    let d = discount(redundancy, a, b, cfg);
    lemma_exact_order(fzero(), fzero());
    if pair_counts(redundancy, a, b, cfg) {
        let mean = redundancy[canonical(a, b)].redundancy.mean;
        let cap = fmax(cfg.discount_cap, fzero());
        lemma_exact_order(cfg.discount_cap, fzero());
        lemma_exact_order(cap, mean);
        let m = fmin(mean, cap);
        lemma_exact_order(fzero(), m);
        if d.negative() {
            crate::exact::lemma_magnitude_sign(d.unsigned());
            lemma_exact_order(fzero(), d);
            lemma_exact_order(d, fzero());
        }
    }
}

/// What the shrinkage leaves of an entry off the diagonal.
proof fn lemma_shrunk_near(x: Double, cfg: CouplingConfig)
    requires
        coupling_in_range(cfg),
        x.finite(),
        !x.negative(),
        (0 as real) <= exact(x) <= (1 as real),
    ensures
        ({
            let e = shrunk_entry(x, fzero(), cfg);
            let t = ((1 as real) - exact(cfg.shrink_to_identity)) * exact(x);
            &&& e.finite()
            &&& !e.negative()
            &&& (0 as real) <= t <= exact(x)
            &&& size(exact(e) - t) <= (3 as real) * (ulp() * t) + tiny()
            &&& exact(cfg.shrink_to_identity) == (1 as real) ==> e == fzero()
            &&& x == fzero() ==> e == fzero()
        }),
{
    lemma_small_errors();
    lemma_one();
    lemma_shrinkage_exact(cfg);
    lemma_exact_order(fone(), fone());
    let one = 1 as real;
    let zero = 0 as real;
    let u = ulp();
    let s = shrinkage(cfg);
    let k = one - exact(s);
    lemma_difference_error(fone(), s);
    let rest = fsub(fone(), s);
    let y = exact(rest);
    let v = exact(x);
    let t = k * v;
    lemma_positive_product(k, v);
    lemma_scale_order(k, one, v);
    lemma_scale_order(v, one, k);
    // The rounded complement, times the entry.
    lemma_scale_order(u, one / (2 as real), k);
    assert(y >= zero);
    lemma_product_bound(y - k, v, u * k, v);
    lemma_distribute(v, y, k);
    lemma_associate(u, k, v);
    assert(size(y * v - t) <= u * t);
    lemma_positive_product(y, v);
    lemma_scale_order(u, one, t);
    assert(y * v <= (2 as real) * t);
    lemma_product_error(rest, x);
    lemma_scale_order(size(y * v), (2 as real) * t, u);
    lemma_associate(u, 2 as real, t);
    lemma_commute(u, 2 as real);
    lemma_associate(2 as real, u, t);
    let p = fmul(rest, x);
    // The other term is zero, without a sign.
    lemma_unsigned_shrinkage(cfg);
    lemma_mul_zero(s);
    lemma_unsigned_rest(s);
    lemma_unsigned_product(rest, x);
    lemma_plus_zero(p);
    if exact(s) == one {
        assert(y == zero) by {
            assert(u * zero == zero);
        }
        lemma_exact_order(rest, rest);
        lemma_zero_without_sign(rest);
        lemma_mul_zero(x);
    }
    if x == fzero() {
        lemma_mul_zero(rest);
    }
}

/// A zero without a sign is the zero.
proof fn lemma_zero_without_sign(x: Double)
    requires
        x.finite(),
        !x.negative(),
        exact(x) == (0 as real),
    ensures
        x == fzero(),
{
    lemma_one();
    lemma_exact_order(x, x);
}

/// The shrinkage has no sign.
proof fn lemma_unsigned_shrinkage(cfg: CouplingConfig)
    requires
        coupling_in_range(cfg),
    ensures
        shrinkage(cfg).negative() ==> shrinkage(cfg).vanishes(),
        !fmul(shrinkage(cfg), fzero()).negative() || fmul(shrinkage(cfg), fzero()).vanishes(),
        fmul(shrinkage(cfg), fzero()).vanishes(),
{
    lemma_one();
    lemma_shrinkage_exact(cfg);
    let s = shrinkage(cfg);
    lemma_exact_order(s, fzero());
    lemma_exact_order(fzero(), s);
    crate::exact::lemma_magnitude_sign(s.unsigned());
    lemma_mul_zero(s);
}

/// One less a number up to one has no sign.
proof fn lemma_unsigned_rest(s: Double)
    requires
        s.finite(),
        (0 as real) <= exact(s) <= (1 as real),
    ensures
        !fsub(fone(), s).negative(),
{
    lemma_one();
    lemma_exact_order(s, fone());
    lemma_exact_order(fzero(), s);
    crate::exact::lemma_complement_value(s);
}

pub proof fn lemma_unsigned_product(x: Double, y: Double)
    requires
        x.finite(),
        y.finite(),
        !x.negative(),
        !y.negative(),
        fmul(x, y).finite(),
    ensures
        !fmul(x, y).negative(),
        exact(fmul(x, y)) >= (0 as real),
{
    lemma_one();
    reveal(fmul);
    let p = fmul(x, y);
    let a = crate::rounding::magnitude(x.unsigned());
    let b = crate::rounding::magnitude(y.unsigned());
    crate::exact::lemma_magnitude_sign(x.unsigned());
    crate::exact::lemma_magnitude_sign(y.unsigned());
    assert(a * b >= 0) by (nonlinear_arith)
        requires
            a >= 0,
            b >= 0,
    ;
    vstd::arithmetic::power2::lemma_pow2_pos(crate::double::UNIT_EXPONENT as nat);
    crate::double::lemma_round_range(a * b, crate::double::unit());
    lemma_exact_order(fzero(), p);
    crate::exact::lemma_magnitude_sign(p.unsigned());
}

/// Every entry of the correlation matrix is what the pair says: one on the diagonal; off it
/// the pair's mean, held from zero to the cap, times what the shrinkage toward the identity
/// leaves, up to three rounding errors; and exactly zero for a pair that does not count. So no
/// entry exceeds the cap times one less the shrinkage by more than rounding, and the matrix is
/// symmetric.
pub proof fn lemma_correlations_are_capped_and_shrunk(
    redundancy: Map<(Seq<char>, Seq<char>), PairBaseline>,
    keys: Seq<Seq<char>>,
    cfg: CouplingConfig,
    i: int,
    j: int,
)
    requires
        coupling_in_range(cfg),
        0 <= i < keys.len(),
        0 <= j < keys.len(),
    ensures
        ({
            let e = correlation_matrix(redundancy, keys, cfg)[i][j];
            let t = taken_correlation(redundancy, keys[i], keys[j], cfg);
            let most = ((1 as real) - exact(cfg.shrink_to_identity)) * exact(cfg.discount_cap);
            &&& i == j ==> e == fone()
            &&& i != j ==> {
                &&& e.finite()
                &&& !e.negative()
                &&& size(exact(e) - t) <= (3 as real) * (ulp() * t) + tiny()
                &&& (0 as real) <= t <= most
                &&& !pair_counts(redundancy, keys[i], keys[j], cfg) ==> e == fzero()
                &&& exact(cfg.shrink_to_identity) == (1 as real) ==> e == fzero()
                &&& e == correlation_matrix(redundancy, keys, cfg)[j][i]
            }
        }),
{
    lemma_small_errors();
    lemma_one();
    let one = 1 as real;
    let zero = 0 as real;
    let s = exact(cfg.shrink_to_identity);
    if i == j {
        lemma_diagonal_is_one(cfg);
    } else {
        let d = discount(redundancy, keys[i], keys[j], cfg);
        lemma_discount_exact(redundancy, keys[i], keys[j], cfg);
        lemma_shrunk_near(d, cfg);
        lemma_exact_order(fzero(), fzero());
        assert((one - s) * zero == zero);
        lemma_positive_product(one - s, exact(cfg.discount_cap));
        if pair_counts(redundancy, keys[i], keys[j], cfg) {
            lemma_scale_order(exact(d), exact(cfg.discount_cap), one - s);
        }
        lemma_canonical_symmetric(keys[i], keys[j]);
    }
}

/// The diagonal keeps its ones.
proof fn lemma_diagonal_is_one(cfg: CouplingConfig)
    ensures
        shrunk_entry(fone(), fone(), cfg) == fone(),
{
    lemma_one();
    let s = shrinkage(cfg);
    assert(s.finite() && fle(fzero(), s) && fle(s, fone()));
    let d = fsub(fone(), s);
    crate::exact::lemma_complement_value(s);
    crate::exact::lemma_complement(s);
    lemma_mul_one(d);
    lemma_mul_one(s);
}

/// With the shrinkage at one nothing is left of any redundancy: the weights are those with
/// coupling off, and all channels count in full.
pub proof fn lemma_full_shrinkage_is_independence(
    g: Map<Seq<char>, Double>,
    redundancy: Map<(Seq<char>, Seq<char>), PairBaseline>,
    other: Map<(Seq<char>, Seq<char>), PairBaseline>,
    keys: Seq<Seq<char>>,
    cfg: CouplingConfig,
    off: CouplingConfig,
)
    requires
        coupling_in_range(cfg),
        exact(cfg.shrink_to_identity) == (1 as real),
        !off.enabled,
        keys.len() <= 0x20_0000_0000_0000,
    ensures
        coupled(g, redundancy, keys, cfg) == coupled(g, other, keys, off),
        effective_count(correlation_matrix(redundancy, keys, cfg)) == fcount(keys.len() as int),
{
    let n = keys.len() as int;
    let m = correlation_matrix(redundancy, keys, cfg);
    let id = identity(keys.len());
    assert forall|i: int| 0 <= i < n implies #[trigger] m[i] == id[i] by {
        assert forall|j: int| 0 <= j < n implies #[trigger] m[i][j] == id[i][j] by {
            lemma_correlations_are_capped_and_shrunk(redundancy, keys, cfg, i, j);
        }
        assert(m[i] =~= id[i]);
    }
    assert(m =~= id);
    lemma_coupling_off_is_independence(other, keys, off);
    lemma_independent_channels_count_fully(keys.len());
}

} // verus!
