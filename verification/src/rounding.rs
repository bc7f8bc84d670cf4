//! The value model of binary floating point, and round-to-nearest over it.
//!
//! A magnitude is the encoding of a non-negative binary64 number without its
//! sign bit: eleven exponent bits above fifty-two fraction bits. Its value is
//! counted in the smallest subnormal, so every value is an integer.
use vstd::arithmetic::power2::{lemma_pow2_adds, lemma_pow2_pos, lemma_pow2_unfold, pow2};
use vstd::prelude::*;

verus! {

/// The encoding of infinity: every smaller encoding is a finite magnitude.
pub const INF_BITS: u64 = 0x7ff0_0000_0000_0000;

/// Two to the power of the number of fraction bits.
pub const FRACTION: u64 = 0x0010_0000_0000_0000;

/// The value of the magnitude encoded by `a`, counted in the smallest
/// subnormal. Infinity stands where the next binade would start.
pub open spec fn magnitude(a: int) -> int {
    let exponent = a / (FRACTION as int);
    let fraction = a % (FRACTION as int);
    if exponent <= 0 {
        fraction
    } else {
        (FRACTION + fraction) * pow2((exponent - 1) as nat)
    }
}

/// The distance from the magnitude encoded by `a` to the next one.
pub open spec fn spacing(a: int) -> int {
    let exponent = a / (FRACTION as int);
    if exponent <= 0 {
        1
    } else {
        pow2((exponent - 1) as nat) as int
    }
}

/// `a` encodes the magnitude nearest to the ratio `num / den`, a tie going to
/// the even encoding.
pub open spec fn nearest(num: int, den: int, a: int) -> bool {
    &&& 0 <= a <= INF_BITS
    &&& a > 0 ==> {
        let midpoint = (magnitude(a - 1) + magnitude(a)) * den;
        midpoint < 2 * num || (midpoint == 2 * num && a % 2 == 0)
    }
    &&& a < INF_BITS ==> {
        let midpoint = (magnitude(a) + magnitude(a + 1)) * den;
        2 * num < midpoint || (2 * num == midpoint && a % 2 == 0)
    }
}

/// `a` encodes the magnitude nearest to the square root of `square`.
pub open spec fn nearest_root(square: int, a: int) -> bool {
    &&& 0 <= a <= INF_BITS
    &&& a > 0 ==> {
        let midpoint = magnitude(a - 1) + magnitude(a);
        midpoint * midpoint < 4 * square || (midpoint * midpoint == 4 * square && a % 2 == 0)
    }
    &&& a < INF_BITS ==> {
        let midpoint = magnitude(a) + magnitude(a + 1);
        4 * square < midpoint * midpoint || (4 * square == midpoint * midpoint && a % 2 == 0)
    }
}

/// The encoding of the magnitude nearest to `num / den`.
pub open spec fn round(num: int, den: int) -> int {
    choose|a: int| nearest(num, den, a)
}

/// The encoding of the magnitude nearest to the square root of `square`.
pub open spec fn round_root(square: int) -> int {
    choose|a: int| nearest_root(square, a)
}

/// Consecutive encodings differ in value by exactly the spacing.
pub proof fn lemma_step(a: int)
    requires
        0 <= a,
    ensures
        magnitude(a + 1) == magnitude(a) + spacing(a),
        spacing(a) >= 1,
        magnitude(a) >= 0,
{
    let p = FRACTION as int;
    let e = a / p;
    let f = a % p;
    if e > 0 {
        lemma_pow2_pos((e - 1) as nat);
        let w = pow2((e - 1) as nat) as int;
        assert((p + f) * w >= 0) by (nonlinear_arith)
            requires
                p + f >= 0,
                w >= 0,
        ;
        assert((p + f + 1) * w == (p + f) * w + w) by (nonlinear_arith);
        if f + 1 == p {
            assert((a + 1) / p == e + 1);
            assert((a + 1) % p == 0);
            lemma_pow2_unfold(e as nat);
            assert(pow2(e as nat) == 2 * w);
            assert((p + 0) * (2 * w) == (p + f + 1) * w) by (nonlinear_arith)
                requires
                    f + 1 == p,
            ;
        } else {
            assert((a + 1) / p == e);
            assert((a + 1) % p == f + 1);
        }
    } else {
        vstd::arithmetic::power2::lemma2_to64();
        if f + 1 == p {
            assert((a + 1) / p == 1);
            assert((a + 1) % p == 0);
        } else {
            assert((a + 1) / p == 0);
            assert((a + 1) % p == f + 1);
        }
    }
}

/// A larger encoding has the larger value.
pub proof fn lemma_magnitude_increases(a: int, b: int)
    requires
        0 <= a < b,
    ensures
        0 <= magnitude(a) < magnitude(b),
    decreases b - a,
{
    lemma_step(a);
    if a + 1 < b {
        lemma_magnitude_increases(a + 1, b);
    }
}

/// At most one encoding is nearest to a ratio.
pub proof fn lemma_nearest_unique(num: int, den: int, a: int, b: int)
    requires
        den > 0,
        nearest(num, den, a),
        nearest(num, den, b),
    ensures
        a == b,
{
    lemma_nearest_ordered(num, den, a, b);
    lemma_nearest_ordered(num, den, b, a);
}

proof fn lemma_nearest_ordered(num: int, den: int, a: int, b: int)
    requires
        den > 0,
        nearest(num, den, a),
        nearest(num, den, b),
    ensures
        b <= a,
{
    let low = magnitude(a) + magnitude(a + 1);
    let high = magnitude(b - 1) + magnitude(b);
    if a + 1 < b {
        lemma_magnitude_increases(a, b - 1);
        lemma_magnitude_increases(a + 1, b);
        assert(low * den < high * den) by (nonlinear_arith)
            requires
                low < high,
                den > 0,
        ;
    }
}

proof fn lemma_nearest_root_ordered(square: int, a: int, b: int)
    requires
        nearest_root(square, a),
        nearest_root(square, b),
    ensures
        b <= a,
{
    let low = magnitude(a) + magnitude(a + 1);
    let high = magnitude(b - 1) + magnitude(b);
    lemma_magnitude_increases(a, a + 1);
    if a + 1 < b {
        lemma_magnitude_increases(a, b - 1);
        lemma_magnitude_increases(a + 1, b);
        assert(low * low < high * high) by (nonlinear_arith)
            requires
                0 <= low < high,
        ;
    }
}

/// At most one encoding is nearest to a square root.
pub proof fn lemma_nearest_root_unique(square: int, a: int, b: int)
    requires
        nearest_root(square, a),
        nearest_root(square, b),
    ensures
        a == b,
{
    lemma_nearest_root_ordered(square, a, b);
    lemma_nearest_root_ordered(square, b, a);
}

/// The encoding that meets `nearest` is the one that `round` picks.
pub proof fn lemma_round_is(num: int, den: int, a: int)
    requires
        den > 0,
        nearest(num, den, a),
    ensures
        round(num, den) == a,
{
    lemma_nearest_unique(num, den, a, round(num, den));
}

/// The encoding that meets `nearest_root` is the one that `round_root` picks.
pub proof fn lemma_round_root_is(square: int, a: int)
    requires
        nearest_root(square, a),
    ensures
        round_root(square) == a,
{
    lemma_nearest_root_unique(square, a, round_root(square));
}

/// A ratio between two consecutive magnitudes rounds to the lower one unless it
/// lies above their midpoint, or on it with an odd lower encoding.
proof fn lemma_nearest_between(num: int, den: int, a: int, up: bool)
    requires
        den > 0,
        0 <= a < INF_BITS,
        magnitude(a) * den <= num,
        num < magnitude(a + 1) * den,
        up <==> {
            let midpoint = (magnitude(a) + magnitude(a + 1)) * den;
            midpoint < 2 * num || (midpoint == 2 * num && a % 2 == 1)
        },
    ensures
        nearest(
            num,
            den,
            if up {
                a + 1
            } else {
                a
            },
        ),
{
    let m0 = magnitude(a);
    let m1 = magnitude(a + 1);
    lemma_step(a);
    lemma_step(a + 1);
    if up {
        let m2 = magnitude(a + 2);
        assert(2 * num < (m1 + m2) * den) by (nonlinear_arith)
            requires
                num < m1 * den,
                m1 < m2,
                den > 0,
        ;
    } else if a > 0 {
        lemma_step(a - 1);
        let mp = magnitude(a - 1);
        assert((mp + m0) * den < 2 * num) by (nonlinear_arith)
            requires
                m0 * den <= num,
                mp < m0,
                den > 0,
        ;
    }
}

/// A ratio at least as large as the value of infinity rounds to infinity.
proof fn lemma_nearest_infinite(num: int, den: int)
    requires
        den > 0,
        magnitude(INF_BITS as int) * den <= num,
    ensures
        nearest(num, den, INF_BITS as int),
{
    let a = INF_BITS as int;
    lemma_step(a - 1);
    let m = magnitude(a);
    let mp = magnitude(a - 1);
    assert((mp + m) * den < 2 * num) by (nonlinear_arith)
        requires
            m * den <= num,
            mp < m,
            den > 0,
    ;
}

/// The value of the encoding that has `u` binades below it and `s` steps more.
pub proof fn lemma_magnitude_of(u: int, s: int)
    requires
        0 <= u,
        0 <= s <= 2 * FRACTION,
        u > 0 ==> s >= FRACTION,
    ensures
        magnitude(u * FRACTION + s) == s * pow2(u as nat),
        s < 2 * FRACTION ==> spacing(u * FRACTION + s) == pow2(u as nat),
{
    let p = FRACTION as int;
    vstd::arithmetic::power2::lemma2_to64();
    let a = u * p + s;
    if s < p {
        assert(u == 0);
        assert(a / p == 0 && a % p == s);
        assert(s * 1 == s);
    } else if s < 2 * p {
        assert(a / p == u + 1 && a % p == s - p);
        assert(p + (s - p) == s);
    } else {
        assert(a / p == u + 2 && a % p == 0);
        assert(((u + 2) - 1) as nat == (u + 1) as nat);
        lemma_pow2_unfold((u + 1) as nat);
        let w = pow2(u as nat) as int;
        assert((p + 0) * (2 * w) == s * w) by (nonlinear_arith)
            requires
                s == 2 * p,
        ;
    }
}

/// Two to the power of `e` where `e` is positive, and one elsewhere.
pub open spec fn scale(e: int) -> int {
    if e > 0 {
        pow2(e as nat) as int
    } else {
        1
    }
}

/// The ratio `num / den` lies in the step of `m` at the binary exponent `e`; it
/// lies strictly inside that step exactly where `sticky` holds.
pub open spec fn in_step(num: int, den: int, m: int, e: int, sticky: bool) -> bool {
    let low = m * scale(e) * den;
    let high = (m + 1) * scale(e) * den;
    let ratio = num * scale(-e);
    &&& low <= ratio < high
    &&& sticky <==> low != ratio
}

proof fn lemma_rescaled(t: int, w: int, den: int, k: int, dd: int, pe: int)
    requires
        w * k == dd * pe,
    ensures
        t * w * den * k == t * dd * (pe * den),
{
    assert(t * w * den * k == t * den * (w * k)) by (nonlinear_arith);
    assert(t * den * (dd * pe) == t * dd * (pe * den)) by (nonlinear_arith);
}

/// Dropping `d` low bits of `m` keeps the ratio inside the coarser step, and the
/// dropped bits tell on which side of its midpoint the ratio lies.
proof fn lemma_coarser_step(num: int, den: int, m: int, e: int, sticky: bool, d: int, s: int, r: int)
    requires
        den > 0,
        in_step(num, den, m, e, sticky),
        m >= 0,
        d >= 1,
        e + d >= 0,
        m == s * pow2(d as nat) + r,
        0 <= r < pow2(d as nat),
    ensures
        ({
            let w = pow2((e + d) as nat) as int;
            let half = pow2((d - 1) as nat) as int;
            &&& s * w * den <= num < (s + 1) * w * den
            &&& ((2 * s + 1) * w * den < 2 * num) == (r > half || (r == half && sticky))
            &&& ((2 * s + 1) * w * den == 2 * num) == (r == half && !sticky)
        }),
{
    let u = e + d;
    let w = pow2(u as nat) as int;
    let k = scale(-e);
    let pe = scale(e);
    let dd = pow2(d as nat) as int;
    let half = pow2((d - 1) as nat) as int;
    lemma_pow2_pos(u as nat);
    lemma_pow2_pos(d as nat);
    lemma_pow2_pos((d - 1) as nat);
    lemma_pow2_unfold(d as nat);
    assert(dd == 2 * half);
    if e > 0 {
        lemma_pow2_pos(e as nat);
        lemma_pow2_adds(d as nat, e as nat);
    } else if e < 0 {
        lemma_pow2_pos((-e) as nat);
        lemma_pow2_adds(u as nat, (-e) as nat);
    }
    assert(w * k == dd * pe);
    // Everything is compared after multiplying by `k`, in units of `q`.
    let q = pe * den;
    assert(q > 0) by (nonlinear_arith)
        requires
            pe > 0,
            den > 0,
            q == pe * den,
    ;
    assert(m * pe * den == m * q && (m + 1) * pe * den == (m + 1) * q) by (nonlinear_arith)
        requires
            q == pe * den,
    ;
    let n = num * k;
    assert(m * q <= n < (m + 1) * q);
    let x0 = s * w * den;
    let x1 = (s + 1) * w * den;
    let xm = (2 * s + 1) * w * den;
    lemma_rescaled(s, w, den, k, dd, pe);
    lemma_rescaled(s + 1, w, den, k, dd, pe);
    lemma_rescaled(2 * s + 1, w, den, k, dd, pe);
    let c = s * dd;
    assert((s + 1) * dd == c + dd) by (nonlinear_arith)
        requires
            c == s * dd,
    ;
    assert((2 * s + 1) * dd == 2 * (c + half)) by (nonlinear_arith)
        requires
            c == s * dd,
            dd == 2 * half,
    ;
    assert(c * q <= m * q && (m + 1) * q <= (c + dd) * q) by (nonlinear_arith)
        requires
            c <= m,
            m + 1 <= c + dd,
            q > 0,
    ;
    assert(x0 * k <= num * k && num * k < x1 * k);
    assert(x0 <= num && num < x1) by (nonlinear_arith)
        requires
            x0 * k <= num * k,
            num * k < x1 * k,
            k > 0,
    ;
    let y = (c + half) * q;
    assert(xm * k == 2 * y) by (nonlinear_arith)
        requires
            xm * k == 2 * (c + half) * q,
            y == (c + half) * q,
    ;
    if r > half {
        assert(y < n) by (nonlinear_arith)
            requires
                y == (c + half) * q,
                m * q <= n,
                m >= c + half + 1,
                q > 0,
        ;
    } else if r == half {
        assert(m == c + half);
    } else {
        assert(n < y) by (nonlinear_arith)
            requires
                y == (c + half) * q,
                n < (m + 1) * q,
                m + 1 <= c + half,
                q > 0,
        ;
    }
    assert((y < n) == (r > half || (r == half && sticky)));
    assert((y == n) == (r == half && !sticky));
    assert((xm < 2 * num) == (2 * y < 2 * n) && (xm == 2 * num) == (2 * y == 2 * n))
        by (nonlinear_arith)
        requires
            xm * k == 2 * y,
            n == num * k,
            k > 0,
    ;
}

/// `x` is what is left of `m` once its `n` low bits are dropped.
#[verifier::opaque]
spec fn leading(m: int, x: int, n: int) -> bool {
    n >= 0 && x * pow2(n as nat) <= m < (x + 1) * pow2(n as nat)
}

proof fn lemma_leading_start(m: int)
    ensures
        leading(m, m, 0),
{
    reveal(leading);
    vstd::arithmetic::power2::lemma2_to64();
    assert(m * 1 == m && (m + 1) * 1 == m + 1);
}

proof fn lemma_leading_drop(m: int, x: int, n: int, k: nat, q: int)
    requires
        leading(m, x, n),
        x >= 0,
        q == pow2(k),
    ensures
        leading(m, x / q, n + k),
{
    reveal(leading);
    let p = pow2(n as nat) as int;
    lemma_pow2_pos(n as nat);
    lemma_pow2_pos(k);
    lemma_pow2_adds(n as nat, k);
    let y = x / q;
    assert(y * q <= x && x + 1 <= (y + 1) * q) by (nonlinear_arith)
        requires
            y == x / q,
            q > 0,
            x >= 0,
    ;
    assert(y * (p * q) <= x * p) by (nonlinear_arith)
        requires
            y * q <= x,
            p > 0,
    ;
    assert((x + 1) * p <= (y + 1) * (p * q)) by (nonlinear_arith)
        requires
            x + 1 <= (y + 1) * q,
            p > 0,
    ;
}

proof fn lemma_leading_end(m: int, n: int)
    requires
        leading(m, 1, n),
    ensures
        pow2(n as nat) <= m < pow2((n + 1) as nat),
{
    reveal(leading);
    lemma_pow2_unfold((n + 1) as nat);
}

/// The number of bits of `m`: the least `n` with `m < 2^n`.
pub(crate) fn bit_length(m: u128) -> (n: u32)
    requires
        0 < m,
    ensures
        1 <= n <= 128,
        pow2((n - 1) as nat) <= m < pow2(n as nat),
{
    let mut x: u128 = m;
    let mut n: u32 = 0;
    proof {
        vstd::arithmetic::power2::lemma2_to64();
        vstd::arithmetic::power2::lemma2_to64_rest();
        lemma_leading_start(m as int);
    }
    if x >= 0x1_0000_0000_0000_0000 {
        proof {
            lemma_leading_drop(m as int, x as int, n as int, 64, 0x1_0000_0000_0000_0000);
        }
        x = x / 0x1_0000_0000_0000_0000;
        n = n + 64;
    }
    if x >= 0x1_0000_0000 {
        proof {
            lemma_leading_drop(m as int, x as int, n as int, 32, 0x1_0000_0000);
        }
        x = x / 0x1_0000_0000;
        n = n + 32;
    }
    if x >= 0x1_0000 {
        proof {
            lemma_leading_drop(m as int, x as int, n as int, 16, 0x1_0000);
        }
        x = x / 0x1_0000;
        n = n + 16;
    }
    if x >= 0x100 {
        proof {
            lemma_leading_drop(m as int, x as int, n as int, 8, 0x100);
        }
        x = x / 0x100;
        n = n + 8;
    }
    if x >= 0x10 {
        proof {
            lemma_leading_drop(m as int, x as int, n as int, 4, 0x10);
        }
        x = x / 0x10;
        n = n + 4;
    }
    if x >= 4 {
        proof {
            lemma_leading_drop(m as int, x as int, n as int, 2, 4);
        }
        x = x / 4;
        n = n + 2;
    }
    if x >= 2 {
        proof {
            lemma_leading_drop(m as int, x as int, n as int, 1, 2);
        }
        x = x / 2;
        n = n + 1;
    }
    proof {
        lemma_leading_end(m as int, n as int);
    }
    n + 1
}

/// Two to the power of `d`.
pub(crate) fn power_of_two(d: u32) -> (p: u128)
    requires
        d <= 127,
    ensures
        p == pow2(d as nat),
{
    proof {
        vstd::arithmetic::power2::lemma2_to64();
        vstd::arithmetic::power2::lemma2_to64_rest();
    }
    if d < 64 {
        proof {
            vstd::bits::lemma_u64_pow2_no_overflow(d as nat);
            vstd::bits::lemma_u64_shl_is_mul(1, d as u64);
        }
        (1u64 << (d as u64)) as u128
    } else {
        let high: u64 = (d - 64) as u64;
        proof {
            vstd::bits::lemma_u64_pow2_no_overflow(high as nat);
            vstd::bits::lemma_u64_shl_is_mul(1, high);
            lemma_pow2_adds(high as nat, 64);
            let w = pow2(high as nat) as int;
            assert(w * 0x1_0000_0000_0000_0000 <= u128::MAX) by (nonlinear_arith)
                requires
                    w <= u64::MAX,
            ;
        }
        ((1u64 << high) as u128) * 0x1_0000_0000_0000_0000
    }
}

/// Parts `m` at its `d` low bits.
fn part(m: u128, d: u32) -> (parts: (u128, u128))
    requires
        d <= 127,
    ensures
        m == parts.0 * pow2(d as nat) + parts.1,
        parts.1 < pow2(d as nat),
{
    let p: u128 = power_of_two(d);
    let s: u128 = m >> (d as u128);
    proof {
        lemma_pow2_pos(d as nat);
        vstd::bits::lemma_u128_shr_is_div(m, d as u128);
        vstd::arithmetic::div_mod::lemma_fundamental_div_mod(m as int, p as int);
        assert(p * s == s * p) by (nonlinear_arith);
        assert(s * p <= m);
    }
    (s, m - s * p)
}

proof fn lemma_kept_bits(m: int, n: int, d: int, s: int, r: int)
    requires
        pow2((n - 1) as nat) <= m < pow2(n as nat),
        n >= 1,
        d >= 0,
        m == s * pow2(d as nat) + r,
        0 <= r < pow2(d as nat),
        n <= d + 53,
    ensures
        s < 2 * FRACTION,
        n == d + 53 ==> s >= FRACTION,
        s >= 0,
{
    vstd::arithmetic::power2::lemma2_to64();
    vstd::arithmetic::power2::lemma2_to64_rest();
    let p = pow2(d as nat) as int;
    lemma_pow2_pos(d as nat);
    lemma_pow2_adds(d as nat, 53);
    if n < d + 53 {
        vstd::arithmetic::power2::lemma_pow2_strictly_increases(n as nat, (d + 53) as nat);
    }
    assert(m < p * 0x20_0000_0000_0000);
    assert(s < 0x20_0000_0000_0000) by (nonlinear_arith)
        requires
            m == s * p + r,
            0 <= r,
            m < p * 0x20_0000_0000_0000,
            p > 0,
    ;
    assert(s >= 0) by (nonlinear_arith)
        requires
            m == s * p + r,
            r < p,
            m >= 0,
            p > 0,
    ;
    if n == d + 53 {
        lemma_pow2_adds(d as nat, 52);
        assert(m >= p * 0x10_0000_0000_0000);
        assert(s >= 0x10_0000_0000_0000) by (nonlinear_arith)
            requires
                m == s * p + r,
                r < p,
                m >= p * 0x10_0000_0000_0000,
                p > 0,
        ;
    }
}

/// What is kept of the ratio after cutting it at the exponent `u` gives the
/// nearest magnitude: the cut one, or the next where `up` holds.
proof fn lemma_round_cut(num: int, den: int, u: int, s: int, up: bool)
    requires
        den > 0,
        0 <= u,
        0 <= s < 2 * FRACTION,
        u > 0 ==> s >= FRACTION,
        s * pow2(u as nat) * den <= num < (s + 1) * pow2(u as nat) * den,
        up <==> {
            let midpoint = (2 * s + 1) * pow2(u as nat) * den;
            midpoint < 2 * num || (midpoint == 2 * num && s % 2 == 1)
        },
    ensures
        nearest(
            num,
            den,
            if u >= 2046 {
                INF_BITS as int
            } else if up {
                u * FRACTION + s + 1
            } else {
                u * FRACTION + s
            },
        ),
{
    let w = pow2(u as nat) as int;
    lemma_pow2_pos(u as nat);
    if u >= 2046 {
        lemma_magnitude_of(2045, 2 * FRACTION);
        assert(2045 * FRACTION + 2 * FRACTION == INF_BITS);
        lemma_pow2_unfold(2046);
        let v = pow2(2045) as int;
        lemma_pow2_pos(2045);
        if u > 2046 {
            vstd::arithmetic::power2::lemma_pow2_strictly_increases(2046, u as nat);
        }
        assert(2 * FRACTION * v * den <= s * w * den) by (nonlinear_arith)
            requires
                2 * v <= w,
                s >= FRACTION,
                den > 0,
                v > 0,
        ;
        lemma_nearest_infinite(num, den);
    } else {
        let a = u * FRACTION + s;
        assert(a < INF_BITS) by (nonlinear_arith)
            requires
                a == u * FRACTION + s,
                u <= 2045,
                s < 2 * FRACTION,
        ;
        lemma_magnitude_of(u, s);
        lemma_magnitude_of(u, s + 1);
        assert(a % 2 == s % 2);
        assert((s * w + (s + 1) * w) * den == (2 * s + 1) * w * den) by (nonlinear_arith);
        lemma_nearest_between(num, den, a, up);
    }
}

/// Rounds a ratio, given as the step that it lies in, to the nearest magnitude.
pub(crate) fn round_step(
    m: u128,
    e: i32,
    sticky: bool,
    Ghost(num): Ghost<int>,
    Ghost(den): Ghost<int>,
) -> (a: u64)
    requires
        0 < m < 0x4000_0000_0000_0000_0000_0000_0000_0000,
        -5000 <= e <= 5000,
        den > 0,
        in_step(num, den, m as int, e as int, sticky),
        sticky ==> m >= 0x20_0000_0000_0000 || e < 0,
    ensures
        nearest(num, den, a as int),
        a == round(num, den),
{
    let n: u32 = bit_length(m);
    let shifted: i32 = e + (n as i32) - 53;
    let u: i32 = if shifted > 0 { shifted } else { 0 };
    let (s, up): (u64, bool) = if u <= e {
        let k: u32 = (e - u) as u32;
        let p: u128 = power_of_two(k);
        proof {
            lemma_exact_cut(num, den, m as int, n as int, e as int, sticky, u as int);
        }
        ((m * p) as u64, false)
    } else if u - e > 127 {
        proof {
            lemma_tiny_cut(num, den, m as int, e as int, sticky);
        }
        (0, false)
    } else {
        let d: u32 = (u - e) as u32;
        let (s, r): (u128, u128) = part(m, d);
        let half: u128 = power_of_two(d - 1);
        proof {
            lemma_kept_bits(m as int, n as int, d as int, s as int, r as int);
            lemma_coarser_step(num, den, m as int, e as int, sticky, d as int, s as int, r as int);
        }
        (s as u64, r > half || (r == half && (sticky || s % 2 == 1)))
    };
    proof {
        lemma_round_cut(num, den, u as int, s as int, up);
    }
    let a: u64 = if u >= 2046 {
        INF_BITS
    } else if up {
        (u as u64) * FRACTION + s + 1
    } else {
        (u as u64) * FRACTION + s
    };
    proof {
        lemma_round_is(num, den, a as int);
    }
    a
}

/// A square between those of two consecutive magnitudes has its root nearest to
/// the lower one unless it lies above the square of their midpoint.
pub(crate) proof fn lemma_nearest_root_between(square: int, u: int, s: int, up: bool)
    requires
        0 <= u < 2046,
        FRACTION <= s < 2 * FRACTION,
        (s * pow2(u as nat)) * (s * pow2(u as nat)) <= square,
        square < ((s + 1) * pow2(u as nat)) * ((s + 1) * pow2(u as nat)),
        up <==> {
            let midpoint = (2 * s + 1) * pow2(u as nat);
            midpoint * midpoint < 4 * square || (midpoint * midpoint == 4 * square && s % 2 == 1)
        },
    ensures
        nearest_root(
            square,
            if up {
                u * FRACTION + s + 1
            } else {
                u * FRACTION + s
            },
        ),
{
    let w = pow2(u as nat) as int;
    let a = u * FRACTION + s;
    assert(a < INF_BITS) by (nonlinear_arith)
        requires
            a == u * FRACTION + s,
            u <= 2045,
            s < 2 * FRACTION,
    ;
    lemma_magnitude_of(u, s);
    lemma_magnitude_of(u, s + 1);
    assert(a % 2 == s % 2);
    let m0 = magnitude(a);
    let m1 = magnitude(a + 1);
    assert(m0 == s * w && m1 == (s + 1) * w);
    assert(m0 + m1 == (2 * s + 1) * w) by (nonlinear_arith)
        requires
            m0 == s * w,
            m1 == (s + 1) * w,
    ;
    lemma_root_between_magnitudes(square, a, up);
}

proof fn lemma_root_between_magnitudes(square: int, a: int, up: bool)
    requires
        0 < a < INF_BITS,
        magnitude(a) * magnitude(a) <= square,
        square < magnitude(a + 1) * magnitude(a + 1),
        up <==> {
            let midpoint = magnitude(a) + magnitude(a + 1);
            midpoint * midpoint < 4 * square || (midpoint * midpoint == 4 * square && a % 2 == 1)
        },
    ensures
        nearest_root(
            square,
            if up {
                a + 1
            } else {
                a
            },
        ),
{
    let m0 = magnitude(a);
    let m1 = magnitude(a + 1);
    lemma_step(a);
    lemma_step(a + 1);
    if up {
        let m2 = magnitude(a + 2);
        assert(4 * square < (m1 + m2) * (m1 + m2)) by (nonlinear_arith)
            requires
                square < m1 * m1,
                0 <= m1 < m2,
        ;
    } else {
        lemma_step(a - 1);
        let mp = magnitude(a - 1);
        assert((mp + m0) * (mp + m0) < 4 * square) by (nonlinear_arith)
            requires
                m0 * m0 <= square,
                0 <= mp < m0,
        ;
    }
}

/// Where no bit is dropped the ratio is a magnitude, and stays as it is.
proof fn lemma_exact_cut(num: int, den: int, m: int, n: int, e: int, sticky: bool, u: int)
    requires
        den > 0,
        m > 0,
        n >= 1,
        in_step(num, den, m, e, sticky),
        sticky ==> m >= 0x20_0000_0000_0000 || e < 0,
        pow2((n - 1) as nat) <= m < pow2(n as nat),
        0 <= u <= e,
        u == if e + n - 53 > 0 {
            e + n - 53
        } else {
            0
        },
    ensures
        e - u <= 52,
        m * pow2((e - u) as nat) < 2 * FRACTION,
        u > 0 ==> m * pow2((e - u) as nat) >= FRACTION,
        ({
            let s = m * pow2((e - u) as nat);
            let w = pow2(u as nat) as int;
            &&& s * w * den <= num < (s + 1) * w * den
            &&& (2 * s + 1) * w * den > 2 * num
        }),
{
    vstd::arithmetic::power2::lemma2_to64();
    vstd::arithmetic::power2::lemma2_to64_rest();
    assert(n <= 53);
    if n < 53 {
        vstd::arithmetic::power2::lemma_pow2_strictly_increases(n as nat, 53);
    }
    assert(!sticky);
    let k = e - u;
    let p = pow2(k as nat) as int;
    let w = pow2(u as nat) as int;
    let s = m * p;
    lemma_pow2_pos(k as nat);
    lemma_pow2_pos(u as nat);
    lemma_pow2_adds(k as nat, u as nat);
    lemma_pow2_adds(k as nat, n as nat);
    lemma_pow2_adds(k as nat, (n - 1) as nat);
    assert(m * p < pow2(n as nat) * p && m * p >= pow2((n - 1) as nat) * p) by (nonlinear_arith)
        requires
            p > 0,
            pow2((n - 1) as nat) <= m < pow2(n as nat),
    ;
    assert(pow2(n as nat) * p == p * pow2(n as nat)) by (nonlinear_arith);
    assert(pow2((n - 1) as nat) * p == p * pow2((n - 1) as nat)) by (nonlinear_arith);
    if k + n < 53 {
        vstd::arithmetic::power2::lemma_pow2_strictly_increases((k + n) as nat, 53);
    }
    assert(scale(e) == p * w);
    assert(num == m * (p * w) * den);
    assert(m * (p * w) * den == s * w * den) by (nonlinear_arith)
        requires
            s == m * p,
    ;
    assert(s * w * den < (s + 1) * w * den && 2 * (s * w * den) < (2 * s + 1) * w * den)
        by (nonlinear_arith)
        requires
            w > 0,
            den > 0,
    ;
}

/// A ratio far below half the smallest subnormal rounds to zero.
proof fn lemma_tiny_cut(num: int, den: int, m: int, e: int, sticky: bool)
    requires
        den > 0,
        0 < m < 0x4000_0000_0000_0000_0000_0000_0000_0000,
        in_step(num, den, m, e, sticky),
        e <= -128,
    ensures
        0 * pow2(0) * den <= num < (0 + 1) * pow2(0) * den,
        2 * num < (2 * 0 + 1) * pow2(0) * den,
{
    vstd::arithmetic::power2::lemma2_to64();
    vstd::arithmetic::power2::lemma2_to64_rest();
    lemma_pow2_adds(64, 62);
    lemma_pow2_unfold(127);
    let k = pow2((-e) as nat) as int;
    vstd::arithmetic::power2::lemma_pow2_strictly_increases(127, (-e) as nat);
    assert(2 * (m + 1) <= k);
    assert(num >= 0 && 2 * num < den) by (nonlinear_arith)
        requires
            m * 1 * den <= num * k,
            num * k < (m + 1) * 1 * den,
            2 * (m + 1) <= k,
            den > 0,
            m > 0,
    ;
    assert(0 * 1 * den == 0 && (0 + 1) * 1 * den == den && (2 * 0 + 1) * 1 * den == den)
        by (nonlinear_arith);
}

/// Every ratio has a nearest magnitude.
pub proof fn lemma_nearest_exists(num: int, den: int)
    requires
        num >= 0,
        den > 0,
    ensures
        nearest(num, den, round(num, den)),
        0 <= round(num, den) <= INF_BITS,
{
    if magnitude(INF_BITS as int) * den <= num {
        lemma_nearest_infinite(num, den);
    } else {
        lemma_below(num, den, INF_BITS as int);
    }
}

/// Below the value of an encoding, some magnitude is nearest.
proof fn lemma_below(num: int, den: int, a: int)
    requires
        num >= 0,
        den > 0,
        0 <= a <= INF_BITS,
        num < magnitude(a) * den,
    ensures
        exists|b: int| nearest(num, den, b),
    decreases a,
{
    if a == 0 {
        assert(magnitude(0) == 0);
        assert(0 * den == 0);
    } else if magnitude(a - 1) * den <= num {
        let b = a - 1;
        let midpoint = (magnitude(b) + magnitude(b + 1)) * den;
        let up = midpoint < 2 * num || (midpoint == 2 * num && b % 2 == 1);
        lemma_nearest_between(num, den, b, up);
    } else {
        lemma_below(num, den, a - 1);
    }
}

/// A larger ratio never rounds to a smaller magnitude.
pub proof fn lemma_round_monotone(num1: int, den1: int, num2: int, den2: int)
    requires
        num1 >= 0,
        num2 >= 0,
        den1 > 0,
        den2 > 0,
        num1 * den2 <= num2 * den1,
    ensures
        round(num1, den1) <= round(num2, den2),
{
    lemma_nearest_exists(num1, den1);
    lemma_nearest_exists(num2, den2);
    let a = round(num1, den1);
    let b = round(num2, den2);
    if b < a {
        let low = magnitude(b) + magnitude(b + 1);
        let high = magnitude(a - 1) + magnitude(a);
        lemma_step(a);
        lemma_step(b);
        if b + 1 < a {
            lemma_magnitude_increases(b, a - 1);
            lemma_magnitude_increases(b + 1, a);
        }
        assert(low <= high);
        assert(low * den2 >= 2 * num2);
        assert(high * den1 <= 2 * num1);
        assert(low * den2 * den1 >= 2 * num2 * den1) by (nonlinear_arith)
            requires
                low * den2 >= 2 * num2,
                den1 > 0,
        ;
        assert(high * den1 * den2 <= 2 * num1 * den2) by (nonlinear_arith)
            requires
                high * den1 <= 2 * num1,
                den2 > 0,
        ;
        assert(low * den2 * den1 <= high * den1 * den2) by (nonlinear_arith)
            requires
                low <= high,
                den1 > 0,
                den2 > 0,
        ;
        assert(2 * num1 * den2 == 2 * (num1 * den2)) by (nonlinear_arith);
        assert(2 * num2 * den1 == 2 * (num2 * den1)) by (nonlinear_arith);
        assert(num1 * den2 == num2 * den1);
        assert(low * den2 * den1 == high * den1 * den2);
        assert(low == high) by (nonlinear_arith)
            requires
                low * den2 * den1 == high * den1 * den2,
                den1 > 0,
                den2 > 0,
        ;
        assert(b + 1 == a);
        assert(low * den2 == 2 * num2) by (nonlinear_arith)
            requires
                low * den2 * den1 == 2 * num2 * den1,
                den1 > 0,
        ;
        assert(high * den1 == 2 * num1) by (nonlinear_arith)
            requires
                high * den1 * den2 == 2 * num1 * den2,
                den2 > 0,
        ;
    }
}

} // verus!
