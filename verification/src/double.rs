//! Double-precision numbers, computed on their encodings.
//!
//! Every operation rounds to nearest, ties to even, as the IEEE 754 standard
//! asks of binary64. The operations are stated over exact integer values, so
//! that a result never depends on the machine that computes it.
use crate::rounding::{
    bit_length, in_step, lemma_magnitude_increases, lemma_nearest_root_between, lemma_round_is,
    lemma_round_monotone, lemma_round_root_is, magnitude, nearest, nearest_root, power_of_two,
    round, round_root, round_step, scale, FRACTION, INF_BITS,
};
use vstd::arithmetic::power2::{lemma_pow2_adds, lemma_pow2_pos, pow2};
use vstd::prelude::*;

verus! {

/// The sign bit.
pub const SIGN_BIT: u64 = 0x8000_0000_0000_0000;

/// The encoding of the quiet not-a-number that invalid operations return.
pub const NAN_BITS: u64 = 0x7ff8_0000_0000_0000;

/// The binary exponent of one, counted in the smallest subnormal.
pub const UNIT_EXPONENT: u32 = 1074;

/// A double-precision number, held as its encoding.
#[derive(Clone, Copy, Debug)]
pub struct Double {
    pub bits: u64,
}

/// The value of one, counted in the smallest subnormal.
pub open spec fn unit() -> int {
    pow2(UNIT_EXPONENT as nat) as int
}

impl Double {
    /// The sign bit is set.
    pub open spec fn negative(self) -> bool {
        self.bits >= SIGN_BIT
    }

    /// The encoding without its sign bit.
    pub open spec fn unsigned(self) -> int {
        if self.bits >= SIGN_BIT {
            self.bits - SIGN_BIT
        } else {
            self.bits as int
        }
    }

    /// The number is not a number.
    pub open spec fn nan(self) -> bool {
        self.unsigned() > INF_BITS
    }

    /// The number is infinite.
    pub open spec fn infinite(self) -> bool {
        self.unsigned() == INF_BITS
    }

    /// The number is neither infinite nor not-a-number.
    pub open spec fn finite(self) -> bool {
        self.unsigned() < INF_BITS
    }

    /// The number is zero, of either sign.
    pub open spec fn vanishes(self) -> bool {
        self.unsigned() == 0
    }

    /// The value of a number, counted in the smallest subnormal.
    pub open spec fn value(self) -> int {
        if self.negative() {
            -magnitude(self.unsigned())
        } else {
            magnitude(self.unsigned())
        }
    }

    /// The position of a number among all others: the encoding with its sign.
    pub open spec fn rank(self) -> int {
        if self.negative() {
            -self.unsigned()
        } else {
            self.unsigned()
        }
    }
}

/// The number with the given sign and unsigned encoding.
pub open spec fn pack(negative: bool, a: int) -> Double {
    Double {
        bits: (if negative {
            a + SIGN_BIT
        } else {
            a
        }) as u64,
    }
}

/// What an invalid operation returns.
pub open spec fn invalid() -> Double {
    Double { bits: NAN_BITS }
}

/// Zero, without a sign.
pub open spec fn fzero() -> Double {
    Double { bits: 0 }
}

/// One.
pub open spec fn fone() -> Double {
    Double { bits: 0x3ff0_0000_0000_0000 }
}

/// The sum of two numbers, rounded.
#[verifier::opaque]
pub open spec fn fadd(x: Double, y: Double) -> Double {
    if x.nan() || y.nan() || (x.infinite() && y.infinite() && x.negative() != y.negative()) {
        invalid()
    } else if x.infinite() {
        x
    } else if y.infinite() {
        y
    } else {
        let v = x.value() + y.value();
        if v == 0 {
            pack(x.negative() && y.negative(), 0)
        } else if v < 0 {
            pack(true, round(-v, 1))
        } else {
            pack(false, round(v, 1))
        }
    }
}

/// The number with its sign turned.
pub open spec fn fneg(x: Double) -> Double {
    Double {
        bits: (if x.bits >= SIGN_BIT {
            x.bits - SIGN_BIT
        } else {
            x.bits + SIGN_BIT
        }) as u64,
    }
}

/// The number without its sign.
pub open spec fn fabs(x: Double) -> Double {
    Double { bits: x.unsigned() as u64 }
}

/// The difference of two numbers, rounded.
pub open spec fn fsub(x: Double, y: Double) -> Double {
    fadd(x, fneg(y))
}

/// The product of two numbers, rounded.
#[verifier::opaque]
pub open spec fn fmul(x: Double, y: Double) -> Double {
    let negative = x.negative() != y.negative();
    if x.nan() || y.nan() || (x.infinite() && y.vanishes()) || (x.vanishes() && y.infinite()) {
        invalid()
    } else if x.infinite() || y.infinite() {
        pack(negative, INF_BITS as int)
    } else {
        pack(negative, round(magnitude(x.unsigned()) * magnitude(y.unsigned()), unit()))
    }
}

/// The quotient of two numbers, rounded.
#[verifier::opaque]
pub open spec fn fdiv(x: Double, y: Double) -> Double {
    let negative = x.negative() != y.negative();
    if x.nan() || y.nan() || (x.infinite() && y.infinite()) || (x.vanishes() && y.vanishes()) {
        invalid()
    } else if x.infinite() || y.vanishes() {
        pack(negative, INF_BITS as int)
    } else if y.infinite() {
        pack(negative, 0)
    } else {
        pack(negative, round(magnitude(x.unsigned()) * unit(), magnitude(y.unsigned())))
    }
}

/// The square root of a number, rounded.
#[verifier::opaque]
pub open spec fn froot(x: Double) -> Double {
    if x.nan() || (x.negative() && !x.vanishes()) {
        invalid()
    } else if x.vanishes() || x.infinite() {
        x
    } else {
        pack(false, round_root(magnitude(x.unsigned()) * unit()))
    }
}

/// The number nearest to a count.
#[verifier::opaque]
pub open spec fn fcount(n: int) -> Double {
    pack(false, round(n * unit(), 1))
}

/// `x` is less than `y`.
pub open spec fn flt(x: Double, y: Double) -> bool {
    !x.nan() && !y.nan() && x.rank() < y.rank()
}

/// `x` is at most `y`.
pub open spec fn fle(x: Double, y: Double) -> bool {
    !x.nan() && !y.nan() && x.rank() <= y.rank()
}

/// `x` and `y` are the same number; zeros of either sign are.
pub open spec fn feq(x: Double, y: Double) -> bool {
    !x.nan() && !y.nan() && x.rank() == y.rank()
}

/// The smaller of two numbers; one that is not a number is passed over.
pub open spec fn fmin(x: Double, y: Double) -> Double {
    if x.nan() || flt(y, x) {
        y
    } else {
        x
    }
}

/// The larger of two numbers; one that is not a number is passed over.
pub open spec fn fmax(x: Double, y: Double) -> Double {
    if x.nan() || flt(x, y) {
        y
    } else {
        x
    }
}

/// The number held between two bounds.
pub open spec fn fclamp(x: Double, low: Double, high: Double) -> Double {
    if flt(x, low) {
        low
    } else if flt(high, x) {
        high
    } else {
        x
    }
}

/// The significand of an encoding, its leading bit included.
pub open spec fn significand(a: int) -> int {
    if a / (FRACTION as int) <= 0 {
        a % (FRACTION as int)
    } else {
        FRACTION + a % (FRACTION as int)
    }
}

/// The binary exponent of an encoding's last significand bit.
pub open spec fn exponent(a: int) -> int {
    if a / (FRACTION as int) <= 1 {
        0
    } else {
        a / (FRACTION as int) - 1
    }
}

/// Parts an encoding into significand and exponent.
fn split(a: u64) -> (parts: (u64, i32))
    requires
        a < INF_BITS,
    ensures
        parts.0 == significand(a as int),
        parts.1 == exponent(a as int),
        magnitude(a as int) == parts.0 * pow2(parts.1 as nat),
        parts.0 < 0x20_0000_0000_0000,
        0 <= parts.1 <= 2045,
        parts.1 > 0 ==> parts.0 >= 0x10_0000_0000_0000,
        a > 0 ==> parts.0 > 0,
{
    proof {
        vstd::arithmetic::power2::lemma2_to64();
    }
    let e: u64 = a / FRACTION;
    let f: u64 = a % FRACTION;
    if e == 0 {
        assert(f * 1 == f);
        (f, 0)
    } else {
        (FRACTION + f, (e - 1) as i32)
    }
}

/// The encoding nearest to the sum of two finite magnitudes, the first the larger.
fn add_unsigned(high: u64, low: u64) -> (a: u64)
    requires
        0 < high < INF_BITS,
        low <= high,
    ensures
        a == round(magnitude(high as int) + magnitude(low as int), 1),
        nearest(magnitude(high as int) + magnitude(low as int), 1, a as int),
{
    let (m1, e1): (u64, i32) = split(high);
    let (m2, e2): (u64, i32) = split(low);
    let ghost num = magnitude(high as int) + magnitude(low as int);
    let d: u32 = (e1 - e2) as u32;
    if d <= 64 {
        let p: u128 = power_of_two(d);
        proof {
            lemma_aligned(m1 as int, e1 as int, m2 as int, e2 as int);
        }
        let m: u128 = (m1 as u128) * p + (m2 as u128);
        proof {
            lemma_exact_step(num, 1, m as int, e2 as int);
        }
        round_step(m, e2, false, Ghost(num), Ghost(1))
    } else {
        let m: u128 = (m1 as u128) * 8;
        proof {
            lemma_far_apart(m1 as int, e1 as int, m2 as int, e2 as int);
            assert(in_step(num, 1, m as int, (e1 - 3) as int, m2 != 0));
        }
        round_step(m, e1 - 3, m2 != 0, Ghost(num), Ghost(1))
    }
}

/// The encoding nearest to the difference of two finite magnitudes.
fn sub_unsigned(high: u64, low: u64) -> (a: u64)
    requires
        low < high < INF_BITS,
    ensures
        a == round(magnitude(high as int) - magnitude(low as int), 1),
        nearest(magnitude(high as int) - magnitude(low as int), 1, a as int),
{
    let (m1, e1): (u64, i32) = split(high);
    let (m2, e2): (u64, i32) = split(low);
    let ghost num = magnitude(high as int) - magnitude(low as int);
    proof {
        lemma_magnitude_increases(low as int, high as int);
    }
    let d: u32 = (e1 - e2) as u32;
    if d <= 64 {
        let p: u128 = power_of_two(d);
        proof {
            lemma_aligned(m1 as int, e1 as int, m2 as int, e2 as int);
            lemma_pow2_pos(e2 as nat);
            let w = pow2(e2 as nat) as int;
            assert(m1 * p - m2 > 0) by (nonlinear_arith)
                requires
                    (m1 * p - m2) * w > 0,
                    w > 0,
            ;
        }
        let m: u128 = (m1 as u128) * p - (m2 as u128);
        proof {
            lemma_exact_step(num, 1, m as int, e2 as int);
        }
        round_step(m, e2, false, Ghost(num), Ghost(1))
    } else {
        proof {
            lemma_far_apart(m1 as int, e1 as int, m2 as int, e2 as int);
        }
        let m: u128 = if m2 == 0 {
            (m1 as u128) * 8
        } else {
            (m1 as u128) * 8 - 1
        };
        assert(in_step(num, 1, m as int, (e1 - 3) as int, m2 != 0));
        round_step(m, e1 - 3, m2 != 0, Ghost(num), Ghost(1))
    }
}

proof fn lemma_exact_step(num: int, den: int, m: int, e: int)
    requires
        den > 0,
        m >= 0,
        num * scale(-e) == m * scale(e) * den,
    ensures
        in_step(num, den, m, e, false),
{
    let s = scale(e);
    lemma_pow2_pos(e as nat);
    assert(m * s * den < (m + 1) * s * den) by (nonlinear_arith)
        requires
            s > 0,
            den > 0,
    ;
}

/// Two magnitudes brought to the exponent of the smaller one.
proof fn lemma_aligned(m1: int, e1: int, m2: int, e2: int)
    requires
        0 <= e2 <= e1,
        e1 - e2 <= 64,
        0 <= m1 < 0x20_0000_0000_0000,
        0 <= m2 < 0x20_0000_0000_0000,
        m1 > 0,
    ensures
        ({
            let p = pow2((e1 - e2) as nat) as int;
            let w = pow2(e2 as nat) as int;
            &&& 0 < m1 * p + m2 < 0x4000_0000_0000_0000_0000_0000_0000_0000
            &&& m1 * pow2(e1 as nat) + m2 * w == (m1 * p + m2) * w
            &&& m1 * pow2(e1 as nat) - m2 * w == (m1 * p - m2) * w
            &&& (m1 * p + m2) * scale(e2) * 1 == (m1 * p + m2) * w
            &&& (m1 * p - m2) * scale(e2) * 1 == (m1 * p - m2) * w
            &&& scale(-e2) == 1
            &&& m1 * p >= 0
            &&& m1 * p < 0x4000_0000_0000_0000_0000_0000_0000_0000
        }),
{
    vstd::arithmetic::power2::lemma2_to64();
    vstd::arithmetic::power2::lemma2_to64_rest();
    let d = e1 - e2;
    let p = pow2(d as nat) as int;
    let w = pow2(e2 as nat) as int;
    lemma_pow2_pos(d as nat);
    if d < 64 {
        vstd::arithmetic::power2::lemma_pow2_strictly_increases(d as nat, 64);
    }
    lemma_pow2_adds(d as nat, e2 as nat);
    assert(0 < m1 * p < 0x20_0000_0000_0001 * 0x1_0000_0000_0000_0000) by (nonlinear_arith)
        requires
            0 < m1 < 0x20_0000_0000_0000,
            0 < p <= 0x1_0000_0000_0000_0000,
    ;
    assert(m1 * (p * w) + m2 * w == (m1 * p + m2) * w) by (nonlinear_arith);
    assert(m1 * (p * w) - m2 * w == (m1 * p - m2) * w) by (nonlinear_arith);
}

/// Far below a magnitude, another one is less than an eighth of its last bit.
proof fn lemma_far_apart(m1: int, e1: int, m2: int, e2: int)
    requires
        0 <= e2,
        e1 - e2 > 64,
        0 <= m1 < 0x20_0000_0000_0000,
        0 <= m2 < 0x20_0000_0000_0000,
    ensures
        ({
            let w = scale(e1 - 3);
            &&& m1 * pow2(e1 as nat) == m1 * 8 * w
            &&& 0 <= m2 * pow2(e2 as nat) < w
            &&& m2 > 0 ==> m2 * pow2(e2 as nat) > 0
            &&& (m1 * 8 + 1) * w == m1 * 8 * w + w
            &&& (m1 * 8 - 1) * w == m1 * 8 * w - w
            &&& scale(-(e1 - 3)) == 1
            &&& m2 == 0 ==> m2 * pow2(e2 as nat) == 0
        }),
{
    vstd::arithmetic::power2::lemma2_to64();
    vstd::arithmetic::power2::lemma2_to64_rest();
    let w = pow2((e1 - 3) as nat) as int;
    let v = pow2(e2 as nat) as int;
    lemma_pow2_pos(e2 as nat);
    lemma_pow2_adds((e1 - 3) as nat, 3);
    lemma_pow2_adds(e2 as nat, 53);
    vstd::arithmetic::power2::lemma_pow2_strictly_increases((e2 + 53) as nat, (e1 - 3) as nat);
    assert(m1 * (w * 8) == m1 * 8 * w) by (nonlinear_arith);
    assert(0 <= m2 * v < 0x20_0000_0000_0001 * v) by (nonlinear_arith)
        requires
            0 <= m2 < 0x20_0000_0000_0000,
            v > 0,
    ;
    assert(m2 * v <= 0x20_0000_0000_0000 * v) by (nonlinear_arith)
        requires
            0 <= m2 < 0x20_0000_0000_0000,
            v > 0,
    ;
    if m2 > 0 {
        assert(m2 * v > 0) by (nonlinear_arith)
            requires
                m2 > 0,
                v > 0,
        ;
    }
    assert((m1 * 8 + 1) * w == m1 * 8 * w + w) by (nonlinear_arith);
    assert((m1 * 8 - 1) * w == m1 * 8 * w - w) by (nonlinear_arith);
}

/// The encoding nearest to the product of two finite magnitudes.
fn mul_unsigned(x: u64, y: u64) -> (a: u64)
    requires
        x < INF_BITS,
        y < INF_BITS,
    ensures
        a == round(magnitude(x as int) * magnitude(y as int), unit()),
        nearest(magnitude(x as int) * magnitude(y as int), unit(), a as int),
{
    let ghost num = magnitude(x as int) * magnitude(y as int);
    proof {
        lemma_pow2_pos(UNIT_EXPONENT as nat);
    }
    if x == 0 || y == 0 {
        proof {
            lemma_rounds_to_zero(unit());
            assert(num == 0) by (nonlinear_arith)
                requires
                    num == magnitude(x as int) * magnitude(y as int),
                    magnitude(x as int) == 0 || magnitude(y as int) == 0,
            ;
        }
        return 0;
    }
    let (m1, e1): (u64, i32) = split(x);
    let (m2, e2): (u64, i32) = split(y);
    proof {
        lemma_product_step(num, m1 as int, e1 as int, m2 as int, e2 as int);
    }
    let m: u128 = (m1 as u128) * (m2 as u128);
    round_step(m, e1 + e2 - 1074, false, Ghost(num), Ghost(unit()))
}

proof fn lemma_rounds_to_zero(den: int)
    requires
        den > 0,
    ensures
        nearest(0, den, 0),
        round(0, den) == 0,
        magnitude(0) == 0,
{
    lemma_magnitude_increases(0, 1);
    let m = magnitude(0) + magnitude(1);
    assert(0 < m * den) by (nonlinear_arith)
        requires
            m > 0,
            den > 0,
    ;
    lemma_round_is(0, den, 0);
}

proof fn lemma_product_step(num: int, m1: int, e1: int, m2: int, e2: int)
    requires
        0 < m1 < 0x20_0000_0000_0000,
        0 < m2 < 0x20_0000_0000_0000,
        0 <= e1 <= 2045,
        0 <= e2 <= 2045,
        num == (m1 * pow2(e1 as nat)) * (m2 * pow2(e2 as nat)),
    ensures
        0 < m1 * m2 < 0x4000_0000_0000_0000_0000_0000_0000_0000,
        in_step(num, unit(), m1 * m2, e1 + e2 - 1074, false),
{
    let m = m1 * m2;
    assert(0 < m <= 0x20_0000_0000_0000 * 0x20_0000_0000_0000) by (nonlinear_arith)
        requires
            0 < m1 < 0x20_0000_0000_0000,
            0 < m2 < 0x20_0000_0000_0000,
            m == m1 * m2,
    ;
    let w1 = pow2(e1 as nat) as int;
    let w2 = pow2(e2 as nat) as int;
    let w = pow2((e1 + e2) as nat) as int;
    lemma_pow2_adds(e1 as nat, e2 as nat);
    assert((m1 * w1) * (m2 * w2) == (m1 * m2) * (w1 * w2)) by (nonlinear_arith);
    assert(num == m * w);
    let e = e1 + e2 - 1074;
    lemma_pow2_pos(UNIT_EXPONENT as nat);
    if e > 0 {
        lemma_pow2_adds(e as nat, UNIT_EXPONENT as nat);
        let s = scale(e);
        assert(m * (s * unit()) == m * s * unit()) by (nonlinear_arith);
        assert(num * 1 == m * s * unit());
    } else if e < 0 {
        lemma_pow2_adds((e1 + e2) as nat, (-e) as nat);
        let s = scale(-e);
        assert(m * (w * s) == m * w * s) by (nonlinear_arith);
        assert(num * s == m * 1 * unit());
    } else {
        assert(num * 1 == m * 1 * unit());
    }
    lemma_exact_step(num, unit(), m, e);
}

/// Parts an encoding into a significand of full width and its exponent.
fn split_normal(a: u64) -> (parts: (u64, i32))
    requires
        0 < a < INF_BITS,
    ensures
        0x10_0000_0000_0000 <= parts.0 < 0x20_0000_0000_0000,
        -52 <= parts.1 <= 2045,
        magnitude(a as int) * scale(-parts.1) == parts.0 * scale(parts.1 as int),
{
    let (m, e): (u64, i32) = split(a);
    proof {
        vstd::arithmetic::power2::lemma2_to64();
        vstd::arithmetic::power2::lemma2_to64_rest();
    }
    if m >= 0x10_0000_0000_0000 {
        assert(magnitude(a as int) * 1 == m * scale(e as int));
        (m, e)
    } else {
        let n: u32 = bit_length(m as u128);
        proof {
            if n > 52 {
                lemma_pow2_grows(52, (n - 1) as nat);
            }
        }
        let k: u32 = 53 - n;
        let p: u128 = power_of_two(k);
        proof {
            lemma_pow2_adds(n as nat, k as nat);
            lemma_pow2_adds((n - 1) as nat, k as nat);
            lemma_pow2_pos(k as nat);
            let w = pow2(n as nat) as int;
            let v = pow2((n - 1) as nat) as int;
            assert(v * p <= m * p < w * p) by (nonlinear_arith)
                requires
                    v <= m < w,
                    p > 0,
            ;
            assert(magnitude(a as int) == m * 1);
        }
        (((m as u128) * p) as u64, -(k as i32))
    }
}

proof fn lemma_pow2_grows(a: nat, b: nat)
    requires
        a <= b,
    ensures
        pow2(a) <= pow2(b),
{
    if a < b {
        vstd::arithmetic::power2::lemma_pow2_strictly_increases(a, b);
    }
}

/// The encoding nearest to the quotient of two finite magnitudes.
fn div_unsigned(x: u64, y: u64) -> (a: u64)
    requires
        x < INF_BITS,
        0 < y < INF_BITS,
    ensures
        a == round(magnitude(x as int) * unit(), magnitude(y as int)),
        nearest(magnitude(x as int) * unit(), magnitude(y as int), a as int),
{
    let ghost num = magnitude(x as int) * unit();
    let ghost den = magnitude(y as int);
    proof {
        lemma_magnitude_increases(0, y as int);
    }
    if x == 0 {
        proof {
            lemma_rounds_to_zero(den);
            assert(0 * unit() == 0);
        }
        return 0;
    }
    let (m1, e1): (u64, i32) = split_normal(x);
    let (m2, e2): (u64, i32) = split(y);
    proof {
        vstd::arithmetic::power2::lemma2_to64_rest();
        assert(m1 * 0x20_0000_0000_0000_0000 < 0x20_0000_0000_0000 * 0x20_0000_0000_0000_0000);
    }
    let n: u128 = (m1 as u128) * 0x20_0000_0000_0000_0000;
    let q: u128 = n / (m2 as u128);
    let r: u128 = n % (m2 as u128);
    proof {
        lemma_quotient_step(num, den, x as int, m1 as int, e1 as int, m2 as int, e2 as int, q as int, r as int);
    }
    round_step(q, e1 - e2 + 1074 - 69, r != 0, Ghost(num), Ghost(den))
}

proof fn lemma_quotient_step(
    num: int,
    den: int,
    x: int,
    m1: int,
    e1: int,
    m2: int,
    e2: int,
    q: int,
    r: int,
)
    requires
        0x10_0000_0000_0000 <= m1 < 0x20_0000_0000_0000,
        0 < m2 < 0x20_0000_0000_0000,
        -52 <= e1 <= 2045,
        0 <= e2 <= 2045,
        num == magnitude(x) * unit(),
        magnitude(x) * scale(-e1) == m1 * scale(e1),
        den == m2 * pow2(e2 as nat),
        den > 0,
        q == (m1 * 0x20_0000_0000_0000_0000) / m2,
        r == (m1 * 0x20_0000_0000_0000_0000) % m2,
    ensures
        0x20_0000_0000_0000 <= q < 0x4000_0000_0000_0000_0000_0000_0000_0000,
        in_step(num, den, q, e1 - e2 + 1074 - 69, r != 0),
{
    let n = m1 * 0x20_0000_0000_0000_0000;
    vstd::arithmetic::div_mod::lemma_fundamental_div_mod(n, m2);
    assert(n == q * m2 + r && 0 <= r < m2) by (nonlinear_arith)
        requires
            n == m2 * (n / m2) + n % m2,
            q == n / m2,
            r == n % m2,
            m2 > 0,
    ;
    assert(q >= 0x20_0000_0000_0000) by (nonlinear_arith)
        requires
            n == q * m2 + r,
            r < m2,
            m2 < 0x20_0000_0000_0000,
            n >= 0x10_0000_0000_0000 * 0x20_0000_0000_0000_0000,
            m2 > 0,
    ;
    assert(q <= n) by (nonlinear_arith)
        requires
            n == q * m2 + r,
            0 <= r,
            m2 >= 1,
            q >= 0,
    ;
    let e = e1 - e2 + 1074 - 69;
    vstd::arithmetic::power2::lemma2_to64();
    vstd::arithmetic::power2::lemma2_to64_rest();
    // Both sides are compared at one common scale.
    let a = scale(-e1);
    let b = scale(e1);
    let c = pow2(e2 as nat) as int;
    let se = scale(e);
    let ne = scale(-e);
    let u = unit();
    let k: int = 0x20_0000_0000_0000_0000;
    lemma_pow2_pos(UNIT_EXPONENT as nat);
    lemma_pow2_pos(e2 as nat);
    lemma_pow2_pos(e as nat);
    lemma_pow2_pos((-e) as nat);
    lemma_pow2_pos(e1 as nat);
    lemma_pow2_pos((-e1) as nat);
    assert(pow2(69) == k) by {
        lemma_pow2_adds(64, 5);
    }
    // b * u * ne == a * c * se * k, as powers of two.
    lemma_scales(e1, e2, e);
    assert(b * u * ne == a * c * se * k);
    let low = q * se * den;
    let high = (q + 1) * se * den;
    let ratio = num * ne;
    let t = a * c * se;
    assert(t > 0) by (nonlinear_arith)
        requires
            a > 0,
            c > 0,
            se > 0,
            t == a * c * se,
    ;
    assert(ratio * a == n * t) by {
        let mx = magnitude(x);
        assert(mx * u * ne * a == (mx * a) * (u * ne)) by (nonlinear_arith);
        assert((m1 * b) * (u * ne) == m1 * (b * u * ne)) by (nonlinear_arith);
        assert(m1 * (a * c * se * k) == (m1 * k) * (a * c * se)) by (nonlinear_arith);
    }
    assert(low * a == (q * m2) * t) by {
        assert(q * se * (m2 * c) * a == (q * m2) * (a * c * se)) by (nonlinear_arith);
    }
    assert(high * a == ((q + 1) * m2) * t) by {
        assert((q + 1) * se * (m2 * c) * a == ((q + 1) * m2) * (a * c * se)) by (nonlinear_arith);
    }
    assert((q + 1) * m2 == q * m2 + m2) by (nonlinear_arith);
    assert((q * m2) * t <= n * t && n * t < ((q + 1) * m2) * t && (r != 0 ==> (q * m2) * t < n * t))
        by (nonlinear_arith)
        requires
            n == q * m2 + r,
            0 <= r < m2,
            (q + 1) * m2 == q * m2 + m2,
            t > 0,
    ;
    assert(low <= ratio && ratio < high && (r != 0 <==> low != ratio)) by (nonlinear_arith)
        requires
            low * a <= ratio * a,
            ratio * a < high * a,
            r != 0 ==> low * a < ratio * a,
            r == 0 ==> low * a == ratio * a,
            a > 0,
    ;
}

proof fn lemma_scales(e1: int, e2: int, e: int)
    requires
        0 <= e2,
        e == e1 - e2 + 1074 - 69,
    ensures
        scale(e1) * unit() * scale(-e) == scale(-e1) * pow2(e2 as nat) * scale(e) * pow2(69),
{
    let p1 = if e1 > 0 { e1 } else { 0 };
    let n1 = if e1 < 0 { -e1 } else { 0 };
    let pe = if e > 0 { e } else { 0 };
    let ne = if e < 0 { -e } else { 0 };
    vstd::arithmetic::power2::lemma2_to64();
    assert(scale(e1) == pow2(p1 as nat));
    assert(scale(-e1) == pow2(n1 as nat));
    assert(scale(e) == pow2(pe as nat));
    assert(scale(-e) == pow2(ne as nat));
    lemma_pow2_adds(p1 as nat, 1074);
    lemma_pow2_adds((p1 + 1074) as nat, ne as nat);
    lemma_pow2_adds(n1 as nat, e2 as nat);
    lemma_pow2_adds((n1 + e2) as nat, pe as nat);
    lemma_pow2_adds((n1 + e2 + pe) as nat, 69);
    assert(p1 + 1074 + ne == n1 + e2 + pe + 69);
}

/// The largest integer whose square is at most `n`.
fn integer_root(n: u128) -> (s: u64)
    requires
        n < 0x4_0000_0000_0000_0000_0000_0000_0000,
    ensures
        s * s <= n < (s + 1) * (s + 1),
        s < 0x200_0000_0000_0000,
{
    let mut s: u64 = 0;
    let mut w: u64 = 0x200_0000_0000_0000;
    let ghost mut k: nat = 57;
    proof {
        vstd::arithmetic::power2::lemma2_to64();
        vstd::arithmetic::power2::lemma2_to64_rest();
        assert(0x200_0000_0000_0000int * 0x200_0000_0000_0000 == 0x4_0000_0000_0000_0000_0000_0000_0000);
    }
    while w > 1
        invariant
            s * s <= n < (s + w) * (s + w),
            s + w <= 0x200_0000_0000_0000,
            w == pow2(k),
            w >= 1,
        decreases w,
    {
        proof {
            if k == 0 {
                vstd::arithmetic::power2::lemma2_to64();
            }
            vstd::arithmetic::power2::lemma_pow2_unfold(k);
            k = (k - 1) as nat;
        }
        let h: u64 = w / 2;
        let c: u64 = s + h;
        assert(c + h == s + w);
        assert((c + h) * (c + h) == (s + w) * (s + w));
        assert(c * c <= 0x200_0000_0000_0000 * 0x200_0000_0000_0000) by (nonlinear_arith)
            requires
                c <= 0x200_0000_0000_0000,
        ;
        if (c as u128) * (c as u128) <= n {
            s = c;
        }
        w = h;
    }
    s
}

/// The encoding nearest to the square root of a positive finite magnitude.
fn root_unsigned(x: u64) -> (a: u64)
    requires
        0 < x < INF_BITS,
    ensures
        a == round_root(magnitude(x as int) * unit()),
        nearest_root(magnitude(x as int) * unit(), a as int),
{
    let ghost square = magnitude(x as int) * unit();
    let (m, e): (u64, i32) = split_normal(x);
    let j: i32 = if (e + 1074) % 2 == 0 { 60 } else { 61 };
    let t: i32 = (e + 1074 - j) / 2;
    proof {
        vstd::arithmetic::power2::lemma2_to64();
        vstd::arithmetic::power2::lemma2_to64_rest();
    }
    let n: u128 = if (e + 1074) % 2 == 0 {
        (m as u128) * 0x1000_0000_0000_0000
    } else {
        (m as u128) * 0x2000_0000_0000_0000
    };
    assert(n == m * pow2(j as nat));
    assert(2 * t == e + 1074 - j);
    let s: u64 = integer_root(n);
    let s0: u64 = s / 16;
    let r: u64 = s % 16;
    let sticky: bool = (s as u128) * (s as u128) != n;
    let up: bool = r > 8 || (r == 8 && (sticky || s0 % 2 == 1));
    proof {
        lemma_root_step(square, x as int, m as int, e as int, j as int, t as int, n as int, s as int);
        lemma_nearest_root_between(square, t + 4, s0 as int, up);
    }
    let a: u64 = if up {
        ((t + 4) as u64) * FRACTION + s0 + 1
    } else {
        ((t + 4) as u64) * FRACTION + s0
    };
    proof {
        lemma_round_root_is(square, a as int);
    }
    a
}

proof fn lemma_root_step(square: int, x: int, m: int, e: int, j: int, t: int, n: int, s: int)
    requires
        0x10_0000_0000_0000 <= m < 0x20_0000_0000_0000,
        -52 <= e <= 2045,
        60 <= j <= 61,
        2 * t == e + 1074 - j,
        n == m * pow2(j as nat),
        0x1_0000_0000_0000_0000_0000_0000_0000 <= n,
        square == magnitude(x) * unit(),
        magnitude(x) * scale(-e) == m * scale(e),
        s * s <= n < (s + 1) * (s + 1),
        0 <= s < 0x200_0000_0000_0000,
    ensures
        ({
            let w = pow2((t + 4) as nat) as int;
            let s0 = s / 16;
            let r = s % 16;
            let midpoint = (2 * s0 + 1) * w;
            &&& FRACTION <= s0 < 2 * FRACTION
            &&& (s0 * w) * (s0 * w) <= square
            &&& square < ((s0 + 1) * w) * ((s0 + 1) * w)
            &&& (midpoint * midpoint < 4 * square) == (r > 8 || (r == 8 && s * s != n))
            &&& (midpoint * midpoint == 4 * square) == (r == 8 && s * s == n)
        }),
{
    vstd::arithmetic::power2::lemma2_to64();
    let s0 = s / 16;
    let r = s % 16;
    let h = pow2(t as nat) as int;
    let w = pow2((t + 4) as nat) as int;
    lemma_pow2_adds(t as nat, 4);
    lemma_pow2_pos(t as nat);
    assert(w == 16 * h);
    assert(s >= 0x100_0000_0000_0000) by (nonlinear_arith)
        requires
            (s + 1) * (s + 1) > 0x1_0000_0000_0000_0000_0000_0000_0000,
            s >= 0,
    ;
    // The square is `n` at twice the exponent of `s`.
    let hh = h * h;
    assert(square == n * hh) by {
        lemma_pow2_adds(t as nat, t as nat);
        let g = pow2((e + 1074) as nat) as int;
        lemma_pow2_adds(j as nat, (2 * t) as nat);
        assert(m * pow2(j as nat) * hh == m * (pow2(j as nat) * hh)) by (nonlinear_arith);
        assert(n * hh == m * g);
        let mx = magnitude(x);
        if e >= 0 {
            if e > 0 {
                lemma_pow2_adds(e as nat, UNIT_EXPONENT as nat);
            }
            assert(mx * 1 == m * scale(e));
            assert(m * scale(e) * unit() == m * (scale(e) * unit())) by (nonlinear_arith);
        } else {
            let k = scale(-e);
            lemma_pow2_adds((e + 1074) as nat, (-e) as nat);
            lemma_pow2_pos((-e) as nat);
            assert(mx * k == m * 1);
            assert(unit() == g * k);
            assert(mx * (g * k) == (mx * k) * g) by (nonlinear_arith);
        }
    }
    assert(hh > 0) by (nonlinear_arith)
        requires
            hh == h * h,
            h > 0,
    ;
    let b = 16 * s0;
    lemma_square_scaled(s0, w, b, h);
    lemma_square_scaled(s0 + 1, w, b + 16, h);
    lemma_square_scaled(2 * s0 + 1, w, 2 * (b + 8), h);
    let c = b + 8;
    assert((2 * c) * (2 * c) == 4 * (c * c)) by (nonlinear_arith);
    assert(b * b <= n) by (nonlinear_arith)
        requires
            0 <= b <= s,
            s * s <= n,
    ;
    assert(n < (b + 16) * (b + 16)) by (nonlinear_arith)
        requires
            0 <= s + 1 <= b + 16,
            n < (s + 1) * (s + 1),
    ;
    lemma_times(b * b, n, hh);
    lemma_times((b + 16) * (b + 16), n, hh);
    lemma_times(c * c, n, hh);
    assert(4 * (c * c) * hh == 4 * (c * c * hh)) by (nonlinear_arith);
    if r > 8 {
        assert(c * c < n) by (nonlinear_arith)
            requires
                0 <= c < s,
                s * s <= n,
        ;
    } else if r < 8 {
        assert(c * c > n) by (nonlinear_arith)
            requires
                0 <= s + 1 <= c,
                n < (s + 1) * (s + 1),
        ;
    }
}

proof fn lemma_square_scaled(s: int, w: int, b: int, h: int)
    requires
        s * w == b * h || (w == 16 * h && 16 * s == b),
    ensures
        (s * w) * (s * w) == (b * b) * (h * h),
{
    assert(s * w == b * h) by (nonlinear_arith)
        requires
            s * w == b * h || (w == 16 * h && 16 * s == b),
    ;
    assert((b * h) * (b * h) == (b * b) * (h * h)) by (nonlinear_arith);
}

proof fn lemma_times(x: int, y: int, k: int)
    requires
        k > 0,
    ensures
        (x < y) == (x * k < y * k),
        (x <= y) == (x * k <= y * k),
        (x == y) == (x * k == y * k),
{
    assert((x < y) == (x * k < y * k) && (x == y) == (x * k == y * k)) by (nonlinear_arith)
        requires
            k > 0,
    ;
}

impl Double {
    /// The number with the given encoding.
    pub fn from_bits(bits: u64) -> (x: Double)
        ensures
            x.bits == bits,
    {
        Double { bits }
    }

    /// The encoding of the number.
    pub fn to_bits(self) -> (bits: u64)
        ensures
            bits == self.bits,
    {
        self.bits
    }

    /// Zero, without a sign.
    pub fn zero() -> (x: Double)
        ensures
            x == fzero(),
    {
        Double { bits: 0 }
    }

    /// One.
    pub fn one() -> (x: Double)
        ensures
            x == fone(),
    {
        Double { bits: 0x3ff0_0000_0000_0000 }
    }

    /// The number nearest to a count.
    pub fn of_count(n: usize) -> (x: Double)
        ensures
            x == fcount(n as int),
    {
        Double::of_sum(n, 0)
    }

    /// The number nearest to the sum of two counts.
    pub fn of_sum(a: usize, b: usize) -> (x: Double)
        ensures
            x == fcount(a + b),
    {
        reveal(fcount);
        let n: u128 = (a as u128) + (b as u128);
        if n == 0 {
            proof {
                lemma_rounds_to_zero(1);
                assert(0 * unit() == 0);
            }
            return Double { bits: 0 };
        }
        let ghost num = n * unit();
        proof {
            assert(num * 1 == n * scale(1074) * 1);
            lemma_exact_step(num, 1, n as int, 1074);
        }
        Double { bits: round_step(n, 1074, false, Ghost(num), Ghost(1)) }
    }

    /// The number nearest to the quotient of two counts.
    pub fn ratio(num: usize, den: usize) -> (x: Double)
        ensures
            x == fratio(num as int, den as int),
    {
        Double::of_count(num) / Double::of_count(den)
    }

    /// The encoding without its sign bit.
    fn unsigned_bits(self) -> (a: u64)
        ensures
            a == self.unsigned(),
    {
        if self.bits >= SIGN_BIT {
            self.bits - SIGN_BIT
        } else {
            self.bits
        }
    }

    fn packed(negative: bool, a: u64) -> (x: Double)
        requires
            a <= INF_BITS,
        ensures
            x == pack(negative, a as int),
    {
        if negative {
            Double { bits: a + SIGN_BIT }
        } else {
            Double { bits: a }
        }
    }

    /// Whether this is not a number.
    pub fn is_nan(self) -> (r: bool)
        ensures
            r == self.nan(),
    {
        self.unsigned_bits() > INF_BITS
    }

    /// Whether this is neither infinite nor not-a-number.
    pub fn is_finite(self) -> (r: bool)
        ensures
            r == self.finite(),
    {
        self.unsigned_bits() < INF_BITS
    }

    /// The number without its sign.
    pub fn abs(self) -> (r: Double)
        ensures
            r == fabs(self),
    {
        Double { bits: self.unsigned_bits() }
    }

    /// The number with its sign turned.
    pub fn negated(self) -> (r: Double)
        ensures
            r == fneg(self),
    {
        if self.bits >= SIGN_BIT {
            Double { bits: self.bits - SIGN_BIT }
        } else {
            Double { bits: self.bits + SIGN_BIT }
        }
    }

    /// The square root, rounded to nearest.
    pub fn sqrt(self) -> (r: Double)
        ensures
            r == froot(self),
    {
        reveal(froot);
        let a: u64 = self.unsigned_bits();
        if a > INF_BITS || (self.bits >= SIGN_BIT && a != 0) {
            Double { bits: NAN_BITS }
        } else if a == 0 || a == INF_BITS {
            self
        } else {
            Double::packed(false, root_unsigned(a))
        }
    }

    /// Whether `self` is less than `other`.
    pub fn lt(self, other: Double) -> (r: bool)
        ensures
            r == flt(self, other),
    {
        let a: u64 = self.unsigned_bits();
        let b: u64 = other.unsigned_bits();
        if a > INF_BITS || b > INF_BITS {
            false
        } else if self.bits >= SIGN_BIT {
            if other.bits >= SIGN_BIT {
                b < a
            } else {
                a > 0 || b > 0
            }
        } else {
            other.bits < SIGN_BIT && a < b
        }
    }

    /// Whether `self` is at most `other`.
    pub fn le(self, other: Double) -> (r: bool)
        ensures
            r == fle(self, other),
    {
        !self.is_nan() && !other.is_nan() && !other.lt(self)
    }

    /// The smaller of two numbers; one that is not a number is passed over.
    pub fn min(self, other: Double) -> (r: Double)
        ensures
            r == fmin(self, other),
    {
        if self.is_nan() || other.lt(self) {
            other
        } else {
            self
        }
    }

    /// The larger of two numbers; one that is not a number is passed over.
    pub fn max(self, other: Double) -> (r: Double)
        ensures
            r == fmax(self, other),
    {
        if self.is_nan() || self.lt(other) {
            other
        } else {
            self
        }
    }

    /// The number held between two bounds.
    pub fn clamp(self, low: Double, high: Double) -> (r: Double)
        requires
            fle(low, high),
        ensures
            r == fclamp(self, low, high),
    {
        if self.lt(low) {
            low
        } else if high.lt(self) {
            high
        } else {
            self
        }
    }

    /// The whole count at or below the number, held to the range of a count; a
    /// number below zero and one that is not a number count as zero.
    pub fn floor_count(self) -> (n: usize)
        ensures
            n == ffloor(self),
    {
        let a: u64 = self.unsigned_bits();
        if a > INF_BITS || self.bits >= SIGN_BIT {
            return 0;
        }
        if a == INF_BITS {
            return usize::MAX;
        }
        let (n, rest): (u128, bool) = whole_part(a);
        if n <= (usize::MAX as u128) {
            n as usize
        } else {
            usize::MAX
        }
    }

    /// The whole count at or above the number, held to the range of a count; a
    /// number below zero and one that is not a number count as zero.
    pub fn ceil_count(self) -> (n: usize)
        ensures
            n == fceil(self),
    {
        let a: u64 = self.unsigned_bits();
        if a > INF_BITS || self.bits >= SIGN_BIT {
            return 0;
        }
        if a == INF_BITS {
            return usize::MAX;
        }
        let (n, rest): (u128, bool) = whole_part(a);
        proof {
            let v = magnitude(a as int);
            let u = unit();
            lemma_pow2_pos(UNIT_EXPONENT as nat);
            lemma_magnitude_increases(a as int, INF_BITS as int);
            lemma_ceiling(v, u);
        }
        let c: u128 = if rest && n <= 0xffff_ffff_ffff_ffff { n + 1 } else { n };
        if c <= (usize::MAX as u128) {
            c as usize
        } else {
            usize::MAX
        }
    }
}

/// The number nearest to the quotient of two counts.
pub open spec fn fratio(num: int, den: int) -> Double {
    fdiv(fcount(num), fcount(den))
}

/// The whole part of a number, held to the range of a count.
pub open spec fn ffloor(x: Double) -> int {
    if x.nan() || x.negative() {
        0
    } else if x.infinite() || x.value() / unit() > usize::MAX {
        usize::MAX as int
    } else {
        x.value() / unit()
    }
}

/// The least whole number at or above a number, held to the range of a count.
pub open spec fn fceil(x: Double) -> int {
    if x.nan() || x.negative() {
        0
    } else if x.infinite() || (x.value() + unit() - 1) / unit() > usize::MAX {
        usize::MAX as int
    } else {
        (x.value() + unit() - 1) / unit()
    }
}

/// The whole part of a finite magnitude, and whether anything is left; a large
/// one is held to a bound above every count.
fn whole_part(a: u64) -> (parts: (u128, bool))
    requires
        a < INF_BITS,
    ensures
        ({
            let n = magnitude(a as int) / unit();
            if n <= u64::MAX {
                parts.0 == n && parts.1 == (magnitude(a as int) % unit() != 0)
            } else {
                parts.0 > u64::MAX
            }
        }),
{
    let (m, e): (u64, i32) = split(a);
    proof {
        vstd::arithmetic::power2::lemma2_to64();
        vstd::arithmetic::power2::lemma2_to64_rest();
        lemma_pow2_pos(UNIT_EXPONENT as nat);
    }
    if e >= 1074 {
        let d: u32 = (e - 1074) as u32;
        if d > 64 {
            proof {
                lemma_whole_shift(m as int, d as int);
                lemma_pow2_grows(64, d as nat);
                let p = pow2(d as nat) as int;
                assert(m * p > u64::MAX) by (nonlinear_arith)
                    requires
                        m >= 1,
                        p >= 0x1_0000_0000_0000_0000,
                ;
            }
            return (0x1_0000_0000_0000_0000, false);
        }
        let p: u128 = power_of_two(d);
        proof {
            lemma_whole_shift(m as int, d as int);
            lemma_pow2_grows(d as nat, 64);
            assert(m * p <= 0x20_0000_0000_0000 * 0x1_0000_0000_0000_0000) by (nonlinear_arith)
                requires
                    m < 0x20_0000_0000_0000,
                    p <= 0x1_0000_0000_0000_0000,
            ;
        }
        ((m as u128) * p, false)
    } else {
        let k: u32 = (1074 - e) as u32;
        if k > 63 {
            proof {
                lemma_whole_cut(m as int, e as int, k as int);
                lemma_pow2_grows(53, k as nat);
                assert(m < pow2(k as nat));
                vstd::arithmetic::div_mod::lemma_basic_div(m as int, pow2(k as nat) as int);
                vstd::arithmetic::div_mod::lemma_small_mod(m as nat, pow2(k as nat));
            }
            return (0, m != 0);
        }
        let p: u128 = power_of_two(k);
        proof {
            lemma_whole_cut(m as int, e as int, k as int);
            lemma_pow2_pos(k as nat);
            assert((m as int) / (p as int) <= m) by (nonlinear_arith)
                requires
                    p >= 1,
                    m >= 0,
            ;
        }
        ((m as u128) / p, (m as u128) % p != 0)
    }
}

proof fn lemma_whole_shift(m: int, d: int)
    requires
        d >= 0,
        m >= 0,
    ensures
        (m * pow2((d + 1074) as nat)) / unit() == m * pow2(d as nat),
        (m * pow2((d + 1074) as nat)) % unit() == 0,
{
    lemma_pow2_adds(d as nat, UNIT_EXPONENT as nat);
    lemma_pow2_pos(UNIT_EXPONENT as nat);
    let p = pow2(d as nat) as int;
    let u = unit();
    assert(m * (p * u) == u * (m * p)) by (nonlinear_arith);
    vstd::arithmetic::div_mod::lemma_div_multiples_vanish(m * p, u);
    vstd::arithmetic::div_mod::lemma_mod_multiples_basic(m * p, u);
    assert(u * (m * p) == (m * p) * u) by (nonlinear_arith);
}

proof fn lemma_whole_cut(m: int, e: int, k: int)
    requires
        0 <= e,
        k == 1074 - e,
        k > 0,
        m >= 0,
    ensures
        (m * pow2(e as nat)) / unit() == m / (pow2(k as nat) as int),
        ((m * pow2(e as nat)) % unit() == 0) == (m % (pow2(k as nat) as int) == 0),
{
    lemma_pow2_adds(e as nat, k as nat);
    lemma_pow2_pos(e as nat);
    lemma_pow2_pos(k as nat);
    let w = pow2(e as nat) as int;
    let p = pow2(k as nat) as int;
    assert(m * w == w * m) by (nonlinear_arith);
    assert(unit() == w * p);
    vstd::arithmetic::div_mod::lemma_div_denominator(w * m, w, p);
    vstd::arithmetic::div_mod::lemma_div_multiples_vanish(m, w);
    vstd::arithmetic::div_mod::lemma_truncate_middle(m, w, p);
    let r = m % p;
    assert((w * r == 0) == (r == 0)) by (nonlinear_arith)
        requires
            w > 0,
    ;
}

proof fn lemma_ceiling(v: int, u: int)
    requires
        u > 0,
        v >= 0,
    ensures
        (v + u - 1) / u == if v % u == 0 {
            v / u
        } else {
            v / u + 1
        },
{
    let q = v / u;
    let r = v % u;
    vstd::arithmetic::div_mod::lemma_fundamental_div_mod(v, u);
    if r == 0 {
        assert(v + u - 1 == q * u + (u - 1)) by (nonlinear_arith)
            requires
                v == u * q + r,
                r == 0,
        ;
        vstd::arithmetic::div_mod::lemma_fundamental_div_mod_converse(v + u - 1, u, q, u - 1);
    } else {
        assert(v + u - 1 == (q + 1) * u + (r - 1)) by (nonlinear_arith)
            requires
                v == u * q + r,
        ;
        vstd::arithmetic::div_mod::lemma_fundamental_div_mod_converse(v + u - 1, u, q + 1, r - 1);
    }
}

impl core::ops::Add for Double {
    type Output = Double;

    fn add(self, other: Double) -> (r: Double) {
        reveal(fadd);
        let a: u64 = self.unsigned_bits();
        let b: u64 = other.unsigned_bits();
        let x_negative: bool = self.bits >= SIGN_BIT;
        let y_negative: bool = other.bits >= SIGN_BIT;
        if a > INF_BITS || b > INF_BITS || (a == INF_BITS && b == INF_BITS && x_negative
            != y_negative) {
            return Double { bits: NAN_BITS };
        }
        if a == INF_BITS {
            return self;
        }
        if b == INF_BITS {
            return other;
        }
        proof {
            if a < b {
                lemma_magnitude_increases(a as int, b as int);
            } else if b < a {
                lemma_magnitude_increases(b as int, a as int);
            }
            if a > 0 {
                lemma_magnitude_increases(0, a as int);
            }
            if b > 0 {
                lemma_magnitude_increases(0, b as int);
            }
        }
        if x_negative == y_negative {
            if a == 0 && b == 0 {
                Double::packed(x_negative, 0)
            } else if a >= b {
                Double::packed(x_negative, add_unsigned(a, b))
            } else {
                Double::packed(x_negative, add_unsigned(b, a))
            }
        } else if a == b {
            Double { bits: 0 }
        } else if a > b {
            Double::packed(x_negative, sub_unsigned(a, b))
        } else {
            Double::packed(y_negative, sub_unsigned(b, a))
        }
    }
}

impl vstd::std_specs::ops::AddSpecImpl for Double {
    open spec fn obeys_add_spec() -> bool {
        true
    }

    open spec fn add_req(self, other: Double) -> bool {
        true
    }

    open spec fn add_spec(self, other: Double) -> Double {
        fadd(self, other)
    }
}

impl core::ops::Sub for Double {
    type Output = Double;

    fn sub(self, other: Double) -> (r: Double) {
        self + other.negated()
    }
}

impl vstd::std_specs::ops::SubSpecImpl for Double {
    open spec fn obeys_sub_spec() -> bool {
        true
    }

    open spec fn sub_req(self, other: Double) -> bool {
        true
    }

    open spec fn sub_spec(self, other: Double) -> Double {
        fsub(self, other)
    }
}

impl core::ops::Mul for Double {
    type Output = Double;

    fn mul(self, other: Double) -> (r: Double) {
        reveal(fmul);
        let a: u64 = self.unsigned_bits();
        let b: u64 = other.unsigned_bits();
        let negative: bool = (self.bits >= SIGN_BIT) != (other.bits >= SIGN_BIT);
        if a > INF_BITS || b > INF_BITS || (a == INF_BITS && b == 0) || (a == 0 && b == INF_BITS) {
            Double { bits: NAN_BITS }
        } else if a == INF_BITS || b == INF_BITS {
            Double::packed(negative, INF_BITS)
        } else {
            Double::packed(negative, mul_unsigned(a, b))
        }
    }
}

impl vstd::std_specs::ops::MulSpecImpl for Double {
    open spec fn obeys_mul_spec() -> bool {
        true
    }

    open spec fn mul_req(self, other: Double) -> bool {
        true
    }

    open spec fn mul_spec(self, other: Double) -> Double {
        fmul(self, other)
    }
}

impl core::ops::Div for Double {
    type Output = Double;

    fn div(self, other: Double) -> (r: Double) {
        reveal(fdiv);
        let a: u64 = self.unsigned_bits();
        let b: u64 = other.unsigned_bits();
        let negative: bool = (self.bits >= SIGN_BIT) != (other.bits >= SIGN_BIT);
        if a > INF_BITS || b > INF_BITS || (a == INF_BITS && b == INF_BITS) || (a == 0 && b == 0) {
            Double { bits: NAN_BITS }
        } else if a == INF_BITS || b == 0 {
            Double::packed(negative, INF_BITS)
        } else if b == INF_BITS {
            Double::packed(negative, 0)
        } else {
            Double::packed(negative, div_unsigned(a, b))
        }
    }
}

impl vstd::std_specs::ops::DivSpecImpl for Double {
    open spec fn obeys_div_spec() -> bool {
        true
    }

    open spec fn div_req(self, other: Double) -> bool {
        true
    }

    open spec fn div_spec(self, other: Double) -> Double {
        fdiv(self, other)
    }
}

impl PartialEq for Double {
    fn eq(&self, other: &Double) -> (r: bool) {
        let a: u64 = self.unsigned_bits();
        let b: u64 = other.unsigned_bits();
        if a > INF_BITS || b > INF_BITS {
            false
        } else {
            self.bits == other.bits || (a == 0 && b == 0)
        }
    }
}

impl vstd::std_specs::cmp::PartialEqSpecImpl for Double {
    open spec fn obeys_eq_spec() -> bool {
        true
    }

    open spec fn eq_spec(&self, other: &Double) -> bool {
        feq(*self, *other)
    }
}

/// The counts nought and one are represented exactly.
pub proof fn lemma_small_counts()
    ensures
        fcount(0) == fzero(),
        fcount(1) == fone(),
        fone().value() == unit(),
{
    reveal(fcount);
    lemma_rounds_to_zero(1);
    assert(0 * unit() == 0);
    vstd::arithmetic::power2::lemma2_to64_rest();
    let a = 0x3ff0_0000_0000_0000int;
    assert(a / (FRACTION as int) == 1023 && a % (FRACTION as int) == 0);
    lemma_pow2_adds(52, 1022);
    assert((1023 - 1) as nat == 1022);
    assert(magnitude(a) == unit());
    lemma_exact_magnitude(a);
    assert(1 * unit() == unit());
}

/// A finite magnitude rounds to itself.
pub proof fn lemma_exact_magnitude(a: int)
    requires
        0 <= a < INF_BITS,
    ensures
        round(magnitude(a), 1) == a,
{
    lemma_magnitude_increases(a, a + 1);
    if a > 0 {
        lemma_magnitude_increases(a - 1, a);
    }
    lemma_round_is(magnitude(a), 1, a);
}

/// Every ratio has a nearest magnitude.
pub proof fn lemma_round_range(num: int, den: int)
    requires
        num >= 0,
        den > 0,
    ensures
        nearest(num, den, round(num, den)),
        0 <= round(num, den) <= INF_BITS,
{
    crate::rounding::lemma_nearest_exists(num, den);
}

/// Sums do not depend on the order of the summands.
pub proof fn lemma_add_commutes(x: Double, y: Double)
    ensures
        fadd(x, y) == fadd(y, x),
{
    reveal(fadd);
}

/// The sum of two zeros is zero.
pub proof fn lemma_add_zeros(x: Double, y: Double)
    requires
        x.vanishes(),
        y.vanishes(),
    ensures
        fadd(x, y).vanishes(),
{
    reveal(fadd);
    assert(magnitude(0) == 0);
}

/// Adding zero to a finite number other than zero changes nothing.
pub proof fn lemma_add_zero(x: Double)
    requires
        !x.nan(),
        !x.vanishes(),
    ensures
        fadd(fzero(), x) == x,
        fadd(x, fzero()) == x,
{
    reveal(fadd);
    assert(magnitude(0) == 0);
    if x.finite() {
        lemma_magnitude_increases(0, x.unsigned());
        lemma_exact_magnitude(x.unsigned());
    }
}

/// A count of up to a hundred and twenty-eight bits is finite and not negative, and at least
/// one unless it is nought.
pub proof fn lemma_count_finite(n: int)
    requires
        0 <= n <= u128::MAX,
    ensures
        fcount(n).finite(),
        !fcount(n).negative(),
        n > 0 ==> fcount(n).unsigned() >= 0x3ff0_0000_0000_0000,
{
    lemma_small_counts();
    reveal(fcount);
    let num = n * unit();
    lemma_pow2_pos(UNIT_EXPONENT as nat);
    assert(num >= 0) by (nonlinear_arith)
        requires
            num == n * unit(),
            n >= 0,
            unit() > 0,
    ;
    lemma_round_range(num, 1);
    // The count lies below the power of two at 2^128.
    let a = 1151 * FRACTION;
    vstd::arithmetic::power2::lemma2_to64_rest();
    assert(a / (FRACTION as int) == 1151 && a % (FRACTION as int) == 0);
    assert((1151 - 1) as nat == 1150);
    lemma_pow2_adds(52, 1150);
    lemma_pow2_adds(64, 64);
    lemma_pow2_adds(128, UNIT_EXPONENT as nat);
    assert(magnitude(a) == pow2(128) * unit());
    assert(num <= pow2(128) * unit()) by (nonlinear_arith)
        requires
            num == n * unit(),
            n <= pow2(128),
            unit() > 0,
    ;
    lemma_exact_magnitude(a);
    lemma_round_monotone(num, 1, magnitude(a), 1);
    if n > 0 {
        assert(unit() <= num) by (nonlinear_arith)
            requires
                num == n * unit(),
                n >= 1,
                unit() > 0,
        ;
        lemma_exact_magnitude(0x3ff0_0000_0000_0000int);
        lemma_round_monotone(unit(), 1, num, 1);
    }
}

/// Products do not depend on the order of the factors.
pub proof fn lemma_mul_commutes(x: Double, y: Double)
    ensures
        fmul(x, y) == fmul(y, x),
{
    reveal(fmul);
    let a = magnitude(x.unsigned());
    let b = magnitude(y.unsigned());
    assert(a * b == b * a) by (nonlinear_arith);
}

/// The size of a difference does not depend on the order of its terms.
pub proof fn lemma_difference_symmetric(x: Double, y: Double)
    ensures
        fabs(fsub(x, y)) == fabs(fsub(y, x)),
{
    reveal(fadd);
    if x.finite() && y.finite() {
        assert(fneg(y).value() == -y.value());
        assert(fneg(x).value() == -x.value());
        let v = x.value() - y.value();
        if v != 0 {
            lemma_round_range(if v < 0 { -v } else { v }, 1);
        }
    }
}

/// The square of a difference does not depend on the order of its terms.
pub proof fn lemma_square_symmetric(x: Double, y: Double)
    ensures
        fmul(fsub(x, y), fsub(x, y)) == fmul(fsub(y, x), fsub(y, x)),
{
    reveal(fadd);
    reveal(fmul);
    let d = fsub(x, y);
    let e = fsub(y, x);
    if x.finite() && y.finite() {
        assert(fneg(y).value() == -y.value());
        assert(fneg(x).value() == -x.value());
        let v = x.value() - y.value();
        if v != 0 {
            lemma_round_range(if v < 0 { -v } else { v }, 1);
        }
        assert(d.unsigned() == e.unsigned());
    }
}

/// The quotient of a number without a sign by a positive finite number has no sign.
pub proof fn lemma_quotient_sign(x: Double, y: Double)
    requires
        !x.negative(),
        !y.negative(),
    ensures
        !fdiv(x, y).negative(),
{
    reveal(fdiv);
    if x.finite() && y.finite() && !y.vanishes() {
        lemma_magnitude_increases(0, y.unsigned());
        if !x.vanishes() {
            lemma_magnitude_increases(0, x.unsigned());
        }
        lemma_pow2_pos(UNIT_EXPONENT as nat);
        let num = magnitude(x.unsigned()) * unit();
        assert(num >= 0) by (nonlinear_arith)
            requires
                num == magnitude(x.unsigned()) * unit(),
                magnitude(x.unsigned()) >= 0,
                unit() > 0,
        ;
        lemma_round_range(num, magnitude(y.unsigned()));
    }
}

} // verus!
