use vstd::prelude::*;
use crate::text::{decimal, decimal_string, fraction_string, fraction_text};

verus! {

/// Number of raw units in the value one.
pub const SCALE: i64 = 1_000_000_000;

/// Largest raw value; the smallest is its negation. Two bits of the 64 are
/// left free, so that sums of three products of differences of raw values
/// fit in 128 bits.
pub const RAW_MAX: i64 = 4_611_686_018_427_387_903;

/// Clamps an integer to the symmetric range of raw values.
pub open spec fn sat(x: int) -> int {
    if x > RAW_MAX as int {
        RAW_MAX as int
    } else if x < -(RAW_MAX as int) {
        -(RAW_MAX as int)
    } else {
        x
    }
}

/// Absolute value of an integer.
pub open spec fn magnitude(a: int) -> int {
    if a < 0 {
        -a
    } else {
        a
    }
}

/// Quotient rounded toward zero; zero when the divisor is zero.
pub open spec fn tdiv(a: int, b: int) -> int {
    if b == 0 {
        0
    } else if (a < 0) == (b < 0) {
        magnitude(a) / magnitude(b)
    } else {
        -(magnitude(a) / magnitude(b))
    }
}

/// Saturating sum of two raw values.
pub open spec fn fx_add(a: int, b: int) -> int {
    sat(a + b)
}

/// Saturating difference of two raw values.
pub open spec fn fx_sub(a: int, b: int) -> int {
    sat(a - b)
}

/// Product of two fixed-point values: the exact product rounded toward zero,
/// then saturated.
pub open spec fn fx_mul(a: int, b: int) -> int {
    sat(tdiv(a * b, SCALE as int))
}

/// Quotient of two fixed-point values: the exact quotient rounded toward
/// zero, then saturated. Division by zero gives the bound of the range on the
/// side of the dividend's sign, and zero for zero over zero.
pub open spec fn fx_div(a: int, b: int) -> int {
    if b == 0 {
        if a > 0 {
            RAW_MAX as int
        } else if a < 0 {
            -(RAW_MAX as int)
        } else {
            0
        }
    } else {
        sat(tdiv(a * SCALE as int, b))
    }
}

/// `r` is the integer square root of `n`: the largest integer whose square
/// does not exceed `n`.
pub open spec fn is_isqrt(n: int, r: int) -> bool {
    r >= 0 && r * r <= n < (r + 1) * (r + 1)
}

/// The integer square root of a non-negative integer.
pub open spec fn isqrt(n: int) -> int {
    choose|r: int| is_isqrt(n, r)
}

/// Square root of a fixed-point value, rounded down. Zero for a value that
/// is not positive.
pub open spec fn fx_sqrt(a: int) -> int {
    if a <= 0 {
        0
    } else {
        isqrt(a * SCALE as int)
    }
}

/// Length of the vector with three given components: the square root of the
/// exact sum of their squares, rounded down, then saturated.
pub open spec fn fx_hypot(x: int, y: int, z: int) -> int {
    sat(isqrt(x * x + y * y + z * z))
}

/// Dot product of two vectors given by their components: the exact sum of
/// the three products, rounded toward zero once, then saturated.
pub open spec fn fx_dot3(a0: int, a1: int, a2: int, b0: int, b1: int, b2: int) -> int {
    sat(tdiv(a0 * b0 + a1 * b1 + a2 * b2, SCALE as int))
}

/// The decimal text of a fixed-point value.
pub open spec fn scalar_text(a: int) -> Seq<char> {
    let m = magnitude(a);
    let sign = if a < 0 {
        seq!['-']
    } else {
        Seq::<char>::empty()
    };
    let fraction = m % (SCALE as int);
    let tail = if fraction != 0 {
        seq!['.'] + fraction_text(fraction as nat, 9)
    } else {
        Seq::<char>::empty()
    };
    sign + decimal((m / (SCALE as int)) as nat) + tail
}

/// The smaller of two raw values.
pub open spec fn fx_min(a: int, b: int) -> int {
    if a <= b {
        a
    } else {
        b
    }
}

/// `a` limited to the interval from `lo` to `hi`.
pub open spec fn fx_clamp(a: int, lo: int, hi: int) -> int {
    if a < lo {
        lo
    } else if a > hi {
        hi
    } else {
        a
    }
}

/// `a` raised to the power `n` by repeated fixed-point multiplication.
pub open spec fn fx_powi(a: int, n: nat) -> int
    decreases n,
{
    if n == 0 {
        SCALE as int
    } else {
        fx_mul(fx_powi(a, (n - 1) as nat), a)
    }
}

/// Whole part of a fixed-point value; zero for a negative one.
pub open spec fn fx_trunc(a: int) -> int {
    if a < 0 {
        0
    } else {
        a / (SCALE as int)
    }
}

/// The integer square root is unique.
pub proof fn lemma_isqrt_unique(n: int, r: int)
    requires
        is_isqrt(n, r),
    ensures
        isqrt(n) == r,
{
    let s = isqrt(n);
    assert(is_isqrt(n, s));
    assert(s == r) by (nonlinear_arith)
        requires
            s >= 0,
            r >= 0,
            s * s <= n,
            n < (s + 1) * (s + 1),
            r * r <= n,
            n < (r + 1) * (r + 1),
    ;
}

/// Rounding toward zero commutes with negating the dividend.
pub proof fn lemma_tdiv_neg(a: int, b: int)
    ensures
        tdiv(-a, b) == -tdiv(a, b),
{
    if b != 0 && a == 0 {
        assert(0int / magnitude(b) == 0) by (nonlinear_arith)
            requires
                magnitude(b) > 0,
        ;
    }
}

/// Every non-negative integer has an integer square root.
pub proof fn lemma_isqrt_exists(n: int)
    requires
        n >= 0,
    ensures
        is_isqrt(n, isqrt(n)),
    decreases n,
{
    if n == 0 {
        assert(is_isqrt(0, 0));
    } else {
        lemma_isqrt_exists(n - 1);
        let r = isqrt(n - 1);
        if (r + 1) * (r + 1) <= n {
            assert(n < (r + 2) * (r + 2)) by (nonlinear_arith)
                requires
                    n - 1 < (r + 1) * (r + 1),
                    r >= 0,
            ;
            assert(is_isqrt(n, r + 1));
        } else {
            assert(is_isqrt(n, r));
        }
    }
}

/// Rounding toward zero loses less than the divisor.
pub proof fn lemma_tdiv_remainder(n: int, d: int)
    requires
        d > 0,
    ensures
        magnitude(n - d * tdiv(n, d)) < d,
        n >= 0 ==> 0 <= n - d * tdiv(n, d),
        n <= 0 ==> n - d * tdiv(n, d) <= 0,
{
    let m = magnitude(n);
    vstd::arithmetic::div_mod::lemma_fundamental_div_mod(m, d);
    vstd::arithmetic::div_mod::lemma_mod_bound(m, d);
    assert(d * (-(m / d)) == -(d * (m / d))) by (nonlinear_arith);
    if n == 0 {
        assert(0int / d == 0) by (nonlinear_arith)
            requires
                d > 0,
        ;
    }
}

/// Rounding toward zero keeps the order of dividends over a positive
/// divisor.
pub proof fn lemma_tdiv_monotone(a: int, b: int, d: int)
    requires
        a <= b,
        d > 0,
    ensures
        tdiv(a, d) <= tdiv(b, d),
{
    if a >= 0 {
        vstd::arithmetic::div_mod::lemma_div_is_ordered(a, b, d);
    } else if b >= 0 {
        vstd::arithmetic::div_mod::lemma_div_pos_is_pos(-a, d);
        vstd::arithmetic::div_mod::lemma_div_pos_is_pos(b, d);
    } else {
        vstd::arithmetic::div_mod::lemma_div_is_ordered(-b, -a, d);
    }
}

/// Multiplying by a whole number is exact up to saturation.
pub proof fn lemma_fx_mul_whole(k: int, a: int)
    ensures
        fx_mul(k * SCALE, a) == sat(k * a),
        fx_mul(a, k * SCALE) == sat(k * a),
{
    assert((k * SCALE) * a == (k * a) * SCALE) by (nonlinear_arith);
    assert(a * (k * SCALE) == (k * a) * SCALE) by (nonlinear_arith);
    let m = magnitude(k * a);
    assert(magnitude((k * a) * SCALE) == m * SCALE) by (nonlinear_arith)
        requires
            m == magnitude(k * a),
    ;
    vstd::arithmetic::div_mod::lemma_div_by_multiple(m, SCALE as int);
    assert((k * a) * SCALE < 0 <==> k * a < 0) by (nonlinear_arith);
}

proof fn lemma_mul_magnitude(a: int, b: int)
    ensures
        magnitude(a * b) == magnitude(a) * magnitude(b),
        a != 0 && b != 0 ==> ((a * b < 0) <==> ((a < 0) != (b < 0))),
        (a == 0 || b == 0) ==> a * b == 0,
{
    assert(magnitude(a * b) == magnitude(a) * magnitude(b)) by (nonlinear_arith);
    assert(a != 0 && b != 0 ==> ((a * b < 0) <==> ((a < 0) != (b < 0)))) by (nonlinear_arith);
    assert((a == 0 || b == 0) ==> a * b == 0) by (nonlinear_arith);
}

/// The length of a vector is at least the magnitude of its first component.
pub proof fn lemma_hypot_dominates(x: int, y: int, z: int)
    requires
        magnitude(x) <= RAW_MAX,
    ensures
        fx_hypot(x, y, z) >= magnitude(x),
{
    let n = x * x + y * y + z * z;
    let m = magnitude(x);
    lemma_square_of_magnitude(x);
    assert(y * y >= 0) by (nonlinear_arith);
    assert(z * z >= 0) by (nonlinear_arith);
    assert(m * m >= 0) by (nonlinear_arith);
    lemma_isqrt_exists(n);
    let r = isqrt(n);
    assert(r >= m) by (nonlinear_arith)
        requires
            r >= 0,
            m >= 0,
            m * m <= n,
            n < (r + 1) * (r + 1),
    ;
}

/// The length of a vector does not depend on the order or the signs of its
/// components.
pub proof fn lemma_hypot_symmetric(x: int, y: int, z: int)
    ensures
        fx_hypot(y, z, x) == fx_hypot(x, y, z),
        fx_hypot(y, x, z) == fx_hypot(x, y, z),
        fx_hypot(magnitude(x), magnitude(y), magnitude(z)) == fx_hypot(x, y, z),
{
    lemma_square_of_magnitude(x);
    lemma_square_of_magnitude(y);
    lemma_square_of_magnitude(z);
}

/// The product of a value with a fraction between zero and one lies between
/// zero and the value.
pub proof fn lemma_fx_mul_fraction(b: int, t: int)
    requires
        0 <= b <= SCALE,
        0 <= t <= RAW_MAX,
    ensures
        0 <= fx_mul(b, t) <= t,
{
    assert(0 <= b * t <= t * SCALE) by (nonlinear_arith)
        requires
            0 <= b <= SCALE,
            0 <= t,
    ;
    vstd::arithmetic::div_mod::lemma_div_pos_is_pos(b * t, SCALE as int);
    vstd::arithmetic::div_mod::lemma_div_is_ordered(b * t, t * SCALE, SCALE as int);
    vstd::arithmetic::div_mod::lemma_div_by_multiple(t, SCALE as int);
}

/// A quotient whose dividend is no larger in magnitude than its divisor lies
/// between minus one and one.
pub proof fn lemma_fx_div_fraction(a: int, d: int)
    requires
        magnitude(a) <= d,
    ensures
        -SCALE <= fx_div(a, d) <= SCALE,
{
    if d > 0 {
        let m = magnitude(a);
        assert(magnitude(a * SCALE) == m * SCALE) by (nonlinear_arith)
            requires
                m == magnitude(a),
        ;
        assert(0 <= m * SCALE <= d * SCALE) by (nonlinear_arith)
            requires
                0 <= m <= d,
        ;
        vstd::arithmetic::div_mod::lemma_div_pos_is_pos(m * SCALE, d);
        vstd::arithmetic::div_mod::lemma_div_is_ordered(m * SCALE, d * SCALE, d);
        assert(d * SCALE == SCALE * d) by (nonlinear_arith);
        vstd::arithmetic::div_mod::lemma_div_by_multiple(SCALE as int, d);
    }
}

/// The square of a magnitude within the range of raw values stays below a
/// third of the largest 128-bit number.
proof fn lemma_square_bounded(m: int)
    requires
        0 <= m <= RAW_MAX,
    ensures
        0 <= m * m <= 85_070_591_730_234_615_847_396_907_784_232_501_249,
{
    assert(0 <= m * m <= 9_223_372_036_854_775_807 * 9_223_372_036_854_775_807)
        by (nonlinear_arith)
        requires
            0 <= m <= 9_223_372_036_854_775_807,
    ;
}

/// A number and its magnitude have the same square.
pub proof fn lemma_square_of_magnitude(a: int)
    ensures
        magnitude(a) * magnitude(a) == a * a,
{
    assert((-a) * (-a) == a * a) by (nonlinear_arith);
}

/// The integer square root of a 128-bit number, by bisection.
fn isqrt_u128(n: u128) -> (r: u128)
    ensures
        r == isqrt(n as int),
        is_isqrt(n as int, r as int),
{
    let mut lo: u128 = 0;
    let mut hi: u128 = 18_446_744_073_709_551_616;
    assert(lo * lo <= n) by (nonlinear_arith)
        requires
            lo == 0,
    ;
    assert(n < hi * hi) by (nonlinear_arith)
        requires
            n <= 340_282_366_920_938_463_463_374_607_431_768_211_455,
            hi == 18_446_744_073_709_551_616,
    ;
    while hi - lo > 1
        invariant
            lo < hi <= 18_446_744_073_709_551_616,
            lo * lo <= n < hi * hi,
        decreases hi - lo,
    {
        let mid: u128 = lo + (hi - lo) / 2;
        assert(mid * mid <= 18_446_744_073_709_551_615 * 18_446_744_073_709_551_615)
            by (nonlinear_arith)
            requires
                mid <= 18_446_744_073_709_551_615,
        ;
        if mid * mid <= n {
            lo = mid;
        } else {
            hi = mid;
        }
    }
    proof {
        assert(hi == lo + 1);
        assert(is_isqrt(n as int, lo as int));
        lemma_isqrt_unique(n as int, lo as int);
    }
    lo
}

/// The exact product of two raw values.
pub fn product(a: i64, b: i64) -> (r: i128)
    requires
        -RAW_MAX <= a <= RAW_MAX,
        -RAW_MAX <= b <= RAW_MAX,
    ensures
        r == a * b,
        -21_267_647_932_558_653_957_237_540_927_630_737_409 <= r
            <= 21_267_647_932_558_653_957_237_540_927_630_737_409,
{
    assert(-21_267_647_932_558_653_957_237_540_927_630_737_409 <= a * b
        <= 21_267_647_932_558_653_957_237_540_927_630_737_409) by (nonlinear_arith)
        requires
            -4_611_686_018_427_387_903 <= a <= 4_611_686_018_427_387_903,
            -4_611_686_018_427_387_903 <= b <= 4_611_686_018_427_387_903,
    ;
    (a as i128) * (b as i128)
}

fn abs_u128(x: i64) -> (r: u128)
    requires
        -RAW_MAX <= x <= RAW_MAX,
    ensures
        r == magnitude(x as int),
        r <= RAW_MAX,
{
    if x < 0 {
        (-x) as u128
    } else {
        x as u128
    }
}

/// A decimal fixed-point number. Its view is the number of billionths that
/// it holds, between `-RAW_MAX` and `RAW_MAX`; arithmetic saturates at these
/// bounds.
#[derive(Clone, Copy, Debug, PartialEq, Eq)]
pub struct Scalar {
    raw: i64,
}

impl View for Scalar {
    type V = int;

    closed spec fn view(&self) -> int {
        self.raw as int
    }
}

impl Scalar {
    #[verifier::type_invariant]
    pub closed spec fn in_range(self) -> bool {
        -(RAW_MAX as int) <= self.raw as int <= RAW_MAX as int
    }

    /// The scalar of `raw` billionths, saturated.
    pub fn from_raw(raw: i64) -> (r: Scalar)
        ensures
            r@ == sat(raw as int),
    {
        if raw > RAW_MAX {
            Scalar { raw: RAW_MAX }
        } else if raw < -RAW_MAX {
            Scalar { raw: -RAW_MAX }
        } else {
            Scalar { raw }
        }
    }

    /// The whole number `n`, saturated.
    pub fn from_int(n: i64) -> (r: Scalar)
        ensures
            r@ == sat(n * SCALE),
    {
        assert(-9_223_372_036_854_775_808 * 1_000_000_000 <= n * 1_000_000_000
            <= 9_223_372_036_854_775_807 * 1_000_000_000) by (nonlinear_arith)
            requires
                -9_223_372_036_854_775_808 <= n <= 9_223_372_036_854_775_807,
        ;
        let wide: i128 = (n as i128) * (SCALE as i128);
        Self::saturate(wide)
    }

    /// The whole number `n`, saturated.
    pub fn from_u64(n: u64) -> (r: Scalar)
        ensures
            r@ == sat(n * SCALE),
    {
        assert(0 <= n * 1_000_000_000 <= 18_446_744_073_709_551_615 * 1_000_000_000)
            by (nonlinear_arith)
            requires
                0 <= n <= 18_446_744_073_709_551_615,
        ;
        let wide: i128 = (n as i128) * (SCALE as i128);
        Self::saturate(wide)
    }

    fn saturate(wide: i128) -> (r: Scalar)
        ensures
            r@ == sat(wide as int),
    {
        if wide > RAW_MAX as i128 {
            Scalar { raw: RAW_MAX }
        } else if wide < -(RAW_MAX as i128) {
            Scalar { raw: -RAW_MAX }
        } else {
            Scalar { raw: wide as i64 }
        }
    }

    /// The scalar of the given sign and magnitude in billionths, saturated.
    pub fn signed(neg: bool, mag: u128) -> (r: Scalar)
        ensures
            r@ == sat(if neg { -(mag as int) } else { mag as int }),
    {
        if mag > RAW_MAX as u128 {
            if neg {
                Scalar { raw: -RAW_MAX }
            } else {
                Scalar { raw: RAW_MAX }
            }
        } else if neg {
            Scalar { raw: -(mag as i64) }
        } else {
            Scalar { raw: mag as i64 }
        }
    }

    pub fn zero() -> (r: Scalar)
        ensures
            r@ == 0,
    {
        Scalar { raw: 0 }
    }

    pub fn one() -> (r: Scalar)
        ensures
            r@ == SCALE,
    {
        Scalar { raw: SCALE }
    }

    /// The largest scalar; it stands for an unbounded value.
    pub fn infinity() -> (r: Scalar)
        ensures
            r@ == RAW_MAX,
    {
        Scalar { raw: RAW_MAX }
    }

    /// The number of billionths held.
    pub fn raw(self) -> (r: i64)
        ensures
            r == self@,
            -RAW_MAX <= r <= RAW_MAX,
    {
        proof {
            use_type_invariant(&self);
        }
        self.raw
    }

    pub fn neg(self) -> (r: Scalar)
        ensures
            r@ == -self@,
    {
        proof {
            use_type_invariant(&self);
        }
        Scalar { raw: -self.raw }
    }

    pub fn abs(self) -> (r: Scalar)
        ensures
            r@ == magnitude(self@),
    {
        proof {
            use_type_invariant(&self);
        }
        if self.raw < 0 {
            Scalar { raw: -self.raw }
        } else {
            self
        }
    }

    pub fn add(self, other: Scalar) -> (r: Scalar)
        ensures
            r@ == fx_add(self@, other@),
    {
        Self::saturate(self.raw as i128 + other.raw as i128)
    }

    pub fn sub(self, other: Scalar) -> (r: Scalar)
        ensures
            r@ == fx_sub(self@, other@),
    {
        Self::saturate(self.raw as i128 - other.raw as i128)
    }

    pub fn mul(self, other: Scalar) -> (r: Scalar)
        ensures
            r@ == fx_mul(self@, other@),
    {
        let a: i64 = self.raw();
        let b: i64 = other.raw();
        let ua: u128 = abs_u128(a);
        let ub: u128 = abs_u128(b);
        assert(ua * ub <= 9_223_372_036_854_775_807 * 9_223_372_036_854_775_807)
            by (nonlinear_arith)
            requires
                ua <= 9_223_372_036_854_775_807,
                ub <= 9_223_372_036_854_775_807,
        ;
        let q: u128 = (ua * ub) / (SCALE as u128);
        let neg: bool = (a < 0) != (b < 0);
        proof {
            lemma_mul_magnitude(a as int, b as int);
            if a == 0 || b == 0 {
                assert(ua * ub == 0) by (nonlinear_arith)
                    requires
                        ua == 0 || ub == 0,
                ;
            }
        }
        Self::signed(neg, q)
    }

    pub fn div(self, other: Scalar) -> (r: Scalar)
        ensures
            r@ == fx_div(self@, other@),
    {
        let a: i64 = self.raw();
        let b: i64 = other.raw();
        if b == 0 {
            if a > 0 {
                Scalar { raw: RAW_MAX }
            } else if a < 0 {
                Scalar { raw: -RAW_MAX }
            } else {
                Scalar { raw: 0 }
            }
        } else {
            let ua: u128 = abs_u128(a);
            let ub: u128 = abs_u128(b);
            assert(ua * 1_000_000_000 <= 9_223_372_036_854_775_807 * 1_000_000_000)
                by (nonlinear_arith)
                requires
                    ua <= 9_223_372_036_854_775_807,
            ;
            let q: u128 = (ua * (SCALE as u128)) / ub;
            let neg: bool = (a < 0) != (b < 0);
            proof {
                lemma_mul_magnitude(a as int, SCALE as int);
                if a == 0 {
                    assert(0int / (ub as int) == 0) by (nonlinear_arith)
                        requires
                            ub > 0,
                    ;
                }
            }
            Self::signed(neg, q)
        }
    }

    /// Square root, rounded down; zero for a value that is not positive.
    pub fn sqrt(self) -> (r: Scalar)
        ensures
            r@ == fx_sqrt(self@),
    {
        let a: i64 = self.raw();
        if a <= 0 {
            return Scalar { raw: 0 };
        }
        assert(0 < a * 1_000_000_000 <= 9_223_372_036_854_775_807 * 1_000_000_000)
            by (nonlinear_arith)
            requires
                0 < a <= 9_223_372_036_854_775_807,
        ;
        let n: u128 = (a as u128) * (SCALE as u128);
        let root: u128 = isqrt_u128(n);
        assert(root < 140_737_488_355_328) by (nonlinear_arith)
            requires
                root * root <= n,
                n <= 9_223_372_036_854_775_807 * 1_000_000_000,
        ;
        Scalar { raw: root as i64 }
    }

    /// The dot product of the vectors with the given components.
    pub fn dot3(a0: Scalar, a1: Scalar, a2: Scalar, b0: Scalar, b1: Scalar, b2: Scalar) -> (r:
        Scalar)
        ensures
            r@ == fx_dot3(a0@, a1@, a2@, b0@, b1@, b2@),
    {
        let p0: i128 = product(a0.raw(), b0.raw());
        let p1: i128 = product(a1.raw(), b1.raw());
        let p2: i128 = product(a2.raw(), b2.raw());
        let sum: i128 = p0 + p1 + p2;
        let neg: bool = sum < 0;
        let mag: u128 = if neg {
            (-sum) as u128
        } else {
            sum as u128
        };
        Self::signed(neg, mag / (SCALE as u128))
    }

    /// The length of the vector with the three given components: the square
    /// root of the exact sum of their squares, rounded down and saturated.
    pub fn hypot(x: Scalar, y: Scalar, z: Scalar) -> (r: Scalar)
        ensures
            r@ == fx_hypot(x@, y@, z@),
    {
        let ux: u128 = abs_u128(x.raw());
        let uy: u128 = abs_u128(y.raw());
        let uz: u128 = abs_u128(z.raw());
        proof {
            lemma_square_bounded(ux as int);
            lemma_square_bounded(uy as int);
            lemma_square_bounded(uz as int);
            lemma_square_of_magnitude(x@);
            lemma_square_of_magnitude(y@);
            lemma_square_of_magnitude(z@);
        }
        let n: u128 = ux * ux + uy * uy + uz * uz;
        let root: u128 = isqrt_u128(n);
        Self::signed(false, root)
    }

    pub fn min(self, other: Scalar) -> (r: Scalar)
        ensures
            r@ == fx_min(self@, other@),
    {
        if self.raw <= other.raw {
            self
        } else {
            other
        }
    }

    /// Limits the value to the interval from `lo` to `hi`.
    pub fn clamp(self, lo: Scalar, hi: Scalar) -> (r: Scalar)
        ensures
            r@ == fx_clamp(self@, lo@, hi@),
    {
        if self.raw < lo.raw {
            lo
        } else if self.raw > hi.raw {
            hi
        } else {
            self
        }
    }

    /// The value raised to the power `n`.
    pub fn powi(self, n: u32) -> (r: Scalar)
        ensures
            r@ == fx_powi(self@, n as nat),
    {
        let mut acc: Scalar = Scalar::one();
        let mut i: u32 = 0;
        while i < n
            invariant
                i <= n,
                acc@ == fx_powi(self@, i as nat),
            decreases n - i,
        {
            acc = acc.mul(self);
            i = i + 1;
        }
        acc
    }

    pub fn lt(self, other: Scalar) -> (r: bool)
        ensures
            r == (self@ < other@),
    {
        self.raw < other.raw
    }

    pub fn le(self, other: Scalar) -> (r: bool)
        ensures
            r == (self@ <= other@),
    {
        self.raw <= other.raw
    }

    pub fn gt(self, other: Scalar) -> (r: bool)
        ensures
            r == (self@ > other@),
    {
        self.raw > other.raw
    }

    /// The value in decimal: a minus sign for a negative value, the whole
    /// part, and, where the value is not whole, a point and the fraction
    /// without trailing zeros.
    pub fn to_text(self) -> (s: String)
        ensures
            s@ == scalar_text(self@),
    {
        proof {
            reveal_strlit("-");
            reveal_strlit(".");
            reveal_strlit("");
        }
        let a: i64 = self.raw();
        let m: u64 = if a < 0 {
            (-a) as u64
        } else {
            a as u64
        };
        let mut s: String = if a < 0 {
            String::from_str("-")
        } else {
            String::from_str("")
        };
        s.append(decimal_string(m / (SCALE as u64)).as_str());
        let fraction: u64 = m % (SCALE as u64);
        if fraction != 0 {
            s.append(".");
            s.append(fraction_string(fraction, 9).as_str());
        }
        assert(s@ =~= scalar_text(self@));
        s
    }

    /// The whole part as an unsigned integer; zero for a negative value.
    pub fn trunc_u64(self) -> (r: u64)
        ensures
            r == fx_trunc(self@),
    {
        if self.raw < 0 {
            0
        } else {
            (self.raw / SCALE) as u64
        }
    }
}

} // verus!
