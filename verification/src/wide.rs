use vstd::prelude::*;
use crate::scalar::is_isqrt;

verus! {

/// Two to the power 64.
pub const LIMB: u128 = 18_446_744_073_709_551_616;

/// A natural number below two to the power 256, in two halves of 128 bits.
#[derive(Clone, Copy, Debug, PartialEq, Eq)]
pub struct Wide {
    pub hi: u128,
    pub lo: u128,
}

impl View for Wide {
    type V = int;

    open spec fn view(&self) -> int {
        self.hi * LIMB * LIMB + self.lo
    }
}

/// The exact product of two 128-bit numbers.
pub fn mul_wide(a: u128, b: u128) -> (r: Wide)
    ensures
        r@ == a * b,
{
    let a1: u128 = a / LIMB;
    let a0: u128 = a % LIMB;
    let b1: u128 = b / LIMB;
    let b0: u128 = b % LIMB;
    proof {
        lemma_limb_product(a0 as int, b0 as int);
        lemma_limb_product(a0 as int, b1 as int);
        lemma_limb_product(a1 as int, b0 as int);
        lemma_limb_product(a1 as int, b1 as int);
    }
    let p00: u128 = a0 * b0;
    let p01: u128 = a0 * b1;
    let p10: u128 = a1 * b0;
    let p11: u128 = a1 * b1;
    let t: u128 = p00 / LIMB + p01 % LIMB + p10 % LIMB;
    let lo: u128 = (p00 % LIMB) + (t % LIMB) * LIMB;
    let hi: u128 = p11 + p01 / LIMB + p10 / LIMB + t / LIMB;
    proof {
        let w = LIMB as int;
        assert(a * b == (p11 * w) * w + (p01 + p10) * w + p00) by (nonlinear_arith)
            requires
                a == a1 * w + a0,
                b == b1 * w + b0,
                p00 == a0 * b0,
                p01 == a0 * b1,
                p10 == a1 * b0,
                p11 == a1 * b1,
        ;
        let c01 = (p01 / LIMB) as int;
        let c10 = (p10 / LIMB) as int;
        let ct = (t / LIMB) as int;
        assert(p01 == c01 * w + p01 % LIMB);
        assert(p10 == c10 * w + p10 % LIMB);
        assert(p00 == (p00 / LIMB) * w + p00 % LIMB);
        assert(t == ct * w + t % LIMB);
        assert((p01 + p10) * w + p00 == ((c01 + c10) * w) * w + t * w + p00 % LIMB)
            by (nonlinear_arith)
            requires
                p01 == c01 * w + p01 % LIMB,
                p10 == c10 * w + p10 % LIMB,
                p00 == (p00 / LIMB) * w + p00 % LIMB,
                t == p00 / LIMB + p01 % LIMB + p10 % LIMB,
        ;
        assert(t * w == (ct * w) * w + (t % LIMB) * w) by (nonlinear_arith)
            requires
                t == ct * w + t % LIMB,
        ;
        assert((hi * w) * w == (p11 * w) * w + ((c01 + c10) * w) * w + (ct * w) * w)
            by (nonlinear_arith)
            requires
                hi == p11 + c01 + c10 + ct,
        ;
    }
    Wide { hi, lo }
}

/// The product of two numbers below two to the power 64 is at most the
/// square of the largest of them.
proof fn lemma_limb_product(x: int, y: int)
    requires
        0 <= x < LIMB,
        0 <= y < LIMB,
    ensures
        0 <= x * y <= 340_282_366_920_938_463_426_481_119_284_349_108_225,
{
    assert(0 <= x * y <= 18_446_744_073_709_551_615 * 18_446_744_073_709_551_615)
        by (nonlinear_arith)
        requires
            0 <= x <= 18_446_744_073_709_551_615,
            0 <= y <= 18_446_744_073_709_551_615,
    ;
}

impl Wide {
    /// The number `n`.
    pub fn from_u128(n: u128) -> (r: Wide)
        ensures
            r@ == n,
    {
        Wide { hi: 0, lo: n }
    }

    pub fn le(self, other: Wide) -> (r: bool)
        ensures
            r == (self@ <= other@),
    {
        self.hi < other.hi || (self.hi == other.hi && self.lo <= other.lo)
    }

    /// The sum, where the upper halves leave room for a carry.
    pub fn add(self, other: Wide) -> (r: Wide)
        requires
            self.hi + other.hi < u128::MAX,
        ensures
            r@ == self@ + other@,
    {
        if self.lo > u128::MAX - other.lo {
            Wide { hi: self.hi + other.hi + 1, lo: self.lo - (u128::MAX - other.lo) - 1 }
        } else {
            Wide { hi: self.hi + other.hi, lo: self.lo + other.lo }
        }
    }

    /// The difference, where the other number is not the larger.
    pub fn sub(self, other: Wide) -> (r: Wide)
        requires
            other@ <= self@,
        ensures
            r@ == self@ - other@,
    {
        if self.lo >= other.lo {
            Wide { hi: self.hi - other.hi, lo: self.lo - other.lo }
        } else {
            Wide { hi: self.hi - other.hi - 1, lo: self.lo + (u128::MAX - other.lo) + 1 }
        }
    }

    /// The integer square root.
    pub fn isqrt(self) -> (r: u128)
        ensures
            is_isqrt(self@, r as int),
    {
        let mut lo: u128 = 0;
        let mut hi: u128 = u128::MAX;
        assert(lo * lo <= self@) by (nonlinear_arith)
            requires
                lo == 0,
                self@ >= 0,
        ;
        assert(self@ < (hi + 1) * (hi + 1)) by (nonlinear_arith)
            requires
                self@ == self.hi * LIMB * LIMB + self.lo,
                self.hi <= hi,
                self.lo <= hi,
                hi + 1 == LIMB * LIMB,
        ;
        while lo < hi
            invariant
                lo <= hi,
                lo * lo <= self@,
                self@ < (hi + 1) * (hi + 1),
            decreases hi - lo,
        {
            let mid: u128 = hi - (hi - lo) / 2;
            let square: Wide = mul_wide(mid, mid);
            if square.le(self) {
                lo = mid;
            } else {
                hi = mid - 1;
            }
        }
        lo
    }

    /// The quotient by `d`, rounded down and limited to `cap`.
    pub fn div_capped(self, d: u128, cap: u128) -> (r: u128)
        requires
            d > 0,
        ensures
            r == if self@ / (d as int) > cap {
                cap as int
            } else {
                self@ / (d as int)
            },
    {
        let top: Wide = mul_wide(cap, d);
        if top.le(self) {
            proof {
                vstd::arithmetic::div_mod::lemma_div_is_ordered(cap * d, self@, d as int);
                vstd::arithmetic::div_mod::lemma_div_by_multiple(cap as int, d as int);
            }
            return cap;
        }
        let mut lo: u128 = 0;
        let mut hi: u128 = cap;
        assert(lo * d <= self@) by (nonlinear_arith)
            requires
                lo == 0,
                self@ >= 0,
        ;
        while hi - lo > 1
            invariant
                lo < hi <= cap,
                lo * d <= self@ < hi * d,
            decreases hi - lo,
        {
            let mid: u128 = lo + (hi - lo) / 2;
            let product: Wide = mul_wide(mid, d);
            if product.le(self) {
                lo = mid;
            } else {
                hi = mid;
            }
        }
        proof {
            let rest = self@ - lo * d;
            assert(rest < d) by (nonlinear_arith)
                requires
                    rest == self@ - lo * d,
                    self@ < (lo + 1) * d,
            ;
            vstd::arithmetic::div_mod::lemma_fundamental_div_mod_converse(
                self@,
                d as int,
                lo as int,
                rest,
            );
        }
        lo
    }
}

} // verus!
