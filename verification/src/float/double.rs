//! Double precision.
use super::format::{
    binary64, fraction, product, quotient, saturated, Parts,
};
use super::lemmas::{lemma_magnitude_monotone, lemma_rounded_bound};
use super::rounding::{
    fraction_of, nearest_i32, product_of, quotient_of, Pattern, Width,
};
use vstd::arithmetic::power2::{lemma2_to64, lemma2_to64_rest, pow2};
use vstd::prelude::*;

verus! {

/// Double precision.
///
/// Arithmetic never fails: overflow gives an infinity and an undefined result
/// gives a NaN, always the quiet one without a payload.
#[derive(Clone, Copy, Debug)]
pub struct Float64 {
    pub bits: u64,
}

impl Float64 {
    pub open spec fn parts(self) -> Parts {
        Parts {
            negative: self.bits >= 0x8000_0000_0000_0000,
            rest: (self.bits % 0x8000_0000_0000_0000) as nat,
        }
    }

    pub open spec fn from_parts(p: Parts) -> Float64 {
        Float64 { bits: (if p.negative { p.rest + 0x8000_0000_0000_0000 } else { p.rest }) as u64 }
    }

    /// The exact value of a finite number, in units of the smallest subnormal.
    pub open spec fn units(self) -> int {
        self.parts().value(binary64())
    }

    /// Position on the number line; both zeros share one.
    pub open spec fn order(self) -> int {
        if self.bits >= 0x8000_0000_0000_0000 {
            0x8000_0000_0000_0000 - self.bits
        } else {
            self.bits as int
        }
    }

    pub open spec fn nan(self) -> bool {
        self.bits % 0x8000_0000_0000_0000 > 0x7ff0_0000_0000_0000
    }

    pub open spec fn finite(self) -> bool {
        self.bits % 0x8000_0000_0000_0000 < 0x7ff0_0000_0000_0000
    }

    /// `self < other`; never with a NaN.
    pub open spec fn below(self, other: Float64) -> bool {
        !self.nan() && !other.nan() && self.order() < other.order()
    }

    /// `self <= other`; never with a NaN.
    pub open spec fn at_most(self, other: Float64) -> bool {
        !self.nan() && !other.nan() && self.order() <= other.order()
    }

    /// `self == other` as numbers; never with a NaN.
    pub open spec fn equals(self, other: Float64) -> bool {
        !self.nan() && !other.nan() && self.order() == other.order()
    }

    #[verifier::opaque]
    pub open spec fn product(self, other: Float64) -> Float64 {
        Self::from_parts(product(binary64(), self.parts(), other.parts()))
    }

    #[verifier::opaque]
    pub open spec fn quotient(self, other: Float64) -> Float64 {
        Self::from_parts(quotient(binary64(), self.parts(), other.parts()))
    }

    /// The value nearest to the fraction `n / d`.
    #[verifier::opaque]
    pub open spec fn nearest(n: int, d: nat) -> Float64 {
        Self::from_parts(fraction(binary64(), n, d))
    }

    /// The smaller of two numbers; the other one where one is a NaN.
    pub open spec fn smaller(self, other: Float64) -> Float64 {
        if self.nan() {
            other
        } else if other.nan() || self.below(other) {
            self
        } else {
            other
        }
    }

    /// The nearest integer, a tie away from zero, kept within the range of
    /// `i32`; zero for NaN.
    #[verifier::opaque]
    pub open spec fn rounded_i32(self) -> int {
        saturated(binary64(), self.parts(), i32::MIN as int, i32::MAX as int)
    }

    fn split(self) -> (r: Pattern)
        ensures
            r.parts() == self.parts(),
            r.rest < 0x8000_0000_0000_0000,
    {
        Pattern {
            negative: self.bits >= 0x8000_0000_0000_0000,
            rest: self.bits % 0x8000_0000_0000_0000,
        }
    }

    fn join(p: Pattern) -> (r: Float64)
        requires
            p.rest < 0x8000_0000_0000_0000,
        ensures
            r == Self::from_parts(p.parts()),
            r.parts() == p.parts(),
    {
        if p.negative {
            Float64 { bits: p.rest as u64 + 0x8000_0000_0000_0000 }
        } else {
            Float64 { bits: p.rest as u64 }
        }
    }

    pub fn is_nan(self) -> (r: bool)
        ensures
            r == self.nan(),
    {
        self.bits % 0x8000_0000_0000_0000 > 0x7ff0_0000_0000_0000
    }

    pub fn is_finite(self) -> (r: bool)
        ensures
            r == self.finite(),
    {
        self.bits % 0x8000_0000_0000_0000 < 0x7ff0_0000_0000_0000
    }

    /// `self < other`.
    pub fn lt(self, other: Float64) -> (r: bool)
        ensures
            r == self.below(other),
    {
        if self.is_nan() || other.is_nan() {
            false
        } else if self.bits >= 0x8000_0000_0000_0000 {
            if other.bits >= 0x8000_0000_0000_0000 {
                self.bits > other.bits
            } else {
                self.bits != 0x8000_0000_0000_0000 || other.bits != 0
            }
        } else {
            other.bits < 0x8000_0000_0000_0000 && self.bits < other.bits
        }
    }

    /// `self <= other`.
    pub fn le(self, other: Float64) -> (r: bool)
        ensures
            r == self.at_most(other),
    {
        !self.is_nan() && !other.is_nan() && !other.lt(self)
    }

    /// `self * other`.
    pub fn times(self, other: Float64) -> (r: Float64)
        ensures
            r == self.product(other),
    {
        let p = product_of(Width::Double, self.split(), other.split());
        proof {
            reveal(Float64::product);
            Self::lemma_limits();
            lemma_rounded_bound();
        }
        Self::join(p)
    }

    /// `self / other`.
    pub fn over(self, other: Float64) -> (r: Float64)
        ensures
            r == self.quotient(other),
    {
        let p = quotient_of(Width::Double, self.split(), other.split());
        proof {
            reveal(Float64::quotient);
            Self::lemma_limits();
            lemma_rounded_bound();
        }
        Self::join(p)
    }

    /// The value nearest to `n / d`.
    pub fn ratio(n: i64, d: u64) -> (r: Float64)
        requires
            d > 0,
        ensures
            r == Self::nearest(n as int, d as nat),
    {
        let magnitude: u64 = if n < 0 {
            (-(n as i128)) as u64
        } else {
            n as u64
        };
        let p = fraction_of(Width::Double, n < 0, magnitude, d);
        proof {
            reveal(Float64::nearest);
            Self::lemma_limits();
            lemma_rounded_bound();
        }
        Self::join(p)
    }

    /// The value nearest to the integer `n`.
    pub fn of(n: i64) -> (r: Float64)
        ensures
            r == Self::nearest(n as int, 1),
    {
        Self::ratio(n, 1)
    }

    /// The smaller of two numbers.
    pub fn min(self, other: Float64) -> (r: Float64)
        ensures
            r == self.smaller(other),
    {
        if self.is_nan() {
            other
        } else if other.is_nan() || self.lt(other) {
            self
        } else {
            other
        }
    }

    /// The nearest integer, kept within the range of `i32`.
    pub fn round_i32(self) -> (r: i32)
        ensures
            r == self.rounded_i32(),
    {
        proof {
            reveal(Float64::rounded_i32);
        }
        nearest_i32(self.split())
    }

    pub proof fn lemma_limits()
        ensures
            binary64().infinity() == 0x7ff0_0000_0000_0000,
            binary64().hidden() >= 2,
            binary64().hidden() <= 0x7ff0_0000_0000_0000,
            binary64().infinity() + binary64().hidden() == 0x8000_0000_0000_0000,
    {
        lemma2_to64();
        lemma2_to64_rest();
    }

    /// Integers of up to 53 binary digits are represented exactly.
    pub proof fn law_integers_are_exact(n: int)
        requires
            -0x20_0000_0000_0000 < n < 0x20_0000_0000_0000,
        ensures
            Self::nearest(n, 1).finite(),
            Self::nearest(n, 1).units() == n * pow2(1074),
    {
        reveal(Float64::nearest);
        Self::lemma_limits();
        lemma2_to64();
        lemma2_to64_rest();
        let m = super::format::absolute(n);
        let v = (m * pow2(1074)) as nat;
        if m == 0 {
            assert(v == 0) by (nonlinear_arith)
                requires
                    v == m * pow2(1074),
                    m == 0,
            ;
            super::lemmas::lemma_rounded_zero(binary64(), 1);
            vstd::arithmetic::div_mod::lemma_small_mod(0, binary64().hidden());
            vstd::arithmetic::div_mod::lemma_basic_div(0, binary64().hidden() as int);
            assert(n * pow2(1074) == 0) by (nonlinear_arith)
                requires
                    n == 0,
            ;
        } else {
            super::lemmas::lemma_bit_length_bounds(m);
            if super::format::bit_length(m) > 53 {
                super::lemmas::lemma_pow2_monotone(
                    53,
                    (super::format::bit_length(m) - 1) as nat,
                );
            }
            super::lemmas::lemma_exact(binary64(), v, 1, m, 1074);
            assert(n * pow2(1074) == if n < 0 { -(v as int) } else { v as int })
                by (nonlinear_arith)
                requires
                    v == m * pow2(1074),
                    m == if n < 0 { -n } else { n },
            ;
        }
    }

    /// Exact integers compare as integers.
    pub proof fn lemma_integers_compare(a: int, b: int)
        requires
            -0x20_0000_0000_0000 < a < 0x20_0000_0000_0000,
            -0x20_0000_0000_0000 < b < 0x20_0000_0000_0000,
        ensures
            Self::nearest(a, 1).below(Self::nearest(b, 1)) <==> a < b,
            Self::nearest(a, 1).at_most(Self::nearest(b, 1)) <==> a <= b,
            Self::nearest(a, 1).finite(),
    {
        Self::law_integers_are_exact(a);
        Self::law_integers_are_exact(b);
        Self::law_order_is_value(Self::nearest(a, 1), Self::nearest(b, 1));
        vstd::arithmetic::power2::lemma_pow2_pos(1074);
        assert(a * pow2(1074) < b * pow2(1074) <==> a < b) by (nonlinear_arith)
            requires
                pow2(1074) > 0,
        ;
        assert(a * pow2(1074) <= b * pow2(1074) <==> a <= b) by (nonlinear_arith)
            requires
                pow2(1074) > 0,
        ;
    }

    /// The smaller of two numbers is one of them, and neither is below it. What
    /// is no number gives way to the other.
    pub proof fn law_smaller_is_the_least(a: Float64, b: Float64)
        ensures
            a.smaller(b) == a || a.smaller(b) == b,
            !a.nan() && !b.nan() ==> a.smaller(b).at_most(a) && a.smaller(b).at_most(b),
            a.nan() ==> a.smaller(b) == b,
            b.nan() && !a.nan() ==> a.smaller(b) == a,
    {
    }

    /// Rounding to an integer is off by half at most, and goes away from zero
    /// at a tie. What is past the range becomes the end of the range.
    pub proof fn law_rounded_is_the_nearest_integer(x: Float64)
        requires
            x.finite(),
        ensures
            ({
                let n = x.rounded_i32();
                let one = pow2(1074) as int;
                let off = n * one - x.units();
                &&& i32::MIN * one <= x.units() <= i32::MAX * one ==> {
                    &&& -one <= 2 * off <= one
                    &&& 2 * off == one ==> x.units() > 0
                    &&& 2 * off == -one ==> x.units() < 0
                }
                &&& x.units() > i32::MAX * one ==> n == i32::MAX
                &&& x.units() < i32::MIN * one ==> n == i32::MIN
            }),
    {
        let one = pow2(1074) as int;
        let m = binary64().magnitude(x.parts().rest) as int;
        let w = (2 * m + one) / (2 * one);
        reveal(Float64::rounded_i32);
        Self::lemma_limits();
        vstd::arithmetic::power2::lemma_pow2_pos(1074);
        vstd::arithmetic::div_mod::lemma_fundamental_div_mod(2 * m + one, 2 * one);
        vstd::arithmetic::div_mod::lemma_mod_bound(2 * m + one, 2 * one);
        let r = (2 * m + one) % (2 * one);
        assert((2 * one) * w == 2 * (w * one)) by (nonlinear_arith);
        assert(-one < 2 * (m - w * one) + 1 && 2 * (m - w * one) < one);
        assert((-w) * one == -(w * one)) by (nonlinear_arith);
        assert(w > 0x7fff_ffff ==> w * one >= 0x8000_0000 * one) by (nonlinear_arith)
            requires
                one > 0,
        ;
        assert(w < 0x7fff_ffff ==> w * one <= 0x7fff_fffe * one) by (nonlinear_arith)
            requires
                one > 0,
        ;
        assert(w > 0x8000_0000 ==> w * one >= 0x8000_0001 * one) by (nonlinear_arith)
            requires
                one > 0,
        ;
        assert(w < 0x8000_0000 ==> w * one <= 0x7fff_ffff * one) by (nonlinear_arith)
            requires
                one > 0,
        ;
        assert(m == 0 ==> w == 0) by (nonlinear_arith)
            requires
                -one < 2 * (m - w * one) + 1,
                2 * (m - w * one) < one,
                one > 0,
        ;
        assert(0x7fff_ffff * one == i32::MAX * one && -(0x8000_0000 * one) == i32::MIN * one);
    }

    /// Comparing patterns compares the values they stand for.
    pub proof fn law_order_is_value(a: Float64, b: Float64)
        requires
            a.finite(),
            b.finite(),
        ensures
            a.below(b) <==> a.units() < b.units(),
            a.at_most(b) <==> a.units() <= b.units(),
            a.equals(b) <==> a.units() == b.units(),
    {
        let x = a.parts().rest;
        let y = b.parts().rest;
        Self::lemma_limits();
        if x < y {
            lemma_magnitude_monotone(binary64(), x, y);
        }
        if y < x {
            lemma_magnitude_monotone(binary64(), y, x);
        }
        if x > 0 {
            lemma_magnitude_monotone(binary64(), 0, x);
        }
        if y > 0 {
            lemma_magnitude_monotone(binary64(), 0, y);
        }
        vstd::arithmetic::div_mod::lemma_small_mod(0, binary64().hidden());
        vstd::arithmetic::div_mod::lemma_basic_div(0, binary64().hidden() as int);
    }
}

impl PartialEq for Float64 {
    fn eq(&self, other: &Self) -> (r: bool) {
        self.le(*other) && other.le(*self)
    }
}

impl vstd::std_specs::cmp::PartialEqSpecImpl for Float64 {
    open spec fn obeys_eq_spec() -> bool {
        true
    }

    open spec fn eq_spec(&self, other: &Self) -> bool {
        self.equals(*other)
    }
}

} // verus!
