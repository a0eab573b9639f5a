//! Single precision.
use super::format::{
    binary32, fraction, opposite, product, quotient, root, sum, Parts,
};
use super::lemmas::{lemma_magnitude_monotone, lemma_rounded_bound};
use super::rounding::{
    fraction_of, product_of, quotient_of, root_of, sum_of, Pattern, Width,
};
use vstd::arithmetic::power2::{lemma2_to64, lemma2_to64_rest, pow2};
use vstd::prelude::*;

verus! {

/// Single precision.
///
/// Arithmetic never fails: overflow gives an infinity and an undefined result
/// gives a NaN, always the quiet one without a payload.
#[derive(Clone, Copy, Debug)]
pub struct Float32 {
    pub bits: u32,
}

impl Float32 {
    pub open spec fn parts(self) -> Parts {
        Parts {
            negative: self.bits >= 0x8000_0000,
            rest: (self.bits % 0x8000_0000) as nat,
        }
    }

    pub open spec fn from_parts(p: Parts) -> Float32 {
        Float32 { bits: (if p.negative { p.rest + 0x8000_0000 } else { p.rest }) as u32 }
    }

    /// The exact value of a finite number, in units of the smallest subnormal.
    pub open spec fn units(self) -> int {
        self.parts().value(binary32())
    }

    /// Position on the number line; both zeros share one.
    pub open spec fn order(self) -> int {
        if self.bits >= 0x8000_0000 {
            0x8000_0000 - self.bits
        } else {
            self.bits as int
        }
    }

    pub open spec fn nan(self) -> bool {
        self.bits % 0x8000_0000 > 0x7f80_0000
    }

    pub open spec fn finite(self) -> bool {
        self.bits % 0x8000_0000 < 0x7f80_0000
    }

    /// `self < other`; never with a NaN.
    pub open spec fn below(self, other: Float32) -> bool {
        !self.nan() && !other.nan() && self.order() < other.order()
    }

    /// `self <= other`; never with a NaN.
    pub open spec fn at_most(self, other: Float32) -> bool {
        !self.nan() && !other.nan() && self.order() <= other.order()
    }

    /// `self == other` as numbers; never with a NaN.
    pub open spec fn equals(self, other: Float32) -> bool {
        !self.nan() && !other.nan() && self.order() == other.order()
    }

    #[verifier::opaque]
    pub open spec fn product(self, other: Float32) -> Float32 {
        Self::from_parts(product(binary32(), self.parts(), other.parts()))
    }

    #[verifier::opaque]
    pub open spec fn quotient(self, other: Float32) -> Float32 {
        Self::from_parts(quotient(binary32(), self.parts(), other.parts()))
    }

    /// The value nearest to the fraction `n / d`.
    #[verifier::opaque]
    pub open spec fn nearest(n: int, d: nat) -> Float32 {
        Self::from_parts(fraction(binary32(), n, d))
    }

    /// The smaller of two numbers; the other one where one is a NaN.
    pub open spec fn smaller(self, other: Float32) -> Float32 {
        if self.nan() {
            other
        } else if other.nan() || self.below(other) {
            self
        } else {
            other
        }
    }

    #[verifier::opaque]
    pub open spec fn sum(self, other: Float32) -> Float32 {
        Self::from_parts(sum(binary32(), self.parts(), other.parts()))
    }

    #[verifier::opaque]
    pub open spec fn difference(self, other: Float32) -> Float32 {
        Self::from_parts(sum(binary32(), self.parts(), opposite(other.parts())))
    }

    #[verifier::opaque]
    pub open spec fn root(self) -> Float32 {
        Self::from_parts(root(binary32(), self.parts()))
    }

    /// The same number with the other sign.
    pub open spec fn opposite(self) -> Float32 {
        if self.bits >= 0x8000_0000 {
            Float32 { bits: (self.bits - 0x8000_0000) as u32 }
        } else {
            Float32 { bits: (self.bits + 0x8000_0000) as u32 }
        }
    }

    /// Place in the order of all patterns: by value, with a negative zero
    /// before a positive one and the NaNs at the two ends.
    pub open spec fn rank(self) -> int {
        if self.bits >= 0x8000_0000 {
            0x8000_0000 - self.bits - 1
        } else {
            self.bits as int
        }
    }

    fn split(self) -> (r: Pattern)
        ensures
            r.parts() == self.parts(),
            r.rest < 0x8000_0000,
    {
        Pattern { negative: self.bits >= 0x8000_0000, rest: (self.bits % 0x8000_0000) as u64 }
    }

    fn join(p: Pattern) -> (r: Float32)
        requires
            p.rest < 0x8000_0000,
        ensures
            r == Self::from_parts(p.parts()),
            r.parts() == p.parts(),
    {
        if p.negative {
            Float32 { bits: p.rest as u32 + 0x8000_0000 }
        } else {
            Float32 { bits: p.rest as u32 }
        }
    }

    pub fn is_nan(self) -> (r: bool)
        ensures
            r == self.nan(),
    {
        self.bits % 0x8000_0000 > 0x7f80_0000
    }

    pub fn is_finite(self) -> (r: bool)
        ensures
            r == self.finite(),
    {
        self.bits % 0x8000_0000 < 0x7f80_0000
    }

    /// `self < other`.
    pub fn lt(self, other: Float32) -> (r: bool)
        ensures
            r == self.below(other),
    {
        if self.is_nan() || other.is_nan() {
            false
        } else if self.bits >= 0x8000_0000 {
            if other.bits >= 0x8000_0000 {
                self.bits > other.bits
            } else {
                self.bits != 0x8000_0000 || other.bits != 0
            }
        } else {
            other.bits < 0x8000_0000 && self.bits < other.bits
        }
    }

    /// `self <= other`.
    pub fn le(self, other: Float32) -> (r: bool)
        ensures
            r == self.at_most(other),
    {
        !self.is_nan() && !other.is_nan() && !other.lt(self)
    }

    /// `self * other`.
    pub fn times(self, other: Float32) -> (r: Float32)
        ensures
            r == self.product(other),
    {
        let p = product_of(Width::Single, self.split(), other.split());
        proof {
            reveal(Float32::product);
            Self::lemma_limits();
            lemma_rounded_bound();
        }
        Self::join(p)
    }

    /// `self / other`.
    pub fn over(self, other: Float32) -> (r: Float32)
        ensures
            r == self.quotient(other),
    {
        let p = quotient_of(Width::Single, self.split(), other.split());
        proof {
            reveal(Float32::quotient);
            Self::lemma_limits();
            lemma_rounded_bound();
        }
        Self::join(p)
    }

    /// The value nearest to `n / d`.
    pub fn ratio(n: i64, d: u64) -> (r: Float32)
        requires
            d > 0,
        ensures
            r == Self::nearest(n as int, d as nat),
    {
        let magnitude: u64 = if n < 0 {
            (-(n as i128)) as u64
        } else {
            n as u64
        };
        let p = fraction_of(Width::Single, n < 0, magnitude, d);
        proof {
            reveal(Float32::nearest);
            Self::lemma_limits();
            lemma_rounded_bound();
        }
        Self::join(p)
    }

    /// The value nearest to the integer `n`.
    pub fn of(n: i64) -> (r: Float32)
        ensures
            r == Self::nearest(n as int, 1),
    {
        Self::ratio(n, 1)
    }

    /// The smaller of two numbers.
    pub fn min(self, other: Float32) -> (r: Float32)
        ensures
            r == self.smaller(other),
    {
        if self.is_nan() {
            other
        } else if other.is_nan() || self.lt(other) {
            self
        } else {
            other
        }
    }

    /// `self + other`.
    pub fn plus(self, other: Float32) -> (r: Float32)
        ensures
            r == self.sum(other),
    {
        let p = sum_of(Width::Single, self.split(), other.split());
        proof {
            reveal(Float32::sum);
            Self::lemma_limits();
            lemma_rounded_bound();
        }
        Self::join(p)
    }

    /// `self - other`.
    pub fn minus(self, other: Float32) -> (r: Float32)
        ensures
            r == self.difference(other),
    {
        let o = other.split();
        let flipped = Pattern { negative: !o.negative, rest: o.rest };
        let p = sum_of(Width::Single, self.split(), flipped);
        proof {
            reveal(Float32::difference);
            Self::lemma_limits();
            lemma_rounded_bound();
        }
        Self::join(p)
    }

    /// `-self`.
    pub fn negated(self) -> (r: Float32)
        ensures
            r == self.opposite(),
    {
        if self.bits >= 0x8000_0000 {
            Float32 { bits: self.bits - 0x8000_0000 }
        } else {
            Float32 { bits: self.bits + 0x8000_0000 }
        }
    }

    /// The square root.
    pub fn sqrt(self) -> (r: Float32)
        ensures
            r == self.root(),
    {
        let p = root_of(Width::Single, self.split());
        proof {
            reveal(Float32::root);
            Self::lemma_limits();
            lemma_rounded_bound();
        }
        Self::join(p)
    }

    /// Whether `self` comes strictly before `other` in the order of all
    /// patterns.
    pub fn ranks_below(self, other: Float32) -> (r: bool)
        ensures
            r == (self.rank() < other.rank()),
    {
        if self.bits >= 0x8000_0000 {
            other.bits < 0x8000_0000 || self.bits > other.bits
        } else {
            other.bits < 0x8000_0000 && self.bits < other.bits
        }
    }

    pub proof fn lemma_limits()
        ensures
            binary32().infinity() == 0x7f80_0000,
            binary32().hidden() >= 2,
            binary32().hidden() <= 0x7f80_0000,
            binary32().infinity() + binary32().hidden() == 0x8000_0000,
    {
        lemma2_to64();
        lemma2_to64_rest();
    }

    /// Integers of up to 24 binary digits are represented exactly.
    pub proof fn law_integers_are_exact(n: int)
        requires
            -0x100_0000 < n < 0x100_0000,
        ensures
            Self::nearest(n, 1).finite(),
            Self::nearest(n, 1).units() == n * pow2(149),
    {
        reveal(Float32::nearest);
        Self::lemma_limits();
        lemma2_to64();
        lemma2_to64_rest();
        let m = super::format::absolute(n);
        let v = (m * pow2(149)) as nat;
        if m == 0 {
            assert(v == 0) by (nonlinear_arith)
                requires
                    v == m * pow2(149),
                    m == 0,
            ;
            super::lemmas::lemma_rounded_zero(binary32(), 1);
            vstd::arithmetic::div_mod::lemma_small_mod(0, binary32().hidden());
            vstd::arithmetic::div_mod::lemma_basic_div(0, binary32().hidden() as int);
            assert(n * pow2(149) == 0) by (nonlinear_arith)
                requires
                    n == 0,
            ;
        } else {
            super::lemmas::lemma_bit_length_bounds(m);
            if super::format::bit_length(m) > 24 {
                super::lemmas::lemma_pow2_monotone(
                    24,
                    (super::format::bit_length(m) - 1) as nat,
                );
            }
            super::lemmas::lemma_exact(binary32(), v, 1, m, 149);
            assert(n * pow2(149) == if n < 0 { -(v as int) } else { v as int })
                by (nonlinear_arith)
                requires
                    v == m * pow2(149),
                    m == if n < 0 { -n } else { n },
            ;
        }
    }

    /// Exact integers compare as integers.
    pub proof fn lemma_integers_compare(a: int, b: int)
        requires
            -0x100_0000 < a < 0x100_0000,
            -0x100_0000 < b < 0x100_0000,
        ensures
            Self::nearest(a, 1).below(Self::nearest(b, 1)) <==> a < b,
            Self::nearest(a, 1).at_most(Self::nearest(b, 1)) <==> a <= b,
            Self::nearest(a, 1).finite(),
    {
        Self::law_integers_are_exact(a);
        Self::law_integers_are_exact(b);
        Self::law_order_is_value(Self::nearest(a, 1), Self::nearest(b, 1));
        vstd::arithmetic::power2::lemma_pow2_pos(149);
        assert(a * pow2(149) < b * pow2(149) <==> a < b) by (nonlinear_arith)
            requires
                pow2(149) > 0,
        ;
        assert(a * pow2(149) <= b * pow2(149) <==> a <= b) by (nonlinear_arith)
            requires
                pow2(149) > 0,
        ;
    }

    /// One half is represented exactly, and is above zero.
    pub proof fn lemma_half()
        ensures
            Self::nearest(1, 2).finite(),
            Self::nearest(0, 1).below(Self::nearest(1, 2)),
            Self::nearest(1, 2).units() == pow2(148),
    {
        reveal(Float32::nearest);
        Self::lemma_limits();
        lemma2_to64();
        lemma2_to64_rest();
        vstd::arithmetic::power2::lemma_pow2_unfold(149);
        vstd::arithmetic::power2::lemma_pow2_pos(148);
        assert(super::format::bit_length(1) == 1) by {
            reveal_with_fuel(super::format::bit_length, 2);
        }
        let one = super::format::absolute(1);
        assert(one * pow2(149) == pow2(149)) by (nonlinear_arith)
            requires
                one == 1,
        ;
        super::lemmas::lemma_exact(binary32(), pow2(149), 2, 1, 148);
        Self::law_integers_are_exact(0);
        assert(0 * pow2(149) == 0) by (nonlinear_arith);
        Self::law_order_is_value(Self::nearest(0, 1), Self::nearest(1, 2));
    }

    /// Comparing patterns compares the values they stand for.
    pub proof fn law_order_is_value(a: Float32, b: Float32)
        requires
            a.finite(),
            b.finite(),
        ensures
            a.below(b) <==> a.units() < b.units(),
            a.at_most(b) <==> a.units() <= b.units(),
            a.equals(b) <==> a.units() == b.units(),
    {
        let x = a.parts().rest;
        let y = b.parts().rest;
        Self::lemma_limits();
        if x < y {
            lemma_magnitude_monotone(binary32(), x, y);
        }
        if y < x {
            lemma_magnitude_monotone(binary32(), y, x);
        }
        if x > 0 {
            lemma_magnitude_monotone(binary32(), 0, x);
        }
        if y > 0 {
            lemma_magnitude_monotone(binary32(), 0, y);
        }
        vstd::arithmetic::div_mod::lemma_small_mod(0, binary32().hidden());
        vstd::arithmetic::div_mod::lemma_basic_div(0, binary32().hidden() as int);
    }
}

impl PartialEq for Float32 {
    fn eq(&self, other: &Self) -> (r: bool) {
        self.le(*other) && other.le(*self)
    }
}

impl vstd::std_specs::cmp::PartialEqSpecImpl for Float32 {
    open spec fn obeys_eq_spec() -> bool {
        true
    }

    open spec fn eq_spec(&self, other: &Self) -> bool {
        self.equals(*other)
    }
}

} // verus!
