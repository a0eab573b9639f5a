//! Where single-precision arithmetic is exact.
use super::format::{absolute, binary32, bit_length, Parts};
use super::lemmas::{
    lemma_bit_length_bounds, lemma_pow2_monotone, lemma_rounded_bound, lemma_rounded_zero,
};
use super::nearest::{
    law_representable_is_kept, law_rounding_is_nearest, law_rounding_keeps_order,
    lemma_common_factor, lemma_half_pattern, lemma_halving, lemma_shape,
};
use super::Float32;
use vstd::arithmetic::div_mod::{lemma_basic_div, lemma_small_mod};
use vstd::arithmetic::power2::{
    lemma2_to64, lemma2_to64_rest, lemma_pow2_adds, lemma_pow2_pos, lemma_pow2_unfold, pow2,
};
use vstd::prelude::*;

verus! {

impl Float32 {
    /// The size of a finite number, in units of the smallest subnormal.
    pub open spec fn size(self) -> nat {
        binary32().magnitude(self.parts().rest)
    }

    proof fn lemma_same_parts(a: Float32, b: Float32)
        requires
            a.parts() == b.parts(),
        ensures
            a == b,
    {
    }

    /// A zero has no size.
    pub proof fn lemma_zero_size()
        ensures
            binary32().magnitude(0) == 0,
    {
        Self::lemma_limits();
        lemma_small_mod(0, binary32().hidden());
        lemma_basic_div(0, binary32().hidden() as int);
    }

    /// A number of no size is a zero.
    pub proof fn lemma_size_zero(a: Float32)
        requires
            a.size() == 0,
        ensures
            a.parts().rest == 0,
    {
        Self::lemma_zero_size();
        if a.parts().rest > 0 {
            super::lemmas::lemma_magnitude_monotone(binary32(), 0, a.parts().rest);
        }
    }

    /// What the constants zero, one and two are made of.
    pub proof fn lemma_constants()
        ensures
            Self::nearest(0, 1).parts() == (Parts { negative: false, rest: 0 }),
            Self::nearest(1, 1).finite(),
            !Self::nearest(1, 1).parts().negative,
            Self::nearest(1, 1).size() == pow2(149),
            Self::nearest(2, 1).finite(),
            !Self::nearest(2, 1).parts().negative,
            Self::nearest(2, 1).size() == 2 * pow2(149),
            pow2(149) > 0,
    {
        Self::lemma_limits();
        Self::law_integers_are_exact(1);
        Self::law_integers_are_exact(2);
        lemma_pow2_pos(149);
        assert(Self::nearest(0, 1).parts() == (Parts { negative: false, rest: 0 })) by {
            reveal(Float32::nearest);
            lemma_rounded_zero(binary32(), 1);
            assert(absolute(0) * pow2(149) == 0) by (nonlinear_arith)
                requires
                    absolute(0) == 0,
            ;
        }
    }

    /// Where the exact sum is representable, the sum is exact.
    pub proof fn law_representable_sum(a: Float32, b: Float32, c: Float32)
        requires
            a.finite(),
            b.finite(),
            c.finite(),
            a.units() + b.units() == c.units(),
        ensures
            a.sum(b).finite(),
            a.sum(b).units() == c.units(),
    {
        reveal(Float32::sum);
        Self::lemma_limits();
        Self::lemma_zero_size();
        let v = c.units();
        if v != 0 {
            assert(absolute(v) == c.size() * 1);
            law_representable_is_kept(binary32(), absolute(v), 1, c.parts().rest);
        }
    }

    /// The same of a difference.
    pub proof fn law_representable_difference(a: Float32, b: Float32, c: Float32)
        requires
            a.finite(),
            b.finite(),
            c.finite(),
            a.units() - b.units() == c.units(),
        ensures
            a.difference(b).finite(),
            a.difference(b).units() == c.units(),
    {
        reveal(Float32::difference);
        Self::lemma_limits();
        Self::lemma_zero_size();
        let v = c.units();
        if v != 0 {
            assert(absolute(v) == c.size() * 1);
            law_representable_is_kept(binary32(), absolute(v), 1, c.parts().rest);
        }
    }

    /// One is neutral.
    pub proof fn law_times_one(a: Float32)
        requires
            a.finite(),
        ensures
            a.product(Self::nearest(1, 1)) == a,
    {
        Self::lemma_limits();
        Self::lemma_constants();
        reveal(Float32::product);
        law_representable_is_kept(binary32(), a.size() * pow2(149), pow2(149), a.parts().rest);
        Self::lemma_same_parts(a.product(Self::nearest(1, 1)), a);
    }

    /// A finite number times zero is a zero.
    pub proof fn law_times_zero(a: Float32)
        requires
            a.finite(),
        ensures
            a.product(Self::nearest(0, 1)).finite(),
            a.product(Self::nearest(0, 1)).units() == 0,
    {
        Self::lemma_limits();
        Self::lemma_constants();
        Self::lemma_zero_size();
        reveal(Float32::product);
        assert(a.size() * 0 == 0) by (nonlinear_arith);
        lemma_rounded_zero(binary32(), pow2(149));
    }

    /// A number is zero where its exact value is.
    pub proof fn lemma_equals_zero(a: Float32)
        requires
            a.finite(),
            a.units() == 0,
        ensures
            a.equals(Self::nearest(0, 1)),
            a.parts().rest == 0,
    {
        Self::lemma_size_zero(a);
        Self::lemma_constants();
    }

    /// Every count of pixels is held as a whole number, if not always as
    /// itself: that number, and whether it is above zero.
    pub proof fn lemma_whole(count: u32) -> (w: nat)
        ensures
            Self::nearest(count as int, 1).finite(),
            !Self::nearest(count as int, 1).parts().negative,
            Self::nearest(count as int, 1).size() == w * pow2(149),
            w == 0 <==> count == 0,
    {
        let x = Self::nearest(count as int, 1);
        let one = pow2(149);
        lemma_pow2_pos(149);
        Self::lemma_limits();
        if count < 0x100_0000 {
            Self::law_integers_are_exact(count as int);
            reveal(Float32::nearest);
            lemma_rounded_bound();
            assert(count * one >= 0) by (nonlinear_arith);
            count as nat
        } else {
            reveal(Float32::nearest);
            lemma_rounded_bound();
            let n = (absolute(count as int) * one) as nat;
            let (k, q) = lemma_shape(binary32(), n, 1);
            law_rounding_is_nearest(binary32(), n, 1, 0);
            lemma2_to64();
            lemma2_to64_rest();
            // At least twenty-five binary digits stand before the units.
            lemma_pow2_adds(24, 149);
            assert(n >= pow2(24) * one) by (nonlinear_arith)
                requires
                    n == count * one,
                    count >= pow2(24),
                    one > 0,
            ;
            assert(n / 1 == n);
            lemma_pow2_pos(173);
            lemma_bit_length_bounds(n);
            if bit_length(n) <= 173 {
                lemma_pow2_monotone(bit_length(n), 173);
            }
            // It is at most two to the thirty-second.
            let h = binary32().hidden();
            let top = 159 * h;
            assert(binary32().magnitude(top) == pow2(181)) by {
                vstd::arithmetic::div_mod::lemma_fundamental_div_mod_converse(
                    top as int,
                    h as int,
                    159,
                    0,
                );
                lemma_pow2_adds(23, 158);
                assert((h + 0) * pow2(158) == pow2(181));
            }
            lemma_pow2_adds(32, 149);
            assert(n <= pow2(181) * 1) by (nonlinear_arith)
                requires
                    n == count * one,
                    count <= pow2(32),
                    pow2(181) == pow2(32) * one,
                    one > 0,
            ;
            law_rounding_keeps_order(binary32(), n, 1, top);
            let s = (k - 149) as nat;
            lemma_pow2_adds(s, 149);
            lemma_pow2_pos(s);
            let w = q * pow2(s);
            assert(q * pow2(k) == w * one) by (nonlinear_arith)
                requires
                    w == q * pow2(s),
                    pow2(k) == pow2(s) * one,
            ;
            assert(w > 0) by (nonlinear_arith)
                requires
                    w == q * pow2(s),
                    q > 0,
                    pow2(s) > 0,
            ;
            w
        }
    }

    /// Half of a count of pixels is exact.
    pub proof fn lemma_half_count(count: u32)
        ensures
            ({
                let whole = Self::nearest(count as int, 1);
                let half = whole.quotient(Self::nearest(2, 1));
                &&& half.finite()
                &&& !half.parts().negative
                &&& 2 * half.size() == whole.size()
            }),
    {
        let whole = Self::nearest(count as int, 1);
        let w = Self::lemma_whole(count);
        let one = pow2(149);
        let h = binary32().hidden();
        Self::lemma_limits();
        Self::lemma_constants();
        Self::lemma_zero_size();
        reveal(Float32::quotient);
        lemma_rounded_bound();
        let b = whole.parts().rest;
        if w == 0 {
            assert(0 * one == 0) by (nonlinear_arith);
            lemma_rounded_zero(binary32(), 2 * one);
        } else {
            lemma2_to64();
            lemma2_to64_rest();
            lemma_pow2_monotone(24, 149);
            lemma_pow2_pos(149);
            assert(w * one >= one) by (nonlinear_arith)
                requires
                    w >= 1,
                    one > 0,
            ;
            if b < 2 * h {
                super::lemmas::lemma_packed_magnitude(binary32(), b, 0);
                assert(0 * h == 0) by (nonlinear_arith);
                assert(b * pow2(0) == b) by (nonlinear_arith)
                    requires
                        pow2(0) == 1,
                ;
            }
            lemma_half_pattern(binary32(), b);
            let g = (b - h) as nat;
            let m = binary32().magnitude(g);
            assert((2 * m) * one == m * (2 * one)) by (nonlinear_arith);
            law_representable_is_kept(binary32(), whole.size() * one, 2 * one, g);
        }
    }

    /// Scaling half of a count of pixels, and halving the scaled count, give
    /// the same.
    pub proof fn law_halving_commutes(count: u32, scale: Float32)
        requires
            Self::nearest(count as int, 1).product(scale).finite(),
        ensures
            ({
                let whole = Self::nearest(count as int, 1);
                let two = Self::nearest(2, 1);
                let a = whole.quotient(two).product(scale);
                let b = whole.opposite().product(scale).quotient(two);
                a.finite() && b.finite() && a.units() + b.units() == 0
            }),
    {
        let whole = Self::nearest(count as int, 1);
        let two = Self::nearest(2, 1);
        let half = whole.quotient(two);
        let one = pow2(149);
        let v = pow2(148);
        let w = Self::lemma_whole(count);
        Self::lemma_half_count(count);
        Self::lemma_limits();
        Self::lemma_constants();
        Self::lemma_zero_size();
        lemma_rounded_bound();
        lemma_pow2_unfold(149);
        lemma_pow2_pos(148);
        reveal(Float32::product);
        let fmt = binary32();
        let s = scale.size();
        let n = w * s;
        assert(scale.finite());
        let p = whole.product(scale);
        assert(whole.size() * s == n * one) by (nonlinear_arith)
            requires
                whole.size() == w * one,
                n == w * s,
        ;
        lemma_common_factor(fmt, n, 1, one);
        assert(1 * one == one) by (nonlinear_arith);
        assert(p.parts().rest == super::format::rounded(fmt, n, 1));
        assert(half.size() * s == n * v) by (nonlinear_arith)
            requires
                2 * half.size() == w * one,
                one == 2 * v,
                n == w * s,
        ;
        lemma_common_factor(fmt, n, 2, v);
        let a = half.product(scale);
        assert(a.parts().rest == super::format::rounded(fmt, n, 2));
        let t = whole.opposite().product(scale);
        assert(whole.opposite().parts().rest == whole.parts().rest);
        assert(t.parts().rest == p.parts().rest);
        lemma_halving(fmt, n);
        assert(p.size() <= p.size() * 2);
        law_rounding_keeps_order(fmt, p.size(), 2, p.parts().rest);
        lemma_common_factor(fmt, p.size(), 2, one);
        let b = t.quotient(two);
        assert(b.parts().rest == super::format::rounded(fmt, n, 2)) by {
            reveal(Float32::quotient);
        }
        assert(b.parts().negative != a.parts().negative) by {
            reveal(Float32::quotient);
        }
    }
}

} // verus!
