//! The executable core: exact integer arithmetic, then one rounding.
use super::format::{
    absolute, binary32, binary64, bit_length, dropped_digits, is_integer_sqrt, packed, product,
    quotient, rounded, root, sum, Format, Parts,
};
use super::lemmas::{
    has_digits, lemma_bit_length_bounds, lemma_pow2_monotone, lemma_rounded_digits,
    lemma_rounded_sqrt_digits, rounded_digits,
};
use vstd::arithmetic::div_mod::{lemma_fundamental_div_mod, lemma_fundamental_div_mod_converse};
use vstd::arithmetic::power2::{
    lemma2_to64, lemma2_to64_rest, lemma_pow2_adds, lemma_pow2_pos, lemma_pow2_unfold, pow2,
};
use vstd::prelude::*;

verus! {

/// Which format a pattern is in.
#[derive(Clone, Copy)]
pub enum Width {
    Single,
    Double,
}

impl Width {
    pub open spec fn format(self) -> Format {
        match self {
            Width::Single => binary32(),
            Width::Double => binary64(),
        }
    }

    pub(crate) fn prec(self) -> (r: u32)
        ensures
            r == self.format().prec,
            24 <= r <= 53,
    {
        match self {
            Width::Single => 24,
            Width::Double => 53,
        }
    }

    pub(crate) fn unit(self) -> (r: u32)
        ensures
            r == self.format().unit,
            149 <= r <= 1074,
    {
        match self {
            Width::Single => 149,
            Width::Double => 1074,
        }
    }

    pub(crate) fn hidden(self) -> (r: u64)
        ensures
            r == self.format().hidden(),
            0x80_0000 <= r <= 0x10_0000_0000_0000,
    {
        proof {
            lemma2_to64();
            lemma2_to64_rest();
        }
        match self {
            Width::Single => 0x80_0000,
            Width::Double => 0x10_0000_0000_0000,
        }
    }

    pub(crate) fn infinity(self) -> (r: u64)
        ensures
            r == self.format().infinity(),
            0x7f80_0000 <= r <= 0x7ff0_0000_0000_0000,
    {
        proof {
            lemma2_to64();
            lemma2_to64_rest();
        }
        match self {
            Width::Single => 0x7f80_0000,
            Width::Double => 0x7ff0_0000_0000_0000,
        }
    }
}

fn power_of_two(e: u32) -> (r: u128)
    requires
        e < 128,
    ensures
        r == pow2(e as nat),
{
    proof {
        lemma2_to64();
        lemma2_to64_rest();
        lemma_pow2_adds(64, 64);
    }
    let mut r: u128 = 1;
    let mut i: u32 = 0;
    while i < e
        invariant
            i <= e < 128,
            r == pow2(i as nat),
            pow2(128) == 0x1_0000_0000_0000_0000_0000_0000_0000_0000,
        decreases e - i,
    {
        proof {
            lemma_pow2_unfold((i + 1) as nat);
            lemma_pow2_monotone((i + 1) as nat, 127);
            lemma_pow2_unfold(128);
        }
        r = r * 2;
        i = i + 1;
    }
    r
}

fn digits(x: u128) -> (r: u32)
    ensures
        r == bit_length(x as nat),
        r <= 128,
{
    let mut rest: u128 = x;
    let mut n: u32 = 0;
    proof {
        lemma2_to64();
        lemma2_to64_rest();
        lemma_pow2_adds(64, 64);
        if x > 0 {
            lemma_bit_length_bounds(x as nat);
            if bit_length(x as nat) > 128 {
                lemma_pow2_monotone(128, (bit_length(x as nat) - 1) as nat);
            }
        }
    }
    while rest > 0
        invariant
            bit_length(x as nat) <= 128,
            n + bit_length(rest as nat) == bit_length(x as nat),
        decreases rest,
    {
        rest = rest / 2;
        n = n + 1;
    }
    n
}

fn pack(w: Width, m: u128, k: u32) -> (r: u64)
    requires
        m <= 0x20_0000_0000_0000,
        k <= 10000,
    ensures
        r == packed(w.format(), m as nat, k as nat),
{
    let h: u128 = w.hidden() as u128;
    let inf: u64 = w.infinity();
    assert(k * h <= 10000 * 0x10_0000_0000_0000) by (nonlinear_arith)
        requires
            k <= 10000,
            h <= 0x10_0000_0000_0000,
    ;
    let b: u128 = k as u128 * h + m;
    if b < inf as u128 {
        b as u64
    } else {
        inf
    }
}

/// Rounds `mant` units of two to the power `exp`, plus something less than
/// one such unit where `sticky`.
fn round_digits(w: Width, mant: u128, exp: i32, sticky: bool) -> (r: u64)
    requires
        0 < mant < 0x8000_0000_0000_0000_0000_0000_0000_0000,
        -5000 <= exp <= 5000,
    ensures
        r == rounded_digits(w.format(), mant as nat, exp as int, sticky),
{
    let length: i32 = digits(mant) as i32;
    let prec: i32 = w.prec() as i32;
    let ghost fmt = w.format();
    proof {
        lemma2_to64();
        lemma2_to64_rest();
        lemma_bit_length_bounds(mant as nat);
    }
    let k: i32 = if length + exp > prec {
        length + exp - prec
    } else {
        0
    };
    assert(k == dropped_digits(fmt, bit_length(mant as nat) + exp));
    if k <= exp {
        let up: u32 = (exp - k) as u32;
        proof {
            // The shifted digits still fit the significand.
            lemma_pow2_adds(length as nat, up as nat);
            lemma_pow2_pos(up as nat);
            lemma_pow2_monotone((length + up) as nat, prec as nat);
            lemma_pow2_monotone(prec as nat, 53);
            assert(mant * pow2(up as nat) <= pow2(length as nat) * pow2(up as nat))
                by (nonlinear_arith)
                requires
                    mant <= pow2(length as nat),
            ;
        }
        let p: u128 = power_of_two(up);
        let m: u128 = mant * p;
        pack(w, m, k as u32)
    } else {
        let s: u32 = (k - exp) as u32;
        if s >= 128 {
            proof {
                assert(k == 0);
                lemma_pow2_adds(64, 64);
                lemma_pow2_unfold(128);
                lemma_pow2_monotone(127, (s - 1) as nat);
                lemma_pow2_monotone(127, s as nat);
                lemma_fundamental_div_mod_converse(
                    mant as int,
                    pow2(s as nat) as int,
                    0,
                    mant as int,
                );
            }
            0
        } else {
            let p: u128 = power_of_two(s);
            let h: u128 = power_of_two(s - 1);
            proof {
                lemma_pow2_pos(s as nat);
            }
            let f: u128 = mant / p;
            let r: u128 = mant % p;
            proof {
                // The kept digits fit the significand.
                lemma_fundamental_div_mod(mant as int, p as int);
                if length <= s {
                    lemma_pow2_monotone(length as nat, s as nat);
                    assert(f < 1) by (nonlinear_arith)
                        requires
                            mant == p * f + r,
                            mant < p,
                            r >= 0,
                            f >= 0,
                    ;
                } else {
                    let q = (length - s) as nat;
                    lemma_pow2_adds(s as nat, q);
                    lemma_pow2_monotone(q, prec as nat);
                    lemma_pow2_monotone(prec as nat, 53);
                    assert(f < pow2(q)) by (nonlinear_arith)
                        requires
                            mant == p * f + r,
                            mant < p * pow2(q),
                            r >= 0,
                            p > 0,
                    ;
                }
            }
            let up: bool = r > h || (r == h && (sticky || f % 2 == 1));
            let m: u128 = if up {
                f + 1
            } else {
                f
            };
            pack(w, m, k as u32)
        }
    }
}

/// A pattern taken apart.
#[derive(Clone, Copy)]
pub(crate) struct Pattern {
    pub(crate) negative: bool,
    pub(crate) rest: u64,
}

impl Pattern {
    pub(crate) open spec fn parts(self) -> Parts {
        Parts { negative: self.negative, rest: self.rest as nat }
    }
}

/// Significand and exponent of a finite pattern.
fn unpack(w: Width, b: u64) -> (r: (u64, u32))
    requires
        b < w.format().infinity(),
    ensures
        w.format().magnitude(b as nat) == r.0 * pow2(r.1 as nat),
        r.0 < 2 * w.format().hidden(),
        r.1 > 0 ==> r.0 >= w.format().hidden(),
        r.1 + 2 <= w.format().special,
        r.1 <= 2045,
        r.0 == 0 <==> b == 0,
        r.0 < 0x20_0000_0000_0000,
{
    let h: u64 = w.hidden();
    let e: u64 = b / h;
    let f: u64 = b % h;
    proof {
        lemma2_to64();
        lemma_fundamental_div_mod(b as int, h as int);
        let special = w.format().special;
        assert(e < special) by (nonlinear_arith)
            requires
                b == h * e + f,
                b < special * h,
                f >= 0,
                h > 0,
        ;
        if b == 0 {
            lemma_fundamental_div_mod_converse(0, h as int, 0, 0);
        }
    }
    if e == 0 {
        proof {
            assert(h * e == 0) by (nonlinear_arith)
                requires
                    e == 0,
            ;
            assert(f * pow2(0) == f) by (nonlinear_arith)
                requires
                    pow2(0) == 1,
            ;
        }
        (f, 0)
    } else {
        (h + f, (e - 1) as u32)
    }
}

fn nan_pattern(w: Width) -> (r: Pattern)
    ensures
        r.parts() == super::format::nan(w.format()),
{
    Pattern { negative: false, rest: w.infinity() + w.hidden() / 2 }
}

/// Far below the last digit of a larger operand, a smaller one only tells
/// that the sum is not exact.
proof fn lemma_wide_gap(ma: nat, ka: nat, mb: nat, kb: nat, prec: nat)
    requires
        ka > kb + 60,
        0 < mb < 0x20_0000_0000_0000,
        ma >= pow2((prec - 1) as nat),
        prec >= 1,
    ensures
        mb * pow2(kb) < pow2((ka - 8) as nat),
        0 < mb * pow2(kb),
        ma * pow2(ka) == (ma * 256) * pow2((ka - 8) as nat),
        bit_length((ma * 256) as nat) >= prec + 2,
        bit_length((ma * 256 - 1) as nat) >= prec + 2,
{
    lemma2_to64();
    lemma2_to64_rest();
    lemma_pow2_pos(kb);
    lemma_pow2_pos((prec - 1) as nat);
    lemma_pow2_adds(53, kb);
    lemma_pow2_monotone(53 + kb, (ka - 8) as nat);
    assert(mb * pow2(kb) < pow2(53) * pow2(kb)) by (nonlinear_arith)
        requires
            mb < pow2(53),
            pow2(kb) > 0,
    ;
    assert(0 < mb * pow2(kb)) by (nonlinear_arith)
        requires
            0 < mb,
            0 < pow2(kb),
    ;
    lemma_pow2_adds(8, (ka - 8) as nat);
    assert(ma * pow2(ka) == (ma * 256) * pow2((ka - 8) as nat)) by (nonlinear_arith)
        requires
            pow2(ka) == 256 * pow2((ka - 8) as nat),
    ;
    lemma_pow2_adds((prec - 1) as nat, 8);
    lemma_pow2_unfold((prec + 7) as nat);
    lemma_pow2_pos((prec + 6) as nat);
    let x = (ma * 256) as nat;
    let y = (ma * 256 - 1) as nat;
    assert(x >= pow2((prec + 7) as nat));
    assert(y >= pow2((prec + 6) as nat));
    lemma_bit_length_bounds(x);
    lemma_bit_length_bounds(y);
    if bit_length(x) < prec + 2 {
        lemma_pow2_monotone(bit_length(x), (prec + 6) as nat);
    }
    if bit_length(y) < prec + 2 {
        lemma_pow2_monotone(bit_length(y), (prec + 6) as nat);
    }
}

/// The rounded sum of two magnitudes, the larger exponent first, or their
/// difference and whether that is negative.
fn combine(w: Width, ma: u64, ka: u32, mb: u64, kb: u32, subtract: bool) -> (r: (u64, bool))
    requires
        kb <= ka <= 2045,
        ma < 0x20_0000_0000_0000,
        mb < 0x20_0000_0000_0000,
        ka > 0 ==> ma >= w.format().hidden(),
        ({
            let va = ma * pow2(ka as nat);
            let vb = mb * pow2(kb as nat);
            if subtract {
                va != vb
            } else {
                va + vb != 0
            }
        }),
    ensures
        ({
            let va = ma * pow2(ka as nat);
            let vb = mb * pow2(kb as nat);
            let v = if subtract {
                va - vb
            } else {
                va + vb
            };
            &&& r.1 == (v < 0)
            &&& r.0 == rounded(w.format(), absolute(v), 1)
        }),
{
    let ghost fmt = w.format();
    let ghost va = (ma * pow2(ka as nat)) as nat;
    let ghost vb = (mb * pow2(kb as nat)) as nat;
    let diff: u32 = ka - kb;
    proof {
        lemma2_to64();
        lemma2_to64_rest();
        lemma_pow2_pos(ka as nat);
        lemma_pow2_pos(kb as nat);
    }
    if diff <= 60 {
        let p: u128 = power_of_two(diff);
        proof {
            lemma_pow2_monotone(diff as nat, 60);
            assert(ma * p <= 0x20_0000_0000_0000 * 0x1000_0000_0000_0000) by (nonlinear_arith)
                requires
                    ma <= 0x20_0000_0000_0000,
                    p <= 0x1000_0000_0000_0000,
            ;
            lemma_pow2_adds(diff as nat, kb as nat);
        }
        let wide: u128 = ma as u128 * p;
        let ghost q = pow2(kb as nat);
        assert(va == wide * q) by (nonlinear_arith)
            requires
                va == ma * pow2(ka as nat),
                pow2(ka as nat) == p * q,
                wide == ma * p,
        ;
        assert((wide + mb) * q == va + vb) by (nonlinear_arith)
            requires
                va == wide * q,
                vb == mb * q,
        ;
        assert((wide - mb) * q == va - vb) by (nonlinear_arith)
            requires
                va == wide * q,
                vb == mb * q,
        ;
        assert((mb - wide) * q == vb - va) by (nonlinear_arith)
            requires
                va == wide * q,
                vb == mb * q,
        ;
        if subtract {
            if wide > mb as u128 {
                let d: u128 = wide - mb as u128;
                proof {
                    assert(d * q > 0) by (nonlinear_arith)
                        requires
                            d > 0,
                            q > 0,
                    ;
                    assert(has_digits((va - vb) as nat, 1, d as nat, kb as int, false));
                    lemma_rounded_digits(fmt, (va - vb) as nat, 1, d as nat, kb as int, false);
                }
                (round_digits(w, d, kb as i32, false), false)
            } else {
                assert(wide != mb);
                let d: u128 = mb as u128 - wide;
                proof {
                    assert(d * q > 0) by (nonlinear_arith)
                        requires
                            d > 0,
                            q > 0,
                    ;
                    assert(has_digits((vb - va) as nat, 1, d as nat, kb as int, false));
                    lemma_rounded_digits(fmt, (vb - va) as nat, 1, d as nat, kb as int, false);
                }
                (round_digits(w, d, kb as i32, false), true)
            }
        } else {
            let d: u128 = wide + mb as u128;
            proof {
                if d == 0 {
                    assert((wide + mb) * q == 0) by (nonlinear_arith)
                        requires
                            wide + mb == 0,
                    ;
                }
                assert(has_digits((va + vb) as nat, 1, d as nat, kb as int, false));
                lemma_rounded_digits(fmt, (va + vb) as nat, 1, d as nat, kb as int, false);
            }
            (round_digits(w, d, kb as i32, false), false)
        }
    } else {
        let exp: i32 = ka as i32 - 8;
        let ghost e = pow2(exp as nat);
        let lifted: u128 = ma as u128 * 256;
        proof {
            lemma_pow2_pos(exp as nat);
            if mb > 0 {
                lemma_wide_gap(ma as nat, ka as nat, mb as nat, kb as nat, fmt.prec);
            } else {
                lemma_wide_gap(ma as nat, ka as nat, 1, kb as nat, fmt.prec);
                assert(vb == 0) by (nonlinear_arith)
                    requires
                        vb == mb * pow2(kb as nat),
                        mb == 0,
                ;
            }
            assert((lifted + 1) * e == va + e) by (nonlinear_arith)
                requires
                    va == lifted * e,
            ;
            assert((lifted - 1) * e == va - e) by (nonlinear_arith)
                requires
                    va == lifted * e,
            ;
        }
        if mb == 0 {
            proof {
                assert(has_digits(va, 1, lifted as nat, exp as int, false));
                lemma_rounded_digits(fmt, va, 1, lifted as nat, exp as int, false);
            }
            (round_digits(w, lifted, exp, false), false)
        } else if subtract {
            let below: u128 = lifted - 1;
            proof {
                assert(va >= e) by (nonlinear_arith)
                    requires
                        va == lifted * e,
                        lifted >= 1,
                        e >= 0,
                ;
                assert(has_digits((va - vb) as nat, 1, below as nat, exp as int, true));
                lemma_rounded_digits(fmt, (va - vb) as nat, 1, below as nat, exp as int, true);
            }
            (round_digits(w, below, exp, true), false)
        } else {
            proof {
                assert(has_digits((va + vb) as nat, 1, lifted as nat, exp as int, true));
                lemma_rounded_digits(fmt, (va + vb) as nat, 1, lifted as nat, exp as int, true);
            }
            (round_digits(w, lifted, exp, true), false)
        }
    }
}

/// `a + b`.
pub(crate) fn sum_of(w: Width, a: Pattern, b: Pattern) -> (r: Pattern)
    ensures
        r.parts() == sum(w.format(), a.parts(), b.parts()),
{
    let inf: u64 = w.infinity();
    if a.rest > inf || b.rest > inf {
        return nan_pattern(w);
    }
    if a.rest == inf {
        if b.rest == inf && a.negative != b.negative {
            return nan_pattern(w);
        }
        return a;
    }
    if b.rest == inf {
        return b;
    }
    let (ma, ka): (u64, u32) = unpack(w, a.rest);
    let (mb, kb): (u64, u32) = unpack(w, b.rest);
    let ghost va = ma * pow2(ka as nat);
    let ghost vb = mb * pow2(kb as nat);
    proof {
        lemma_pow2_pos(ka as nat);
        lemma_pow2_pos(kb as nat);
        assert(va == 0 <==> ma == 0) by (nonlinear_arith)
            requires
                va == ma * pow2(ka as nat),
                pow2(ka as nat) > 0,
        ;
        assert(vb == 0 <==> mb == 0) by (nonlinear_arith)
            requires
                vb == mb * pow2(kb as nat),
                pow2(kb as nat) > 0,
        ;
    }
    let subtract: bool = a.negative != b.negative;
    if subtract {
        if a.rest == b.rest {
            return Pattern { negative: false, rest: 0 };
        }
        proof {
            super::lemmas::lemma_magnitude_injective(
                w.format(),
                a.rest as nat,
                b.rest as nat,
            );
        }
    } else if ma == 0 && mb == 0 {
        return Pattern { negative: a.negative, rest: 0 };
    }
    if kb <= ka {
        let (rest, below): (u64, bool) = combine(w, ma, ka, mb, kb, subtract);
        Pattern { negative: a.negative != below, rest }
    } else {
        let (rest, below): (u64, bool) = combine(w, mb, kb, ma, ka, subtract);
        Pattern { negative: b.negative != below, rest }
    }
}

/// `a * b`.
pub(crate) fn product_of(w: Width, a: Pattern, b: Pattern) -> (r: Pattern)
    ensures
        r.parts() == product(w.format(), a.parts(), b.parts()),
{
    let inf: u64 = w.infinity();
    let negative: bool = a.negative != b.negative;
    if a.rest > inf || b.rest > inf {
        return nan_pattern(w);
    }
    if a.rest == inf || b.rest == inf {
        if a.rest == 0 || b.rest == 0 {
            return nan_pattern(w);
        }
        return Pattern { negative, rest: inf };
    }
    let (ma, ka): (u64, u32) = unpack(w, a.rest);
    let (mb, kb): (u64, u32) = unpack(w, b.rest);
    let ghost fmt = w.format();
    let ghost n = fmt.magnitude(a.rest as nat) * fmt.magnitude(b.rest as nat);
    let ghost d = pow2(fmt.unit);
    assert(ma * mb <= 0x20_0000_0000_0000 * 0x20_0000_0000_0000) by (nonlinear_arith)
        requires
            ma <= 0x20_0000_0000_0000,
            mb <= 0x20_0000_0000_0000,
    ;
    let mant: u128 = ma as u128 * mb as u128;
    let exp: i32 = ka as i32 + kb as i32 - w.unit() as i32;
    let ghost x = pow2(ka as nat);
    let ghost y = pow2(kb as nat);
    proof {
        lemma_pow2_pos(fmt.unit);
        lemma_pow2_adds(ka as nat, kb as nat);
        assert(n == mant * (x * y)) by (nonlinear_arith)
            requires
                n == (ma * x) * (mb * y),
                mant == ma * mb,
        ;
    }
    if mant == 0 {
        proof {
            assert(n == 0) by (nonlinear_arith)
                requires
                    n == mant * (x * y),
                    mant == 0,
            ;
            super::lemmas::lemma_rounded_zero(fmt, d);
        }
        return Pattern { negative, rest: 0 };
    }
    proof {
        let t = if exp < 0 { (-exp) as nat } else { 0 };
        let e = pow2((exp + t) as nat);
        lemma_pow2_adds((ka + kb) as nat, t);
        lemma_pow2_adds((exp + t) as nat, fmt.unit);
        assert(n * pow2(t) == mant * e * d) by (nonlinear_arith)
            requires
                n == mant * (x * y),
                (x * y) * pow2(t) == e * d,
        ;
        lemma_rounded_digits(fmt, n, d, mant as nat, exp as int, false);
    }
    Pattern { negative, rest: round_digits(w, mant, exp, false) }
}

/// The rounded value of `num * 2^shift / den`.
fn divide(w: Width, num: u64, shift: i32, den: u64) -> (r: u64)
    requires
        num > 0,
        den > 0,
        -3000 <= shift <= 4000,
    ensures
        forall|n: nat, d: nat, c: nat|
            d == den * pow2(c) && shift + c >= 0 && n == num * #[trigger] pow2((shift + c) as nat)
                ==> r == #[trigger] rounded(w.format(), n, d),
{
    let ghost fmt = w.format();
    let mut top: u128 = num as u128;
    let mut up: i32 = 0;
    proof {
        lemma2_to64();
        lemma2_to64_rest();
        assert(num * pow2(0) == num) by (nonlinear_arith)
            requires
                pow2(0) == 1,
        ;
    }
    while top < 0x2000_0000_0000_0000_0000_0000_0000_0000
        invariant
            0 <= up <= 126,
            num > 0,
            top == num * pow2(up as nat),
            0 < top < 0x4000_0000_0000_0000_0000_0000_0000_0000,
            pow2(0) == 1,
            pow2(64) == 0x1_0000_0000_0000_0000,
            pow2(61) == 0x2000_0000_0000_0000,
        decreases 126 - up,
    {
        proof {
            lemma_pow2_unfold((up + 1) as nat);
            assert(num * (2 * pow2(up as nat)) == 2 * (num * pow2(up as nat)))
                by (nonlinear_arith);
            if up >= 125 {
                lemma_pow2_adds(64, 61);
                lemma_pow2_monotone(125, up as nat);
                assert(num * pow2(up as nat) >= pow2(up as nat)) by (nonlinear_arith)
                    requires
                        num >= 1,
                ;
            }
        }
        top = top * 2;
        up = up + 1;
    }
    let q: u128 = top / den as u128;
    let rem: u128 = top % den as u128;
    let exp: i32 = shift - up;
    let sticky: bool = rem != 0;
    proof {
        lemma_fundamental_div_mod(top as int, den as int);
        lemma_pow2_adds(64, 61);
        assert(q >= 0x1000_0000_0000_0000) by (nonlinear_arith)
            requires
                top >= 0x2000_0000_0000_0000_0000_0000_0000_0000,
                top == den * q + rem,
                rem < den,
                den <= 0xffff_ffff_ffff_ffff,
        ;
        assert(q <= top) by (nonlinear_arith)
            requires
                top == den * q + rem,
                rem >= 0,
                den >= 1,
                q >= 0,
        ;
        lemma_bit_length_bounds(q as nat);
        if bit_length(q as nat) < 60 {
            lemma_pow2_monotone(bit_length(q as nat), 60);
        }
        assert forall|n: nat, d: nat, c: nat|
            d == den * pow2(c) && shift + c >= 0 && n == num * #[trigger] pow2(
                (shift + c) as nat,
            ) implies rounded_digits(fmt, q as nat, exp as int, sticky) == #[trigger] rounded(
            fmt,
            n,
            d,
        ) by {
            let t = if exp < 0 { (-exp) as nat } else { 0 };
            let e = pow2((exp + t) as nat);
            let g = pow2((exp + t + c) as nat);
            lemma_pow2_pos(c);
            lemma_pow2_pos((exp + t + c) as nat);
            lemma_pow2_adds((exp + t) as nat, c);
            lemma_pow2_adds((shift + c) as nat, t);
            lemma_pow2_adds(up as nat, (exp + t + c) as nat);
            assert(n * pow2(t) == top * g) by (nonlinear_arith)
                requires
                    n == num * pow2((shift + c) as nat),
                    top == num * pow2(up as nat),
                    pow2((shift + c) as nat) * pow2(t) == pow2(up as nat) * g,
            ;
            assert(q * e * d == (q * den) * g) by (nonlinear_arith)
                requires
                    d == den * pow2(c),
                    e * pow2(c) == g,
            ;
            assert((q + 1) * e * d == (q * den) * g + den * g) by (nonlinear_arith)
                requires
                    d == den * pow2(c),
                    e * pow2(c) == g,
            ;
            assert(top * g == (q * den) * g + rem * g) by (nonlinear_arith)
                requires
                    top == den * q + rem,
            ;
            if sticky {
                assert(0 < rem * g < den * g) by (nonlinear_arith)
                    requires
                        0 < rem < den,
                        g > 0,
                ;
            } else {
                assert(rem * g == 0) by (nonlinear_arith)
                    requires
                        rem == 0,
                ;
            }
            assert(d > 0) by (nonlinear_arith)
                requires
                    d == den * pow2(c),
                    den > 0,
                    pow2(c) > 0,
            ;
            lemma_rounded_digits(fmt, n, d, q as nat, exp as int, sticky);
        }
    }
    round_digits(w, q, exp, sticky)
}

/// `a / b`.
pub(crate) fn quotient_of(w: Width, a: Pattern, b: Pattern) -> (r: Pattern)
    ensures
        r.parts() == quotient(w.format(), a.parts(), b.parts()),
{
    let inf: u64 = w.infinity();
    let negative: bool = a.negative != b.negative;
    if a.rest > inf || b.rest > inf {
        return nan_pattern(w);
    }
    if a.rest == inf {
        if b.rest == inf {
            return nan_pattern(w);
        }
        return Pattern { negative, rest: inf };
    }
    if b.rest == inf {
        return Pattern { negative, rest: 0 };
    }
    if b.rest == 0 {
        if a.rest == 0 {
            return nan_pattern(w);
        }
        return Pattern { negative, rest: inf };
    }
    let (ma, ka): (u64, u32) = unpack(w, a.rest);
    let (mb, kb): (u64, u32) = unpack(w, b.rest);
    let ghost fmt = w.format();
    let ghost n = fmt.magnitude(a.rest as nat) * pow2(fmt.unit);
    let ghost d = fmt.magnitude(b.rest as nat);
    proof {
        lemma_pow2_pos(kb as nat);
        assert(d > 0) by (nonlinear_arith)
            requires
                d == mb * pow2(kb as nat),
                mb > 0,
                pow2(kb as nat) > 0,
        ;
    }
    if ma == 0 {
        proof {
            assert(n == 0) by (nonlinear_arith)
                requires
                    n == (ma * pow2(ka as nat)) * pow2(fmt.unit),
                    ma == 0,
            ;
            super::lemmas::lemma_rounded_zero(fmt, d);
        }
        return Pattern { negative, rest: 0 };
    }
    let shift: i32 = ka as i32 + w.unit() as i32 - kb as i32;
    proof {
        lemma_pow2_adds(ka as nat, fmt.unit);
        assert(n == ma * pow2((shift + kb) as nat)) by (nonlinear_arith)
            requires
                n == (ma * pow2(ka as nat)) * pow2(fmt.unit),
                pow2((shift + kb) as nat) == pow2(ka as nat) * pow2(fmt.unit),
        ;
    }
    let rest: u64 = divide(w, ma, shift, mb);
    assert(rest == rounded(fmt, n, d));
    Pattern { negative, rest }
}

/// The fraction `num / den`, negated where `negative`.
pub(crate) fn fraction_of(w: Width, negative: bool, num: u64, den: u64) -> (r: Pattern)
    requires
        den > 0,
    ensures
        r.negative == negative,
        r.rest == rounded(w.format(), (num * pow2(w.format().unit)) as nat, den as nat),
{
    let ghost fmt = w.format();
    if num == 0 {
        proof {
            assert(num * pow2(fmt.unit) == 0) by (nonlinear_arith)
                requires
                    num == 0,
            ;
            super::lemmas::lemma_rounded_zero(fmt, den as nat);
        }
        return Pattern { negative, rest: 0 };
    }
    let shift: i32 = w.unit() as i32;
    let rest: u64 = divide(w, num, shift, den);
    proof {
        lemma2_to64();
        assert(den * pow2(0) == den) by (nonlinear_arith)
            requires
                pow2(0) == 1,
        ;
        assert(rest == rounded(
            fmt,
            (num * pow2((shift + 0) as nat)) as nat,
            (den * pow2(0)) as nat,
        ));
    }
    Pattern { negative, rest }
}

/// The largest integer whose square is at most `x`.
fn square_root(x: u128) -> (r: u64)
    requires
        x < 0x4000_0000_0000_0000_0000_0000_0000_0000,
    ensures
        is_integer_sqrt(x as nat, r as nat),
        r < 0x8000_0000_0000_0000,
{
    let mut lo: u64 = 0;
    let mut hi: u64 = 0x8000_0000_0000_0000;
    assert(lo * lo <= x) by (nonlinear_arith)
        requires
            lo == 0,
    ;
    assert(x < hi * hi) by (nonlinear_arith)
        requires
            hi == 0x8000_0000_0000_0000,
            x < 0x4000_0000_0000_0000_0000_0000_0000_0000,
    ;
    while hi - lo > 1
        invariant
            lo < hi <= 0x8000_0000_0000_0000,
            lo * lo <= x < hi * hi,
        decreases hi - lo,
    {
        let mid: u64 = lo + (hi - lo) / 2;
        assert(mid * mid <= 0x8000_0000_0000_0000 * 0x8000_0000_0000_0000) by (nonlinear_arith)
            requires
                mid <= 0x8000_0000_0000_0000,
        ;
        if mid as u128 * mid as u128 <= x {
            lo = mid;
        } else {
            hi = mid;
        }
    }
    assert(hi == lo + 1);
    lo
}

/// The square root of `a`.
pub(crate) fn root_of(w: Width, a: Pattern) -> (r: Pattern)
    ensures
        r.parts() == root(w.format(), a.parts()),
{
    let inf: u64 = w.infinity();
    if a.rest > inf {
        return nan_pattern(w);
    }
    if a.rest == 0 {
        return a;
    }
    if a.negative {
        return nan_pattern(w);
    }
    if a.rest == inf {
        return a;
    }
    let (m, k): (u64, u32) = unpack(w, a.rest);
    let total: i32 = k as i32 + w.unit() as i32;
    let ghost fmt = w.format();
    let mut top: u128 = m as u128;
    let mut up: i32 = 0;
    proof {
        lemma2_to64();
        lemma2_to64_rest();
        assert(m * pow2(0) == m) by (nonlinear_arith)
            requires
                pow2(0) == 1,
        ;
    }
    while top < 0x1000_0000_0000_0000_0000_0000_0000_0000
        invariant
            0 <= up <= 124,
            m > 0,
            top == m * pow2(up as nat),
            0 < top < 0x2000_0000_0000_0000_0000_0000_0000_0000,
            pow2(64) == 0x1_0000_0000_0000_0000,
            pow2(60) == 0x1000_0000_0000_0000,
        decreases 124 - up,
    {
        proof {
            lemma_pow2_unfold((up + 1) as nat);
            assert(m * (2 * pow2(up as nat)) == 2 * (m * pow2(up as nat))) by (nonlinear_arith);
            if up >= 124 {
                lemma_pow2_adds(64, 60);
                lemma_pow2_monotone(124, up as nat);
                assert(m * pow2(up as nat) >= pow2(up as nat)) by (nonlinear_arith)
                    requires
                        m >= 1,
                ;
            }
        }
        top = top * 2;
        up = up + 1;
    }
    if (total - up) % 2 == 1 {
        proof {
            lemma_pow2_unfold((up + 1) as nat);
            assert(m * (2 * pow2(up as nat)) == 2 * (m * pow2(up as nat))) by (nonlinear_arith);
        }
        top = top * 2;
        up = up + 1;
    }
    let exp: i32 = (total - up) / 2;
    let mant: u64 = square_root(top);
    let sticky: bool = {
        assert(mant * mant <= 0x8000_0000_0000_0000 * 0x8000_0000_0000_0000) by (nonlinear_arith)
            requires
                mant <= 0x8000_0000_0000_0000,
        ;
        mant as u128 * mant as u128 != top
    };
    proof {
        let n = (fmt.magnitude(a.rest as nat) * pow2(fmt.unit)) as nat;
        let e = pow2(exp as nat);
        assert(total == up + 2 * exp);
        lemma_pow2_adds(k as nat, fmt.unit);
        lemma_pow2_adds(up as nat, (2 * exp) as nat);
        lemma_pow2_adds(exp as nat, exp as nat);
        assert(n == top * (e * e)) by (nonlinear_arith)
            requires
                n == (m * pow2(k as nat)) * pow2(fmt.unit),
                pow2(k as nat) * pow2(fmt.unit) == pow2(up as nat) * (e * e),
                top == m * pow2(up as nat),
        ;
        assert((mant * e) * (mant * e) == (mant * mant) * (e * e)) by (nonlinear_arith);
        assert(((mant + 1) * e) * ((mant + 1) * e) == ((mant + 1) * (mant + 1)) * (e * e))
            by (nonlinear_arith);
        lemma_pow2_pos(exp as nat);
        let ee = e * e;
        assert(ee > 0) by (nonlinear_arith)
            requires
                ee == e * e,
                e > 0,
        ;
        let sq = mant * mant;
        let sq1 = (mant + 1) * (mant + 1);
        assert(sq * ee <= top * ee) by (nonlinear_arith)
            requires
                sq <= top,
                ee > 0,
        ;
        assert(top * ee < sq1 * ee) by (nonlinear_arith)
            requires
                top < sq1,
                ee > 0,
        ;
        if sticky {
            assert(sq * ee < top * ee) by (nonlinear_arith)
                requires
                    sq < top,
                    ee > 0,
            ;
        }
        assert(mant >= 0x4000_0000_0000_0000 - 1) by (nonlinear_arith)
            requires
                top >= 0x1000_0000_0000_0000_0000_0000_0000_0000,
                top < (mant + 1) * (mant + 1),
        ;
        lemma_bit_length_bounds(mant as nat);
        if bit_length(mant as nat) < 61 {
            lemma_pow2_monotone(bit_length(mant as nat), 60);
        }
        lemma_rounded_sqrt_digits(fmt, n, mant as nat, exp as nat, sticky);
    }
    Pattern { negative: false, rest: round_digits(w, mant as u128, exp, sticky) }
}

/// The nearest integer to a finite double, a tie away from zero, kept within
/// the range of `i32`; zero for NaN.
pub(crate) fn nearest_i32(a: Pattern) -> (r: i32)
    ensures
        r == super::format::saturated(
            binary64(),
            a.parts(),
            i32::MIN as int,
            i32::MAX as int,
        ),
{
    let w = Width::Double;
    let inf: u64 = w.infinity();
    let ghost fmt = binary64();
    if a.rest > inf {
        return 0;
    }
    if a.rest == inf {
        return if a.negative { i32::MIN } else { i32::MAX };
    }
    let (m, k): (u64, u32) = unpack(w, a.rest);
    let ghost v = fmt.magnitude(a.rest as nat);
    let ghost one = pow2(1074);
    let ghost whole = (2 * v + one) / (2 * one);
    proof {
        lemma2_to64();
        lemma2_to64_rest();
        lemma_pow2_pos(1074);
        lemma_pow2_pos(k as nat);
        lemma_fundamental_div_mod((2 * v + one) as int, (2 * one) as int);
    }
    if k >= 1074 {
        // At least two to the power 52.
        proof {
            lemma_pow2_monotone(1074, k as nat);
            assert(v >= 0x10_0000_0000_0000 * one) by (nonlinear_arith)
                requires
                    v == m * pow2(k as nat),
                    m >= 0x10_0000_0000_0000,
                    pow2(k as nat) >= one,
            ;
            let rem = (2 * v + one) % (2 * one);
            assert(whole >= 0x10_0000_0000_0000) by (nonlinear_arith)
                requires
                    2 * v + one == (2 * one) * whole + rem,
                    rem < 2 * one,
                    v >= 0x10_0000_0000_0000 * one,
                    one > 0,
            ;
        }
        return if a.negative { i32::MIN } else { i32::MAX };
    }
    let s: u32 = 1074 - k;
    proof {
        lemma_pow2_adds(s as nat, k as nat);
        lemma_pow2_unfold(s as nat);
    }
    let ghost half = pow2((s - 1) as nat);
    let n: u64 = if s > 60 {
        // Less than a half.
        proof {
            lemma_pow2_monotone(60, (s - 1) as nat);
            assert(2 * v < one) by (nonlinear_arith)
                requires
                    v == m * pow2(k as nat),
                    2 * m < 2 * half,
                    one == (2 * half) * pow2(k as nat),
                    pow2(k as nat) > 0,
            ;
            lemma_fundamental_div_mod_converse(
                (2 * v + one) as int,
                (2 * one) as int,
                0,
                (2 * v + one) as int,
            );
        }
        0
    } else {
        let p: u128 = power_of_two(s);
        let h: u128 = power_of_two(s - 1);
        proof {
            lemma_pow2_monotone(s as nat, 60);
            lemma_pow2_pos(s as nat);
        }
        let q: u128 = (m as u128 + h) / p;
        proof {
            let rem = (m + h) % (p as int);
            lemma_fundamental_div_mod((m + h) as int, p as int);
            assert(q <= m + h) by (nonlinear_arith)
                requires
                    m + h == p * q + rem,
                    rem >= 0,
                    p >= 1,
                    q >= 0,
            ;
            let g = 2 * pow2(k as nat);
            assert(2 * v + one == (2 * one) * q + rem * g) by (nonlinear_arith)
                requires
                    v == m * pow2(k as nat),
                    one == p * pow2(k as nat),
                    p == 2 * h,
                    m + h == p * q + rem,
                    g == 2 * pow2(k as nat),
            ;
            assert(0 <= rem * g < 2 * one) by (nonlinear_arith)
                requires
                    0 <= rem < p,
                    one == p * pow2(k as nat),
                    g == 2 * pow2(k as nat),
                    pow2(k as nat) > 0,
            ;
            assert((2 * one) * q == q * (2 * one)) by (nonlinear_arith);
            lemma_fundamental_div_mod_converse(
                (2 * v + one) as int,
                (2 * one) as int,
                q as int,
                rem * g,
            );
        }
        q as u64
    };
    assert(n == whole);
    if a.negative {
        if n > 0x8000_0000 {
            i32::MIN
        } else {
            (-(n as i64)) as i32
        }
    } else if n > 0x7fff_ffff {
        i32::MAX
    } else {
        n as i32
    }
}

/// The hundredths of a finite value without its sign, rounded half to even:
/// the whole part, and what is left of it.
pub(crate) fn hundredths(x: super::Float32) -> (r: (u128, u8))
    requires
        x.finite(),
    ensures
        ({
            let n = super::format::nearest_even(
                100 * binary32().magnitude(x.parts().rest),
                pow2(149),
            );
            r.0 == n / 100 && r.1 == n % 100
        }),
        r.1 < 100,
{
    let w = Width::Single;
    proof {
        lemma2_to64();
        lemma2_to64_rest();
    }
    let (m, k): (u64, u32) = unpack(w, (x.bits % 0x8000_0000) as u64);
    let ghost v = (100 * binary32().magnitude(x.parts().rest)) as nat;
    let ghost one = pow2(149);
    proof {
        lemma_pow2_pos(149);
        lemma_pow2_pos(k as nat);
        lemma_fundamental_div_mod(v as int, one as int);
    }
    if k >= 149 {
        let up: u32 = k - 149;
        let p: u128 = power_of_two(up);
        proof {
            lemma_pow2_adds(up as nat, 149);
            lemma_pow2_monotone(up as nat, 104);
            lemma_pow2_adds(64, 40);
            assert(m * p <= 0xff_ffff * 0x100_0000_0000_0000_0000_0000_0000) by (nonlinear_arith)
                requires
                    m <= 0xff_ffff,
                    p <= 0x100_0000_0000_0000_0000_0000_0000,
            ;
            let whole = m * p;
            assert(v == (100 * whole) * one + 0) by (nonlinear_arith)
                requires
                    v == 100 * (m * pow2(k as nat)),
                    pow2(k as nat) == p * one,
                    whole == m * p,
            ;
            lemma_fundamental_div_mod_converse(v as int, one as int, 100 * whole, 0);
        }
        return (m as u128 * p, 0);
    }
    let s: u32 = 149 - k;
    let n: u64 = if s >= 40 {
        proof {
            // Less than half a hundredth.
            lemma_pow2_adds(s as nat, k as nat);
            lemma_pow2_monotone(40, s as nat);
            assert(2 * v < one) by (nonlinear_arith)
                requires
                    v == 100 * (m * pow2(k as nat)),
                    one == pow2(s as nat) * pow2(k as nat),
                    pow2(s as nat) >= 0x100_0000_0000,
                    m < 0x100_0000,
                    pow2(k as nat) > 0,
            ;
            lemma_fundamental_div_mod_converse(v as int, one as int, 0, v as int);
        }
        0
    } else {
        let p: u128 = power_of_two(s);
        proof {
            lemma_pow2_adds(s as nat, k as nat);
            lemma_pow2_monotone(s as nat, 40);
            lemma_pow2_pos(s as nat);
        }
        let big: u128 = m as u128 * 100;
        let q: u128 = big / p;
        let r: u128 = big % p;
        proof {
            let e = pow2(k as nat);
            lemma_fundamental_div_mod(big as int, p as int);
            assert(v == q * one + r * e) by (nonlinear_arith)
                requires
                    v == 100 * (m * e),
                    big == m * 100,
                    big == p * q + r,
                    one == p * e,
            ;
            assert(0 <= r * e < one) by (nonlinear_arith)
                requires
                    0 <= r < p,
                    one == p * e,
                    e > 0,
            ;
            lemma_fundamental_div_mod_converse(v as int, one as int, q as int, r * e);
            assert(2 * (r * e) > one <==> 2 * r > p) by (nonlinear_arith)
                requires
                    one == p * e,
                    e > 0,
            ;
            assert(2 * (r * e) == one <==> 2 * r == p) by (nonlinear_arith)
                requires
                    one == p * e,
                    e > 0,
            ;
            assert(q <= big) by (nonlinear_arith)
                requires
                    big == p * q + r,
                    r >= 0,
                    p >= 1,
                    q >= 0,
            ;
        }
        if 2 * r > p || (2 * r == p && q % 2 == 1) {
            (q + 1) as u64
        } else {
            q as u64
        }
    };
    ((n / 100) as u128, (n % 100) as u8)
}

} // verus!
