//! Single-precision arithmetic on numbers of few digits, where it is the
//! arithmetic of the integers.
use super::format::{
    absolute, binary32, bit_length, dropped_digits, integer_sqrt, rounded, rounded_sqrt,
    Format, Parts,
};
use super::lemmas::{
    lemma_bit_length_bounds, lemma_exact, lemma_integer_sqrt_exists, lemma_magnitude_monotone,
    lemma_packed_magnitude, lemma_pow2_monotone, lemma_rounded_bound, lemma_rounded_zero,
};
use super::nearest::{law_representable_is_kept, lemma_multiple};
use super::Float32;
use vstd::arithmetic::div_mod::lemma_fundamental_div_mod;
use vstd::arithmetic::power2::{
    lemma2_to64, lemma2_to64_rest, lemma_pow2_adds, lemma_pow2_pos, lemma_pow2_unfold, pow2,
};
use vstd::prelude::*;

verus! {

/// The square root of `n`, rounded, is at most a representable number where
/// `n` is at most its square, and at least one where `n` is at least that.
pub proof fn law_root_keeps_order(fmt: Format, n: nat, b: nat)
    requires
        fmt.prec >= 1,
        b < fmt.infinity(),
    ensures
        n <= fmt.magnitude(b) * fmt.magnitude(b) ==> rounded_sqrt(fmt, n) <= b,
        n >= fmt.magnitude(b) * fmt.magnitude(b) ==> rounded_sqrt(fmt, n) >= b,
{
    let m = fmt.magnitude(b);
    let h = fmt.hidden();
    let root = integer_sqrt(n);
    let k = dropped_digits(fmt, bit_length(root) as int);
    let u = pow2(k);
    let f = root / u;
    lemma_integer_sqrt_exists(n);
    lemma_pow2_pos(k);
    lemma_pow2_pos((fmt.prec - 1) as nat);
    lemma_pow2_unfold(fmt.prec);
    lemma2_to64();
    lemma_fundamental_div_mod(root as int, u as int);
    let twice = (2 * f + 1) * u;
    let up = 4 * n > twice * twice || (4 * n == twice * twice && f % 2 == 1);
    let g = if up {
        f + 1
    } else {
        f
    };
    assert(f * u <= root < (f + 1) * u) by (nonlinear_arith)
        requires
            root == u * f + root % u,
            0 <= root % u < u,
    ;
    if root > 0 {
        lemma_bit_length_bounds(root);
    }
    if k > 0 {
        lemma_pow2_adds((fmt.prec - 1) as nat, k);
        lemma_pow2_adds(fmt.prec, k);
        assert(h <= f < 2 * h) by (nonlinear_arith)
            requires
                h * u <= root < (2 * h) * u,
                f * u <= root < (f + 1) * u,
                u > 0,
        ;
    } else {
        if root > 0 {
            lemma_pow2_monotone(bit_length(root), fmt.prec);
        }
        assert(f == root) by (nonlinear_arith)
            requires
                root == u * f + root % u,
                0 <= root % u < u,
                u == 1,
        ;
    }
    lemma_packed_magnitude(fmt, g, k);
    let p = k * h + g;
    assert(fmt.magnitude(p) == g * u);
    if n <= m * m {
        assert(root <= m) by (nonlinear_arith)
            requires
                root * root <= n <= m * m,
        ;
        if up {
            assert(twice <= 2 * m) by (nonlinear_arith)
                requires
                    twice * twice <= 4 * n,
                    n <= m * m,
                    m >= 0,
                    twice >= 0,
            ;
        }
        let j = lemma_steps(fmt, b, k, f);
        assert(g * u <= m) by (nonlinear_arith)
            requires
                m == j * u,
                f * u <= m,
                g == f || (g == f + 1 && (2 * f + 1) * u <= 2 * m),
                u > 0,
        ;
        if p > b {
            lemma_magnitude_monotone(fmt, b, p);
        }
    }
    if n >= m * m {
        assert(root >= m) by (nonlinear_arith)
            requires
                n < (root + 1) * (root + 1),
                n >= m * m,
        ;
        if p < b {
            lemma_magnitude_monotone(fmt, p, b);
            assert(f * u <= g * u) by (nonlinear_arith)
                requires
                    f <= g,
                    u > 0,
            ;
            let j = lemma_steps(fmt, b, k, f);
            assert(false) by (nonlinear_arith)
                requires
                    m == j * u,
                    g * u < m,
                    m <= root,
                    root < (f + 1) * u,
                    f <= g,
                    u > 0,
            ;
        }
    }
}

/// A magnitude that is at least `f` steps of a binade is a whole number of
/// them.
proof fn lemma_steps(fmt: Format, b: nat, k: nat, f: nat) -> (j: nat)
    requires
        fmt.prec >= 1,
        k > 0 ==> f >= fmt.hidden(),
        f * pow2(k) <= fmt.magnitude(b),
    ensures
        fmt.magnitude(b) == j * pow2(k),
{
    lemma2_to64();
    lemma_pow2_pos(k);
    if k > 0 {
        assert(fmt.hidden() * pow2(k) <= f * pow2(k)) by (nonlinear_arith)
            requires
                fmt.hidden() <= f,
                pow2(k) > 0,
        ;
        lemma_multiple(fmt, b, k)
    } else {
        assert(fmt.magnitude(b) * pow2(k) == fmt.magnitude(b)) by (nonlinear_arith)
            requires
                pow2(k) == 1,
        ;
        fmt.magnitude(b)
    }
}

impl Float32 {
    /// The number is `n` times two to the power `e`, counted in units of the
    /// smallest subnormal; so at 149 it is the integer `n`, at 148 that many
    /// halves.
    pub open spec fn exactly(self, n: int, e: nat) -> bool {
        self.finite() && self.units() == n * pow2(e)
    }

    /// Numbers of up to 24 binary digits are represented.
    pub proof fn lemma_represented(n: int, e: nat) -> (c: Float32)
        requires
            -0x100_0000 < n < 0x100_0000,
            24 <= e <= 200,
        ensures
            c.exactly(n, e),
            c.parts().negative == (n < 0),
            c.size() == absolute(n) * pow2(e),
    {
        let m = absolute(n);
        let v = (m * pow2(e)) as nat;
        let p = Parts { negative: n < 0, rest: rounded(binary32(), v, 1) };
        let c = Self::from_parts(p);
        Self::lemma_limits();
        Self::lemma_zero_size();
        lemma_rounded_bound();
        lemma2_to64();
        lemma2_to64_rest();
        if m == 0 {
            assert(v == 0) by (nonlinear_arith)
                requires
                    v == m * pow2(e),
                    m == 0,
            ;
            lemma_rounded_zero(binary32(), 1);
            assert(n * pow2(e) == 0) by (nonlinear_arith)
                requires
                    n == 0,
            ;
        } else {
            lemma_bit_length_bounds(m);
            if bit_length(m) > 24 {
                lemma_pow2_monotone(24, (bit_length(m) - 1) as nat);
            }
            assert(v == m * pow2(e) * 1);
            lemma_exact(binary32(), v, 1, m, e);
            assert(n * pow2(e) == if n < 0 { -(v as int) } else { v as int })
                by (nonlinear_arith)
                requires
                    v == m * pow2(e),
                    m == if n < 0 { -n } else { n },
            ;
        }
        c
    }

    /// What the size and the sign of a number of few digits are.
    proof fn lemma_size_of(a: Float32, n: int, e: nat)
        requires
            a.exactly(n, e),
        ensures
            a.size() == absolute(n) * pow2(e),
            n != 0 ==> a.parts().negative == (n < 0),
            n == 0 <==> a.parts().rest == 0,
    {
        lemma_pow2_pos(e);
        assert(n > 0 ==> n * pow2(e) > 0) by (nonlinear_arith)
            requires
                pow2(e) > 0,
        ;
        assert(n < 0 ==> n * pow2(e) < 0) by (nonlinear_arith)
            requires
                pow2(e) > 0,
        ;
        assert(n == 0 ==> n * pow2(e) == 0) by (nonlinear_arith);
        assert(absolute(n) * pow2(e) == if n < 0 { -(n * pow2(e)) } else { n * pow2(e) })
            by (nonlinear_arith)
            requires
                absolute(n) == if n < 0 { -n } else { n },
        ;
        Self::lemma_zero_size();
        if a.size() == 0 {
            Self::lemma_size_zero(a);
        }
    }

    /// The same number counted in smaller steps.
    pub proof fn law_finer(a: Float32, n: int, e: nat, k: nat)
        requires
            a.exactly(n, e + k),
        ensures
            a.exactly(n * pow2(k), e),
    {
        lemma_pow2_adds(k, e);
        assert(n * (pow2(k) * pow2(e)) == (n * pow2(k)) * pow2(e)) by (nonlinear_arith);
    }

    pub proof fn law_whole_sum(a: Float32, b: Float32, n: int, m: int, e: nat)
        requires
            a.exactly(n, e),
            b.exactly(m, e),
            -0x100_0000 < n + m < 0x100_0000,
            24 <= e <= 200,
        ensures
            a.sum(b).exactly(n + m, e),
    {
        let c = Self::lemma_represented(n + m, e);
        assert((n + m) * pow2(e) == n * pow2(e) + m * pow2(e)) by (nonlinear_arith);
        Self::law_representable_sum(a, b, c);
    }

    pub proof fn law_whole_difference(a: Float32, b: Float32, n: int, m: int, e: nat)
        requires
            a.exactly(n, e),
            b.exactly(m, e),
            -0x100_0000 < n - m < 0x100_0000,
            24 <= e <= 200,
        ensures
            a.difference(b).exactly(n - m, e),
    {
        let c = Self::lemma_represented(n - m, e);
        assert((n - m) * pow2(e) == n * pow2(e) - m * pow2(e)) by (nonlinear_arith);
        Self::law_representable_difference(a, b, c);
    }

    pub proof fn law_whole_product(a: Float32, b: Float32, n: int, m: int, e: nat, f: nat)
        requires
            a.exactly(n, e),
            b.exactly(m, f),
            -0x100_0000 < n * m < 0x100_0000,
            24 + 149 <= e + f <= 200 + 149,
        ensures
            a.product(b).exactly(n * m, (e + f - 149) as nat),
    {
        let g = (e + f - 149) as nat;
        let c = Self::lemma_represented(n * m, g);
        Self::lemma_size_of(a, n, e);
        Self::lemma_size_of(b, m, f);
        Self::lemma_limits();
        lemma_rounded_bound();
        lemma_pow2_pos(149);
        lemma_pow2_adds(e, f);
        lemma_pow2_adds(g, 149);
        let (x, y) = (absolute(n), absolute(m));
        assert(absolute(n * m) == x * y) by (nonlinear_arith)
            requires
                x == if n < 0 { -n } else { n },
                y == if m < 0 { -m } else { m },
                absolute(n * m) == if n * m < 0 { -(n * m) } else { n * m },
        ;
        assert((x * pow2(e)) * (y * pow2(f)) == (x * y) * (pow2(e) * pow2(f)))
            by (nonlinear_arith);
        assert((x * y) * (pow2(g) * pow2(149)) == ((x * y) * pow2(g)) * pow2(149))
            by (nonlinear_arith);
        reveal(Float32::product);
        law_representable_is_kept(
            binary32(),
            a.size() * b.size(),
            pow2(149),
            c.parts().rest,
        );
        assert(n * m < 0 <==> (n < 0 && m > 0) || (n > 0 && m < 0)) by (nonlinear_arith);
        assert(n * m == 0 <==> n == 0 || m == 0) by (nonlinear_arith);
        let p = a.product(b);
        assert(p.parts().rest == c.parts().rest);
        Self::lemma_zero_size();
        Self::lemma_size_of(c, n * m, g);
    }

    pub proof fn law_whole_quotient(a: Float32, b: Float32, q: int, m: int, e: nat, f: nat)
        requires
            a.exactly(q * m, e),
            b.exactly(m, f),
            m != 0,
            -0x100_0000 < q < 0x100_0000,
            24 + f <= e + 149 <= 200 + f,
        ensures
            a.quotient(b).exactly(q, (e + 149 - f) as nat),
    {
        let g = (e + 149 - f) as nat;
        let c = Self::lemma_represented(q, g);
        Self::lemma_size_of(a, q * m, e);
        Self::lemma_size_of(b, m, f);
        Self::lemma_limits();
        lemma_rounded_bound();
        lemma_pow2_pos(f);
        lemma_pow2_adds(e, 149);
        lemma_pow2_adds(g, f);
        let (x, y) = (absolute(q), absolute(m));
        assert(absolute(q * m) == x * y) by (nonlinear_arith)
            requires
                x == if q < 0 { -q } else { q },
                y == if m < 0 { -m } else { m },
                absolute(q * m) == if q * m < 0 { -(q * m) } else { q * m },
        ;
        assert(((x * y) * pow2(e)) * pow2(149) == (x * y) * (pow2(e) * pow2(149)))
            by (nonlinear_arith);
        assert((x * y) * (pow2(g) * pow2(f)) == (x * pow2(g)) * (y * pow2(f)))
            by (nonlinear_arith);
        assert(b.size() > 0) by (nonlinear_arith)
            requires
                b.size() == y * pow2(f),
                y > 0,
                pow2(f) > 0,
        ;
        reveal(Float32::quotient);
        law_representable_is_kept(
            binary32(),
            a.size() * pow2(149),
            b.size(),
            c.parts().rest,
        );
        assert(q * m < 0 <==> (q < 0 && m > 0) || (q > 0 && m < 0)) by (nonlinear_arith);
        assert(q * m == 0 <==> q == 0 || m == 0) by (nonlinear_arith);
        Self::lemma_zero_size();
        Self::lemma_size_of(c, q, g);
    }

    /// One and minus one are neutral, but for the sign.
    pub proof fn law_times_sign(a: Float32, sense: int)
        requires
            a.finite(),
            sense == 1 || sense == -1,
        ensures
            a.product(Self::nearest(sense, 1)).finite(),
            a.product(Self::nearest(sense, 1)).units() == sense * a.units(),
    {
        let one = Self::nearest(sense, 1);
        Self::law_integers_are_exact(sense);
        Self::lemma_size_of(one, sense, 149);
        Self::lemma_limits();
        lemma_rounded_bound();
        lemma_pow2_pos(149);
        assert(absolute(sense) * pow2(149) == pow2(149)) by (nonlinear_arith)
            requires
                absolute(sense) == 1,
        ;
        reveal(Float32::product);
        law_representable_is_kept(binary32(), a.size() * pow2(149), pow2(149), a.parts().rest);
        assert(sense * a.units() == if sense == 1 { a.units() } else { -a.units() })
            by (nonlinear_arith)
            requires
                sense == 1 || sense == -1,
        ;
        Self::lemma_zero_size();
    }

    /// The root of a number of few digits, held against another such number,
    /// is held as the square is.
    pub proof fn law_whole_root(a: Float32, b: Float32, n: int, r: int, e: nat, g: nat)
        requires
            a.exactly(n, e),
            b.exactly(r, g),
            0 <= n,
            0 <= r < 2048,
            e + 149 == 2 * g,
            100 <= g <= 190,
        ensures
            a.root().at_most(b) <==> n <= r * r,
            a.root().below(b) <==> n < r * r,
            n == r * r ==> a.root().exactly(r, g),
            a.root().finite(),
    {
        let fmt = binary32();
        let x = a.root();
        Self::lemma_size_of(a, n, e);
        Self::lemma_size_of(b, r, g);
        Self::lemma_limits();
        Self::lemma_zero_size();
        lemma_rounded_bound();
        lemma_pow2_pos(g);
        reveal(Float32::root);
        let w = a.size() * pow2(149);
        lemma_pow2_adds(e, 149);
        lemma_pow2_adds(g, g);
        let s = pow2(g) * pow2(g);
        assert(w == n * s) by (nonlinear_arith)
            requires
                w == a.size() * pow2(149),
                a.size() == n * pow2(e),
                pow2(e) * pow2(149) == s,
        ;
        assert((r * pow2(g)) * (r * pow2(g)) == (r * r) * s) by (nonlinear_arith)
            requires
                s == pow2(g) * pow2(g),
        ;
        law_root_keeps_order(fmt, w, b.parts().rest);
        assert(n <= r * r ==> n * s <= (r * r) * s) by (nonlinear_arith)
            requires
                s >= 0,
        ;
        assert(n >= r * r ==> n * s >= (r * r) * s) by (nonlinear_arith)
            requires
                s >= 0,
        ;
        if n == 0 {
            assert(r * r >= 0 && (r * r == 0 <==> r == 0)) by (nonlinear_arith);
        } else {
            Self::lemma_root_finite(a, n, e, w);
            if n > r * r {
                // Past the square by one, the root is past the number by more
                // than a rounding.
                lemma2_to64();
                let c = Self::lemma_represented(r * 4096 + 1, (g - 12) as nat);
                let t = pow2((g - 12) as nat);
                lemma_pow2_adds((g - 12) as nat, 12);
                lemma_pow2_pos((g - 12) as nat);
                let v = c.size();
                assert(v * v <= n * s) by (nonlinear_arith)
                    requires
                        v == (r * 4096 + 1) * t,
                        s == (t * 4096) * (t * 4096),
                        n >= r * r + 1,
                        0 <= r < 2048,
                        t > 0,
                ;
                law_root_keeps_order(fmt, w, c.parts().rest);
                assert(v > b.size()) by (nonlinear_arith)
                    requires
                        v == (r * 4096 + 1) * t,
                        b.size() == r * (t * 4096),
                        t > 0,
                ;
                if c.parts().rest <= b.parts().rest && c.parts().rest != b.parts().rest {
                    lemma_magnitude_monotone(fmt, c.parts().rest, b.parts().rest);
                }
            }
            if n < r * r {
                lemma2_to64();
                let c = Self::lemma_represented(r * 4096 - 1, (g - 12) as nat);
                let t = pow2((g - 12) as nat);
                lemma_pow2_adds((g - 12) as nat, 12);
                lemma_pow2_pos((g - 12) as nat);
                let v = c.size();
                assert(r > 0) by (nonlinear_arith)
                    requires
                        n < r * r,
                        n >= 0,
                        r >= 0,
                ;
                assert(v * v >= n * s) by (nonlinear_arith)
                    requires
                        v == (r * 4096 - 1) * t,
                        s == (t * 4096) * (t * 4096),
                        n <= r * r - 1,
                        0 < r < 2048,
                        t > 0,
                ;
                law_root_keeps_order(fmt, w, c.parts().rest);
                assert(v < b.size()) by (nonlinear_arith)
                    requires
                        v == (r * 4096 - 1) * t,
                        b.size() == r * (t * 4096),
                        t > 0,
                ;
                if b.parts().rest < c.parts().rest {
                    lemma_magnitude_monotone(fmt, b.parts().rest, c.parts().rest);
                }
            }
        }
    }

    /// The root of a finite number is finite.
    proof fn lemma_root_finite(a: Float32, n: int, e: nat, w: nat)
        requires
            a.exactly(n, e),
            n > 0,
            w == a.size() * pow2(149),
            e <= 231,
        ensures
            rounded_sqrt(binary32(), w) < binary32().infinity(),
    {
        let fmt = binary32();
        Self::lemma_limits();
        lemma_pow2_pos(149);
        // The largest finite number is past its own root.
        let top = (fmt.infinity() - 1) as nat;
        let m = fmt.magnitude(top);
        if a.parts().rest < top {
            lemma_magnitude_monotone(fmt, a.parts().rest, top);
        }
        assert(pow2(149) <= m) by {
            let one = Self::lemma_represented(1, 149);
            assert(absolute(1) * pow2(149) == pow2(149)) by (nonlinear_arith)
                requires
                    absolute(1) == 1,
            ;
            if one.parts().rest < top {
                lemma_magnitude_monotone(fmt, one.parts().rest, top);
            }
        }
        assert(w <= m * m) by (nonlinear_arith)
            requires
                w == a.size() * pow2(149),
                a.size() <= m,
                pow2(149) <= m,
        ;
        law_root_keeps_order(fmt, w, top);
    }
}

} // verus!
