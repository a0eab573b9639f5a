//! That rounding goes to the nearest representable value, and what follows
//! from it.
use super::format::{
    bit_length, dropped_digits, nearest_even, packed, rounded, Format,
};
use super::lemmas::{
    lemma_bit_length_bounds, lemma_bit_length_is, lemma_div_mod_are, lemma_magnitude_monotone,
    lemma_packed_magnitude, lemma_pow2_monotone,
};
use vstd::arithmetic::div_mod::lemma_fundamental_div_mod;
use vstd::arithmetic::power2::{
    lemma2_to64, lemma_pow2_adds, lemma_pow2_pos, lemma_pow2_unfold, pow2,
};
use vstd::prelude::*;

verus! {

/// The pattern nearest to `n / d`, before it is held against infinity.
pub open spec fn unlimited(fmt: Format, n: nat, d: nat) -> nat {
    let k = dropped_digits(fmt, bit_length(n / d) as int);
    k * fmt.hidden() + nearest_even(n, d * pow2(k))
}

/// What `nearest_even` is off by; at a tie it is even.
pub proof fn lemma_nearest_even_error(n: nat, d: nat)
    requires
        d > 0,
    ensures
        2 * (n - nearest_even(n, d) * d) <= d,
        2 * (nearest_even(n, d) * d - n) <= d,
        2 * (n - nearest_even(n, d) * d) == d ==> nearest_even(n, d) % 2 == 0,
        2 * (nearest_even(n, d) * d - n) == d ==> nearest_even(n, d) % 2 == 0,
{
    let q = n / d;
    let r = n % d;
    lemma_fundamental_div_mod(n as int, d as int);
    assert(q * d == d * q) by (nonlinear_arith);
    assert((q + 1) * d == d * q + d) by (nonlinear_arith);
}

/// The digits that rounding keeps.
pub proof fn lemma_shape(fmt: Format, n: nat, d: nat) -> (r: (nat, nat))
    requires
        d > 0,
        fmt.prec >= 1,
    ensures
        r.0 == dropped_digits(fmt, bit_length(n / d) as int),
        r.1 == nearest_even(n, d * pow2(r.0)),
        r.1 <= 2 * fmt.hidden(),
        r.0 > 0 ==> r.1 >= fmt.hidden(),
        r.0 > 0 ==> n >= fmt.hidden() * (d * pow2(r.0)),
        fmt.magnitude(unlimited(fmt, n, d)) == r.1 * pow2(r.0),
        d * pow2(r.0) > 0,
        2 * (n - r.1 * (d * pow2(r.0))) <= d * pow2(r.0),
        2 * (r.1 * (d * pow2(r.0)) - n) <= d * pow2(r.0),
{
    let a = n / d;
    let k = dropped_digits(fmt, bit_length(a) as int);
    let u = pow2(k);
    let h = fmt.hidden();
    let step = d * u;
    let q = nearest_even(n, step);
    lemma_pow2_pos(k);
    lemma_pow2_pos((fmt.prec - 1) as nat);
    lemma_pow2_unfold(fmt.prec);
    assert(step > 0) by (nonlinear_arith)
        requires
            step == d * u,
            d > 0,
            u > 0,
    ;
    lemma_nearest_even_error(n, step);
    lemma_fundamental_div_mod(n as int, d as int);
    lemma_fundamental_div_mod(n as int, step as int);
    let q0 = n / step;
    let bl = bit_length(a);
    if k > 0 {
        lemma_bit_length_bounds_of(a);
        assert(bl == fmt.prec + k);
        lemma_pow2_adds((fmt.prec - 1) as nat, k);
        lemma_pow2_adds(fmt.prec, k);
        assert(h * u <= a < (2 * h) * u);
        assert(n >= h * step) by (nonlinear_arith)
            requires
                n == d * a + n % d,
                n % d >= 0,
                a >= h * u,
                step == d * u,
                d > 0,
        ;
        assert(n < (2 * h) * step) by (nonlinear_arith)
            requires
                n == d * a + n % d,
                n % d < d,
                a + 1 <= (2 * h) * u,
                step == d * u,
                d > 0,
        ;
        assert(h <= q0 < 2 * h) by (nonlinear_arith)
            requires
                n == step * q0 + n % step,
                0 <= n % step < step,
                h * step <= n < (2 * h) * step,
                step > 0,
        ;
    } else {
        lemma2_to64();
        assert(step == d) by (nonlinear_arith)
            requires
                step == d * u,
                u == 1,
        ;
        if a > 0 {
            lemma_bit_length_bounds(a);
            lemma_pow2_monotone(bl, fmt.prec);
        }
    }
    lemma_packed_magnitude(fmt, q, k);
    (k, q)
}

proof fn lemma_bit_length_bounds_of(a: nat)
    requires
        bit_length(a) > 0,
    ensures
        pow2((bit_length(a) - 1) as nat) <= a < pow2(bit_length(a)),
{
    if a > 0 {
        lemma_bit_length_bounds(a);
    }
}

/// A magnitude from the binade of `k` on is a whole number of its steps.
pub proof fn lemma_multiple(fmt: Format, b: nat, k: nat) -> (j: nat)
    requires
        fmt.prec >= 1,
        fmt.magnitude(b) >= fmt.hidden() * pow2(k),
    ensures
        fmt.magnitude(b) == j * pow2(k),
{
    let h = fmt.hidden();
    let e = b / h;
    let f = b % h;
    lemma_pow2_pos((fmt.prec - 1) as nat);
    lemma_pow2_pos(k);
    lemma_fundamental_div_mod(b as int, h as int);
    if e == 0 {
        assert(h * pow2(k) >= h) by (nonlinear_arith)
            requires
                pow2(k) >= 1,
                h >= 0,
        ;
        0
    } else {
        let m = (e - 1) as nat;
        if m < k {
            lemma_pow2_monotone(m, (k - 1) as nat);
            lemma_pow2_unfold(k);
            lemma_pow2_pos(m);
            assert((h + f) * pow2(m) < h * pow2(k)) by (nonlinear_arith)
                requires
                    f < h,
                    0 < pow2(m) <= pow2((k - 1) as nat),
                    pow2(k) == 2 * pow2((k - 1) as nat),
            ;
        }
        let s = (m - k) as nat;
        lemma_pow2_adds(s, k);
        let j = (h + f) * pow2(s);
        assert((h + f) * (pow2(s) * pow2(k)) == j * pow2(k)) by (nonlinear_arith)
            requires
                j == (h + f) * pow2(s),
        ;
        j
    }
}

/// Of whole steps, the nearest one is at least as near as any other.
proof fn lemma_nearest_step(n: nat, step: nat, q: nat, j: nat)
    requires
        step > 0,
        2 * (n - q * step) <= step,
        2 * (q * step - n) <= step,
    ensures
        n - q * step <= n - j * step || n - q * step <= j * step - n,
        q * step - n <= n - j * step || q * step - n <= j * step - n,
{
    if j < q {
        assert(j * step + step <= q * step) by (nonlinear_arith)
            requires
                j + 1 <= q,
                step > 0,
        ;
    } else if j > q {
        assert(q * step + step <= j * step) by (nonlinear_arith)
            requires
                q + 1 <= j,
                step > 0,
        ;
    }
}

/// How far apart two numbers are.
pub open spec fn distance(a: nat, b: nat) -> int {
    if a < b {
        b - a
    } else {
        a - b
    }
}

/// No representable magnitude is nearer to `n / d` than the one it is rounded
/// to; both distances are multiplied by `d`.
pub proof fn law_rounding_is_nearest(fmt: Format, n: nat, d: nat, b: nat)
    requires
        d > 0,
        fmt.prec >= 1,
    ensures
        distance(fmt.magnitude(unlimited(fmt, n, d)) * d, n) <= distance(
            fmt.magnitude(b) * d,
            n,
        ),
        rounded(fmt, n, d) == if unlimited(fmt, n, d) < fmt.infinity() {
            unlimited(fmt, n, d)
        } else {
            fmt.infinity()
        },
{
    let (k, q) = lemma_shape(fmt, n, d);
    let u = pow2(k);
    let h = fmt.hidden();
    let step = d * u;
    assert((q * u) * d == q * step) by (nonlinear_arith)
        requires
            step == d * u,
    ;
    let m = fmt.magnitude(b);
    if k > 0 && m < h * u {
        lemma_nearest_step(n, step, q, h);
        assert(m * d <= h * step) by (nonlinear_arith)
            requires
                m < h * u,
                step == d * u,
                d > 0,
        ;
        assert(q * step >= h * step) by (nonlinear_arith)
            requires
                q >= h,
                step > 0,
        ;
    } else {
        let j = if k > 0 {
            lemma_multiple(fmt, b, k)
        } else {
            m
        };
        lemma2_to64();
        assert(m == j * u) by (nonlinear_arith)
            requires
                m == j * u || (m == j && u == 1),
        ;
        assert(m * d == j * step) by (nonlinear_arith)
            requires
                m == j * u,
                step == d * u,
        ;
        lemma_nearest_step(n, step, q, j);
    }
}

/// What is at most a representable magnitude is rounded to at most that, and
/// what is at least one to at least that.
pub proof fn law_rounding_keeps_order(fmt: Format, n: nat, d: nat, b: nat)
    requires
        d > 0,
        fmt.prec >= 1,
        b < fmt.infinity(),
    ensures
        n <= fmt.magnitude(b) * d ==> rounded(fmt, n, d) <= b,
        n >= fmt.magnitude(b) * d ==> rounded(fmt, n, d) >= b,
{
    law_rounding_is_nearest(fmt, n, d, b);
    let p = unlimited(fmt, n, d);
    let m = fmt.magnitude(b);
    if p > b {
        lemma_magnitude_monotone(fmt, b, p);
        assert(fmt.magnitude(p) * d > m * d) by (nonlinear_arith)
            requires
                fmt.magnitude(p) > m,
                d > 0,
        ;
    } else if p < b {
        lemma_magnitude_monotone(fmt, p, b);
        assert(fmt.magnitude(p) * d < m * d) by (nonlinear_arith)
            requires
                fmt.magnitude(p) < m,
                d > 0,
        ;
    }
}

/// A representable magnitude is its own rounding.
pub proof fn law_representable_is_kept(fmt: Format, n: nat, d: nat, b: nat)
    requires
        d > 0,
        fmt.prec >= 1,
        b < fmt.infinity(),
        n == fmt.magnitude(b) * d,
    ensures
        rounded(fmt, n, d) == b,
{
    law_rounding_keeps_order(fmt, n, d, b);
}

/// Rounding a value of full precision is off by at most half a unit in the
/// last place: a fraction of one in two times the weight of the hidden bit.
pub proof fn law_relative_error(fmt: Format, n: nat, d: nat)
    requires
        d > 0,
        fmt.prec >= 1,
        n >= fmt.hidden() * d,
        rounded(fmt, n, d) < fmt.infinity(),
    ensures
        2 * fmt.hidden() * distance(fmt.magnitude(rounded(fmt, n, d)) * d, n) <= n,
{
    law_rounding_is_nearest(fmt, n, d, 0);
    let (k, q) = lemma_shape(fmt, n, d);
    let u = pow2(k);
    let h = fmt.hidden();
    let step = d * u;
    lemma2_to64();
    assert((q * u) * d == q * step) by (nonlinear_arith)
        requires
            step == d * u,
    ;
    assert(n >= h * step) by (nonlinear_arith)
        requires
            n >= h * step || (u == 1 && n >= h * d),
            step == d * u,
    ;
    let off = distance(q * step, n);
    assert(2 * h * off <= n) by (nonlinear_arith)
        requires
            2 * off <= step,
            n >= h * step,
            h >= 0,
            off >= 0,
    ;
}

/// A common factor does not matter.
pub proof fn lemma_common_factor(fmt: Format, n: nat, d: nat, c: nat)
    requires
        d > 0,
        c > 0,
    ensures
        rounded(fmt, n * c, d * c) == rounded(fmt, n, d),
{
    lemma_fundamental_div_mod(n as int, d as int);
    let a = n / d;
    let r = n % d;
    assert(d * c > 0) by (nonlinear_arith)
        requires
            d > 0,
            c > 0,
    ;
    assert(n * c == a * (d * c) + r * c) by (nonlinear_arith)
        requires
            n == d * a + r,
    ;
    assert(r * c < d * c) by (nonlinear_arith)
        requires
            r < d,
            c > 0,
    ;
    lemma_div_mod_are(n * c, d * c, a, r * c);
    let k = dropped_digits(fmt, bit_length(a) as int);
    let step = d * pow2(k);
    lemma_pow2_pos(k);
    assert(step > 0) by (nonlinear_arith)
        requires
            step == d * pow2(k),
            d > 0,
            pow2(k) > 0,
    ;
    assert((d * c) * pow2(k) == step * c) by (nonlinear_arith)
        requires
            step == d * pow2(k),
    ;
    lemma_fundamental_div_mod(n as int, step as int);
    let q = n / step;
    let s = n % step;
    assert(n * c == q * (step * c) + s * c) by (nonlinear_arith)
        requires
            n == step * q + s,
    ;
    assert(s * c < step * c) by (nonlinear_arith)
        requires
            s < step,
            c > 0,
    ;
    lemma_div_mod_are(n * c, step * c, q, s * c);
    assert(2 * (s * c) > step * c <==> 2 * s > step) by (nonlinear_arith)
        requires
            c > 0,
    ;
    assert(2 * (s * c) == step * c <==> 2 * s == step) by (nonlinear_arith)
        requires
            c > 0,
    ;
}

/// From the third binade on, the pattern of half a magnitude is one exponent
/// lower.
pub proof fn lemma_half_pattern(fmt: Format, b: nat)
    requires
        fmt.prec >= 1,
        b >= 2 * fmt.hidden(),
    ensures
        fmt.magnitude(b) == 2 * fmt.magnitude((b - fmt.hidden()) as nat),
{
    let h = fmt.hidden();
    lemma_pow2_pos((fmt.prec - 1) as nat);
    lemma_fundamental_div_mod(b as int, h as int);
    let e = b / h;
    let f = b % h;
    assert(e >= 2) by (nonlinear_arith)
        requires
            b == h * e + f,
            f < h,
            b >= 2 * h,
            h > 0,
            e >= 0,
    ;
    let g = (e - 1) as nat;
    assert(b - h == g * h + f) by (nonlinear_arith)
        requires
            b == h * e + f,
            g == e - 1,
    ;
    lemma_div_mod_are((b - h) as nat, h, g, f);
    lemma_pow2_unfold(g);
    let p = pow2((g - 1) as nat);
    assert((h + f) * (2 * p) == 2 * ((h + f) * p)) by (nonlinear_arith);
}

/// Halving a rounded integer gives what rounding its half gives.
pub proof fn lemma_halving(fmt: Format, n: nat)
    requires
        fmt.prec >= 1,
        rounded(fmt, n, 1) < fmt.infinity(),
    ensures
        rounded(fmt, fmt.magnitude(rounded(fmt, n, 1)), 2) == rounded(fmt, n, 2),
{
    let (k, q) = lemma_shape(fmt, n, 1);
    law_rounding_is_nearest(fmt, n, 1, 0);
    let u = pow2(k);
    let h = fmt.hidden();
    lemma2_to64();
    lemma_fundamental_div_mod(n as int, 1);
    assert(n / 1 == n);
    if k == 0 {
        lemma_div_mod_are(n, 1, n, 0);
        assert(q == n);
        assert(q * u == n) by (nonlinear_arith)
            requires
                q == n,
                u == 1,
        ;
    } else {
        let j = (k - 1) as nat;
        let v = pow2(j);
        lemma_pow2_unfold(k);
        lemma_pow2_pos(j);
        let l = bit_length(n);
        lemma_bit_length_bounds_of(n);
        lemma_pow2_unfold(l);
        lemma_pow2_unfold((l - 1) as nat);
        lemma_bit_length_is(n / 2, (l - 1) as nat);
        assert(dropped_digits(fmt, bit_length(n / 2) as int) == j);
        assert(2 * v == 1 * u);
        assert(rounded(fmt, n, 2) == packed(fmt, q, j));
        let b = j * h + q;
        lemma_packed_magnitude(fmt, q, j);
        assert(q * u == (q * v) * 2) by (nonlinear_arith)
            requires
                u == 2 * v,
        ;
        let full = k * h + q;
        assert(b + h == full) by (nonlinear_arith)
            requires
                b == j * h + q,
                full == k * h + q,
                j == k - 1,
        ;
        law_representable_is_kept(fmt, q * u, 2, b);
    }
}

} // verus!
