//! Why a rounded binary expansion is the correctly rounded exact value.
use super::format::{
    bit_length, dropped_digits, integer_sqrt, is_integer_sqrt, packed, rounded, rounded_sqrt,
    Format,
};
use vstd::arithmetic::div_mod::{lemma_fundamental_div_mod, lemma_fundamental_div_mod_converse};
use vstd::arithmetic::power2::{
    lemma2_to64, lemma_pow2_adds, lemma_pow2_pos, lemma_pow2_strictly_increases,
    lemma_pow2_unfold, pow2,
};
use vstd::prelude::*;

verus! {

pub proof fn lemma_bit_length_bounds(x: nat)
    requires
        x > 0,
    ensures
        bit_length(x) >= 1,
        pow2((bit_length(x) - 1) as nat) <= x < pow2(bit_length(x)),
    decreases x,
{
    lemma2_to64();
    if x / 2 == 0 {
        assert(x == 1);
        assert(bit_length(0) == 0);
    } else {
        lemma_bit_length_bounds(x / 2);
        let l = bit_length(x / 2);
        lemma_pow2_unfold(l);
        lemma_pow2_unfold(l + 1);
    }
}

pub proof fn lemma_pow2_monotone(a: nat, b: nat)
    requires
        a <= b,
    ensures
        pow2(a) <= pow2(b),
{
    if a < b {
        lemma_pow2_strictly_increases(a, b);
    }
}

pub proof fn lemma_bit_length_is(x: nat, l: nat)
    requires
        l >= 1,
        pow2((l - 1) as nat) <= x < pow2(l),
    ensures
        bit_length(x) == l,
{
    lemma_pow2_pos((l - 1) as nat);
    lemma_bit_length_bounds(x);
    let b = bit_length(x);
    if b < l {
        lemma_pow2_monotone(b, (l - 1) as nat);
    }
    if l < b {
        lemma_pow2_monotone(l, (b - 1) as nat);
    }
}

/// An exact positive value, known by its leading binary digits: `mant` units
/// of two to the power `exp`, plus something less than one such unit that is
/// nonzero exactly when `sticky`.
pub open spec fn rounded_digits(fmt: Format, mant: nat, exp: int, sticky: bool) -> nat {
    let k = dropped_digits(fmt, bit_length(mant) + exp);
    if k <= exp {
        packed(fmt, mant * pow2((exp - k) as nat), k)
    } else {
        let s = (k - exp) as nat;
        let f = mant / pow2(s);
        let r = mant % pow2(s);
        let h = pow2((s - 1) as nat);
        let up = r > h || (r == h && (sticky || f % 2 == 1));
        packed(fmt, if up { f + 1 } else { f }, k)
    }
}

/// `n / d` has the leading digits `mant`, `exp` and `sticky`.
pub open spec fn has_digits(n: nat, d: nat, mant: nat, exp: int, sticky: bool) -> bool {
    let t = if exp < 0 { (-exp) as nat } else { 0 };
    let e = pow2((exp + t) as nat);
    let v = n * pow2(t);
    if sticky {
        mant * e * d < v < (mant + 1) * e * d
    } else {
        v == mant * e * d
    }
}

proof fn lemma_floor_length(n: nat, d: nat, mant: nat, exp: int, sticky: bool, fmt: Format)
    requires
        d > 0,
        mant > 0,
        has_digits(n, d, mant, exp, sticky),
    ensures
        dropped_digits(fmt, bit_length(n / d) as int) == dropped_digits(
            fmt,
            bit_length(mant) + exp,
        ),
{
    let t = if exp < 0 { (-exp) as nat } else { 0 };
    let e = pow2((exp + t) as nat);
    let v = n * pow2(t);
    let bl = bit_length(mant);
    lemma_bit_length_bounds(mant);
    lemma_pow2_pos(t);
    lemma_pow2_pos((exp + t) as nat);
    let l = bl + exp;
    let a = n / d;
    lemma_fundamental_div_mod(n as int, d as int);
    // Upper bound, whatever the sign of `l`.
    lemma_pow2_adds(bl, (exp + t) as nat);
    assert(v < pow2(bl) * e * d) by (nonlinear_arith)
        requires
            mant + 1 <= pow2(bl),
            d > 0,
            e > 0,
            v < (mant + 1) * e * d || v == mant * e * d,
    ;
    assert(v < pow2((l + t) as nat) * d) by {
        assert(pow2(bl) * e == pow2((l + t) as nat));
    }
    if l >= 1 {
        lemma_pow2_adds(l as nat, t);
        assert(n < pow2(l as nat) * d) by (nonlinear_arith)
            requires
                n * pow2(t) < pow2(l as nat) * pow2(t) * d,
                pow2(t) > 0,
        ;
        assert(a < pow2(l as nat)) by (nonlinear_arith)
            requires
                n == d * a + n % d,
                0 <= n % d,
                n < pow2(l as nat) * d,
                d > 0,
        ;
        lemma_pow2_adds((bl - 1) as nat, (exp + t) as nat);
        lemma_pow2_adds((l - 1) as nat, t);
        assert(v >= pow2((bl - 1) as nat) * e * d) by (nonlinear_arith)
            requires
                mant >= pow2((bl - 1) as nat),
                d > 0,
                e > 0,
                v >= mant * e * d,
        ;
        assert(pow2((bl - 1) as nat) * e == pow2((l - 1) as nat) * pow2(t));
        assert(n >= pow2((l - 1) as nat) * d) by (nonlinear_arith)
            requires
                n * pow2(t) >= pow2((l - 1) as nat) * pow2(t) * d,
                pow2(t) > 0,
        ;
        assert(a >= pow2((l - 1) as nat)) by (nonlinear_arith)
            requires
                n == d * a + n % d,
                n % d < d,
                n >= pow2((l - 1) as nat) * d,
                d > 0,
        ;
        lemma_bit_length_is(a, l as nat);
    } else {
        lemma_pow2_monotone((l + t) as nat, t);
        assert(n < d) by (nonlinear_arith)
            requires
                n * pow2(t) < pow2((l + t) as nat) * d,
                pow2((l + t) as nat) <= pow2(t),
                pow2(t) > 0,
        ;
        assert(a == 0) by (nonlinear_arith)
            requires
                n == d * a + n % d,
                0 <= n % d,
                n < d,
                a >= 0,
        ;
    }
}

/// `q` and `r` are the quotient and the remainder of `n` by `d`.
pub proof fn lemma_div_mod_are(n: nat, d: nat, q: nat, r: nat)
    requires
        n == q * d + r,
        r < d,
    ensures
        n / d == q,
        n % d == r,
{
    lemma_fundamental_div_mod_converse(n as int, d as int, q as int, r as int);
}

/// Rounding the leading digits of a quotient rounds the quotient.
pub proof fn lemma_rounded_digits(
    fmt: Format,
    n: nat,
    d: nat,
    mant: nat,
    exp: int,
    sticky: bool,
)
    requires
        d > 0,
        mant > 0,
        has_digits(n, d, mant, exp, sticky),
        sticky ==> bit_length(mant) >= fmt.prec + 2,
    ensures
        rounded(fmt, n, d) == rounded_digits(fmt, mant, exp, sticky),
{
    let t = if exp < 0 { (-exp) as nat } else { 0 };
    let e = pow2((exp + t) as nat);
    let v = n * pow2(t);
    lemma_pow2_pos(t);
    lemma_pow2_pos((exp + t) as nat);
    lemma_floor_length(n, d, mant, exp, sticky, fmt);
    let k = dropped_digits(fmt, bit_length(mant) + exp);
    lemma_pow2_pos(k);
    let dd = d * pow2(k);
    assert(dd > 0) by (nonlinear_arith)
        requires
            dd == d * pow2(k),
            d > 0,
            pow2(k) > 0,
    ;
    if k <= exp {
        let m = mant * pow2((exp - k) as nat);
        lemma_pow2_adds((exp - k) as nat, k);
        lemma2_to64();
        assert(n == m * dd + 0) by (nonlinear_arith)
            requires
                n * 1 == mant * e * d,
                e == pow2((exp - k) as nat) * pow2(k),
                m == mant * pow2((exp - k) as nat),
                dd == d * pow2(k),
        ;
        lemma_div_mod_are(n, dd, m, 0);
    } else {
        let s = (k - exp) as nat;
        let p = pow2(s);
        let f = mant / p;
        let r = mant % p;
        let h = pow2((s - 1) as nat);
        lemma_pow2_pos(s);
        lemma_pow2_unfold(s);
        assert(p == 2 * h);
        lemma_fundamental_div_mod(mant as int, p as int);
        lemma_pow2_adds(s, (exp + t) as nat);
        lemma_pow2_adds(k, t);
        assert(p * e == pow2(k) * pow2(t));
        let x = e * d;
        assert(x > 0) by (nonlinear_arith)
            requires
                x == e * d,
                e > 0,
                d > 0,
        ;
        // `v` is `f` steps of `p * x` and a remainder.
        let rho = v - f * (p * x);
        assert(mant * e * d == f * (p * x) + r * x) by (nonlinear_arith)
            requires
                mant == p * f + r,
                x == e * d,
        ;
        assert((mant + 1) * e * d == f * (p * x) + r * x + x) by (nonlinear_arith)
            requires
                mant == p * f + r,
                x == e * d,
        ;
        assert(r * x <= rho < r * x + x);
        assert(r * x + x <= p * x) by (nonlinear_arith)
            requires
                r + 1 <= p,
                x > 0,
        ;
        // The same in units of the divisor.
        let r1 = n - f * dd;
        assert(p * x == dd * pow2(t)) by (nonlinear_arith)
            requires
                p * e == pow2(k) * pow2(t),
                x == e * d,
                dd == d * pow2(k),
        ;
        assert(rho == r1 * pow2(t)) by (nonlinear_arith)
            requires
                rho == n * pow2(t) - f * (p * x),
                p * x == dd * pow2(t),
                r1 == n - f * dd,
        ;
        assert(0 <= r1 < dd) by (nonlinear_arith)
            requires
                0 <= rho < dd * pow2(t),
                rho == r1 * pow2(t),
                pow2(t) > 0,
        ;
        assert(rho >= 0) by (nonlinear_arith)
            requires
                rho >= r * x,
                r >= 0,
                x > 0,
        ;
        lemma_div_mod_are(n, dd, f, r1 as nat);
        // Halves compare alike.
        assert(2 * h * x == dd * pow2(t)) by (nonlinear_arith)
            requires
                p == 2 * h,
                p * x == dd * pow2(t),
        ;
        if r < h {
            assert(rho < h * x) by (nonlinear_arith)
                requires
                    rho < r * x + x,
                    r + 1 <= h,
                    x > 0,
            ;
            assert(2 * r1 < dd) by (nonlinear_arith)
                requires
                    rho == r1 * pow2(t),
                    rho < h * x,
                    2 * h * x == dd * pow2(t),
                    pow2(t) > 0,
            ;
        } else if r > h || sticky {
            assert(rho > h * x) by (nonlinear_arith)
                requires
                    rho >= r * x,
                    r > h || (r == h && rho > r * x),
                    x > 0,
            ;
            assert(2 * r1 > dd) by (nonlinear_arith)
                requires
                    rho == r1 * pow2(t),
                    rho > h * x,
                    2 * h * x == dd * pow2(t),
                    pow2(t) > 0,
            ;
        } else {
            assert(2 * r1 == dd) by (nonlinear_arith)
                requires
                    rho == r1 * pow2(t),
                    rho == h * x,
                    2 * h * x == dd * pow2(t),
                    pow2(t) > 0,
            ;
        }
    }
}

/// There is only one integer square root.
pub proof fn law_one_integer_sqrt(n: nat, a: nat, b: nat)
    requires
        is_integer_sqrt(n, a),
        is_integer_sqrt(n, b),
    ensures
        a == b,
{
    if a < b {
        assert((a + 1) * (a + 1) <= b * b) by (nonlinear_arith)
            requires
                a + 1 <= b,
        ;
    }
    if b < a {
        assert((b + 1) * (b + 1) <= a * a) by (nonlinear_arith)
            requires
                b + 1 <= a,
        ;
    }
}

pub proof fn lemma_integer_sqrt_exists(n: nat)
    ensures
        is_integer_sqrt(n, integer_sqrt(n)),
{
    lemma_some_integer_sqrt(n);
}

proof fn lemma_some_integer_sqrt(n: nat) -> (r: nat)
    ensures
        is_integer_sqrt(n, r),
    decreases n,
{
    if n == 0 {
        assert(is_integer_sqrt(0, 0)) by (nonlinear_arith);
        0
    } else {
        let r = lemma_some_integer_sqrt((n - 1) as nat);
        if n < (r + 1) * (r + 1) {
            r
        } else {
            assert((r + 1) * (r + 1) < (r + 2) * (r + 2)) by (nonlinear_arith)
                requires
                    r >= 0,
            ;
            r + 1
        }
    }
}

/// Rounding the leading digits of a square root rounds the square root.
pub proof fn lemma_rounded_sqrt_digits(fmt: Format, n: nat, mant: nat, exp: nat, sticky: bool)
    requires
        mant > 0,
        (mant * pow2(exp)) * (mant * pow2(exp)) <= n,
        n < ((mant + 1) * pow2(exp)) * ((mant + 1) * pow2(exp)),
        sticky <==> (mant * pow2(exp)) * (mant * pow2(exp)) < n,
        bit_length(mant) >= fmt.prec + 2,
    ensures
        rounded_sqrt(fmt, n) == rounded_digits(fmt, mant, exp as int, sticky),
{
    let e = pow2(exp);
    let a = integer_sqrt(n);
    lemma_pow2_pos(exp);
    lemma_integer_sqrt_exists(n);
    let m = mant * e;
    assert((mant + 1) * e == m + e) by (nonlinear_arith)
        requires
            m == mant * e,
    ;
    assert(m <= a) by (nonlinear_arith)
        requires
            m * m <= n,
            n < (a + 1) * (a + 1),
            m >= 0,
            a >= 0,
    ;
    assert(a < m + e) by (nonlinear_arith)
        requires
            n < (m + e) * (m + e),
            a * a <= n,
            m >= 0,
            e > 0,
            a >= 0,
    ;
    // Its length.
    let bl = bit_length(mant);
    lemma_bit_length_bounds(mant);
    lemma_pow2_adds((bl - 1) as nat, exp);
    lemma_pow2_adds(bl, exp);
    assert(pow2((bl - 1) as nat) * e <= m) by (nonlinear_arith)
        requires
            pow2((bl - 1) as nat) <= mant,
            m == mant * e,
            e > 0,
    ;
    assert(m + e <= pow2(bl) * e) by (nonlinear_arith)
        requires
            mant + 1 <= pow2(bl),
            m == mant * e,
            e > 0,
    ;
    lemma_bit_length_is(a, bl + exp);
    let k = dropped_digits(fmt, (bl + exp) as int);
    let s = (k - exp) as nat;
    let p = pow2(s);
    let f = mant / p;
    let r = mant % p;
    let h = pow2((s - 1) as nat);
    lemma_pow2_pos(s);
    lemma_pow2_unfold(s);
    lemma_fundamental_div_mod(mant as int, p as int);
    lemma_pow2_adds(s, exp);
    let q = pow2(k);
    assert(q == p * e);
    assert(m == f * q + r * e) by (nonlinear_arith)
        requires
            m == mant * e,
            mant == p * f + r,
            q == p * e,
    ;
    assert(r * e + e <= q) by (nonlinear_arith)
        requires
            r + 1 <= p,
            e > 0,
            q == p * e,
    ;
    assert(r * e >= 0) by (nonlinear_arith)
        requires
            r >= 0,
            e > 0,
    ;
    lemma_div_mod_are(a, q, f, (a - f * q) as nat);
    // The middle of the step, doubled.
    let w = (2 * f + 1) * q;
    let c = f * q + h * e;
    assert(w == 2 * c) by (nonlinear_arith)
        requires
            w == (2 * f + 1) * q,
            c == f * q + h * e,
            q == p * e,
            p == 2 * h,
    ;
    assert(w * w == 4 * (c * c)) by (nonlinear_arith)
        requires
            w == 2 * c,
    ;
    assert(c >= 0) by (nonlinear_arith)
        requires
            c == f * q + h * e,
            f >= 0,
            q >= 0,
            h >= 0,
            e >= 0,
    ;
    if r < h {
        assert(r * e + e <= h * e) by (nonlinear_arith)
            requires
                r + 1 <= h,
                e > 0,
        ;
        assert(n < c * c) by (nonlinear_arith)
            requires
                m + e <= c,
                n < (m + e) * (m + e),
                m >= 0,
                e > 0,
        ;
    } else if r > h {
        assert(r * e > h * e) by (nonlinear_arith)
            requires
                r > h,
                e > 0,
        ;
        assert(n > c * c) by (nonlinear_arith)
            requires
                m > c,
                m * m <= n,
                c >= 0,
        ;
    } else {
        assert(m == c);
    }
}

/// The pattern of `m` units of two to the power `k` stands for them.
pub proof fn lemma_packed_magnitude(fmt: Format, m: nat, k: nat)
    requires
        fmt.prec >= 1,
        m <= 2 * fmt.hidden(),
        k > 0 ==> m >= fmt.hidden(),
    ensures
        fmt.magnitude(k * fmt.hidden() + m) == m * pow2(k),
{
    let h = fmt.hidden();
    lemma_pow2_pos((fmt.prec - 1) as nat);
    lemma2_to64();
    let b = k * h + m;
    if m < h {
        assert(k == 0);
        lemma_div_mod_are(b, h, 0, m);
    } else if m < 2 * h {
        assert(b == (k + 1) * h + (m - h)) by (nonlinear_arith)
            requires
                b == k * h + m,
        ;
        lemma_div_mod_are(b, h, k + 1, (m - h) as nat);
    } else {
        assert(b == (k + 2) * h + 0) by (nonlinear_arith)
            requires
                b == k * h + m,
                m == 2 * h,
        ;
        lemma_div_mod_are(b, h, k + 2, 0);
        lemma_pow2_unfold(k + 1);
        assert(h * (2 * pow2(k)) == (2 * h) * pow2(k)) by (nonlinear_arith);
    }
}

/// Zero rounds to zero.
pub proof fn lemma_rounded_zero(fmt: Format, d: nat)
    requires
        d > 0,
    ensures
        rounded(fmt, 0, d) == 0,
{
    assert(0 * fmt.hidden() == 0) by (nonlinear_arith);
    lemma_div_mod_are(0, d, 0, 0);
    lemma_pow2_pos(0);
    assert(d * pow2(0) > 0) by (nonlinear_arith)
        requires
            d > 0,
            pow2(0) > 0,
    ;
    lemma_div_mod_are(0, d * pow2(0), 0, 0);
}

/// Of two patterns the larger stands for the larger magnitude.
pub proof fn lemma_magnitude_monotone(fmt: Format, a: nat, b: nat)
    requires
        fmt.prec >= 1,
        a < b,
    ensures
        fmt.magnitude(a) < fmt.magnitude(b),
{
    let h = fmt.hidden();
    lemma2_to64();
    lemma_pow2_pos((fmt.prec - 1) as nat);
    lemma_fundamental_div_mod(a as int, h as int);
    lemma_fundamental_div_mod(b as int, h as int);
    let ea = a / h;
    let fa = a % h;
    let eb = b / h;
    let fb = b % h;
    assert(ea <= eb) by (nonlinear_arith)
        requires
            a == h * ea + fa,
            b == h * eb + fb,
            a < b,
            fb < h,
            fa >= 0,
            h > 0,
    ;
    if ea == eb {
        if ea > 0 {
            let p = pow2((ea - 1) as nat);
            lemma_pow2_pos((ea - 1) as nat);
            assert((h + fa) * p < (h + fb) * p) by (nonlinear_arith)
                requires
                    fa < fb,
                    p > 0,
            ;
        }
    } else {
        let q = pow2((eb - 1) as nat);
        lemma_pow2_pos((eb - 1) as nat);
        assert((h + fb) * q >= h * q) by (nonlinear_arith)
            requires
                fb >= 0,
                q > 0,
        ;
        if ea == 0 {
            assert(h * q >= h) by (nonlinear_arith)
                requires
                    q >= 1,
                    h > 0,
            ;
        } else {
            let p = pow2((ea - 1) as nat);
            lemma_pow2_pos((ea - 1) as nat);
            lemma_pow2_unfold(ea);
            lemma_pow2_monotone(ea, (eb - 1) as nat);
            assert((h + fa) * p < h * (2 * p)) by (nonlinear_arith)
                requires
                    fa < h,
                    p > 0,
            ;
            assert(h * (2 * p) <= h * q) by (nonlinear_arith)
                requires
                    2 * p <= q,
                    h > 0,
            ;
        }
    }
}

pub proof fn lemma_magnitude_injective(fmt: Format, a: nat, b: nat)
    requires
        fmt.prec >= 1,
        a != b,
    ensures
        fmt.magnitude(a) != fmt.magnitude(b),
{
    if a < b {
        lemma_magnitude_monotone(fmt, a, b);
    } else {
        lemma_magnitude_monotone(fmt, b, a);
    }
}

/// Nothing rounds past infinity.
pub proof fn lemma_rounded_bound()
    ensures
        forall|fmt: Format, n: nat, d: nat| #[trigger] rounded(fmt, n, d) <= fmt.infinity(),
        forall|fmt: Format, n: nat| #[trigger] rounded_sqrt(fmt, n) <= fmt.infinity(),
{
}

/// A value that fits the significand is its own rounding: `mant` units of two
/// to the power `exp`.
pub proof fn lemma_exact(fmt: Format, n: nat, d: nat, mant: nat, exp: nat)
    requires
        d > 0,
        mant > 0,
        fmt.prec >= 1,
        bit_length(mant) <= fmt.prec,
        n == mant * pow2(exp) * d,
        exp >= fmt.prec,
        bit_length(mant) + exp < fmt.prec + fmt.special - 2,
    ensures
        0 < rounded(fmt, n, d) < fmt.infinity(),
        fmt.magnitude(rounded(fmt, n, d)) == mant * pow2(exp),
{
    let l = bit_length(mant);
    let h = fmt.hidden();
    lemma2_to64();
    lemma_bit_length_bounds(mant);
    assert(has_digits(n, d, mant, exp as int, false)) by {
        assert(n * pow2(0) == n) by (nonlinear_arith)
            requires
                pow2(0) == 1,
        ;
    }
    lemma_rounded_digits(fmt, n, d, mant, exp as int, false);
    let k = dropped_digits(fmt, (l + exp) as int);
    assert(k == l + exp - fmt.prec);
    let s = (exp - k) as nat;
    assert(s == fmt.prec - l);
    let m = mant * pow2(s);
    lemma_pow2_pos(s);
    lemma_pow2_adds((l - 1) as nat, s);
    lemma_pow2_adds(l, s);
    lemma_pow2_unfold(fmt.prec);
    assert(h <= m < 2 * h) by (nonlinear_arith)
        requires
            pow2((l - 1) as nat) <= mant < pow2(l),
            m == mant * pow2(s),
            pow2((l - 1) as nat) * pow2(s) == h,
            pow2(l) * pow2(s) == 2 * h,
            pow2(s) > 0,
    ;
    let b = k * h + m;
    lemma_pow2_pos((fmt.prec - 1) as nat);
    assert(b < fmt.special * h) by (nonlinear_arith)
        requires
            b == k * h + m,
            m < 2 * h,
            k + 2 <= fmt.special,
            h > 0,
    ;
    assert(b > 0) by (nonlinear_arith)
        requires
            b == k * h + m,
            m >= h,
            h > 0,
    ;
    lemma_packed_magnitude(fmt, m, k);
    lemma_pow2_adds(s, k);
    assert(m * pow2(k) == mant * pow2(exp)) by (nonlinear_arith)
        requires
            m == mant * pow2(s),
            pow2(exp) == pow2(s) * pow2(k),
    ;
}

} // verus!
