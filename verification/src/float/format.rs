//! The binary interchange formats as mathematics: what a bit pattern stands
//! for, and which bit pattern an exact result is rounded to.
//!
//! A finite magnitude is a natural number, counted in units of the smallest
//! subnormal of its format, so every finite value is an exact integer and no
//! real numbers are needed.
use vstd::arithmetic::power2::pow2;
use vstd::prelude::*;

verus! {

/// A binary floating-point format.
pub struct Format {
    /// Significand bits, the hidden one counted.
    pub prec: nat,
    /// The smallest subnormal is two to the power of minus this.
    pub unit: nat,
    /// The exponent field that marks infinities and NaNs.
    pub special: nat,
}

/// Single precision.
pub open spec fn binary32() -> Format {
    Format { prec: 24, unit: 149, special: 255 }
}

/// Double precision.
pub open spec fn binary64() -> Format {
    Format { prec: 53, unit: 1074, special: 2047 }
}

impl Format {
    /// The weight of the hidden bit, which is also the distance in the bit
    /// pattern from one exponent field to the next.
    pub open spec fn hidden(self) -> nat {
        pow2((self.prec - 1) as nat)
    }

    /// The pattern of infinity, without its sign.
    pub open spec fn infinity(self) -> nat {
        self.special * self.hidden()
    }

    /// The magnitude that the pattern `b` (without its sign) stands for, in
    /// units of the smallest subnormal.
    pub open spec fn magnitude(self, b: nat) -> nat {
        let exponent = b / self.hidden();
        let fraction = b % self.hidden();
        if exponent == 0 {
            fraction
        } else {
            (self.hidden() + fraction) * pow2((exponent - 1) as nat)
        }
    }
}

/// Number of binary digits of `x`; none for zero.
pub open spec fn bit_length(x: nat) -> nat
    decreases x,
{
    if x == 0 {
        0
    } else {
        1 + bit_length(x / 2)
    }
}

/// `n / d` to the nearest integer, a tie to the even one.
pub open spec fn nearest_even(n: nat, d: nat) -> nat {
    let q = n / d;
    let r = n % d;
    if 2 * r > d || (2 * r == d && q % 2 == 1) {
        q + 1
    } else {
        q
    }
}

/// How many low binary digits a magnitude of `length` digits has to give up
/// to fit the significand.
pub open spec fn dropped_digits(fmt: Format, length: int) -> nat {
    if length > fmt.prec {
        (length - fmt.prec) as nat
    } else {
        0
    }
}

/// The pattern of `m` units of two to the power `k`, or infinity where that
/// is past the largest finite pattern.
pub open spec fn packed(fmt: Format, m: nat, k: nat) -> nat {
    let b = k * fmt.hidden() + m;
    if b < fmt.infinity() {
        b
    } else {
        fmt.infinity()
    }
}

/// The pattern nearest to the exact magnitude `n / d`, ties to even.
pub open spec fn rounded(fmt: Format, n: nat, d: nat) -> nat {
    let k = dropped_digits(fmt, bit_length(n / d) as int);
    packed(fmt, nearest_even(n, d * pow2(k)), k)
}

/// `r` is the largest integer whose square is at most `n`.
pub open spec fn is_integer_sqrt(n: nat, r: nat) -> bool {
    r * r <= n < (r + 1) * (r + 1)
}

/// The largest integer whose square is at most `n`.
pub open spec fn integer_sqrt(n: nat) -> nat {
    choose|r: nat| is_integer_sqrt(n, r)
}

/// The pattern nearest to the square root of `n`, ties to even.
pub open spec fn rounded_sqrt(fmt: Format, n: nat) -> nat {
    let root = integer_sqrt(n);
    let k = dropped_digits(fmt, bit_length(root) as int);
    let f = root / pow2(k);
    let twice_middle = (2 * f + 1) * pow2(k);
    let up = 4 * n > twice_middle * twice_middle
        || (4 * n == twice_middle * twice_middle && f % 2 == 1);
    packed(fmt, if up { f + 1 } else { f }, k)
}

/// A pattern taken apart: its sign, and the rest of its bits.
pub struct Parts {
    pub negative: bool,
    pub rest: nat,
}

/// A quiet NaN with an empty payload.
pub open spec fn nan(fmt: Format) -> Parts {
    Parts { negative: false, rest: fmt.infinity() + fmt.hidden() / 2 }
}

impl Parts {
    pub open spec fn is_nan(self, fmt: Format) -> bool {
        self.rest > fmt.infinity()
    }

    pub open spec fn is_infinite(self, fmt: Format) -> bool {
        self.rest == fmt.infinity()
    }

    pub open spec fn is_finite(self, fmt: Format) -> bool {
        self.rest < fmt.infinity()
    }

    pub open spec fn is_zero(self) -> bool {
        self.rest == 0
    }

    /// The exact value of a finite pattern, in units of the smallest
    /// subnormal.
    pub open spec fn value(self, fmt: Format) -> int {
        if self.negative {
            -(fmt.magnitude(self.rest) as int)
        } else {
            fmt.magnitude(self.rest) as int
        }
    }

    /// Position on the number line; both zeros share one.
    pub open spec fn order(self) -> int {
        if self.negative {
            -(self.rest as int)
        } else {
            self.rest as int
        }
    }
}

pub open spec fn absolute(v: int) -> nat {
    if v < 0 {
        (-v) as nat
    } else {
        v as nat
    }
}

/// `a + b`, rounded once from the exact sum.
pub open spec fn sum(fmt: Format, a: Parts, b: Parts) -> Parts {
    if a.is_nan(fmt) || b.is_nan(fmt) {
        nan(fmt)
    } else if a.is_infinite(fmt) {
        if b.is_infinite(fmt) && a.negative != b.negative {
            nan(fmt)
        } else {
            a
        }
    } else if b.is_infinite(fmt) {
        b
    } else {
        let v = a.value(fmt) + b.value(fmt);
        if v == 0 {
            Parts { negative: a.negative && b.negative, rest: 0 }
        } else {
            Parts { negative: v < 0, rest: rounded(fmt, absolute(v), 1) }
        }
    }
}

/// `-a`: the sign bit flipped, whatever the rest holds.
pub open spec fn opposite(a: Parts) -> Parts {
    Parts { negative: !a.negative, rest: a.rest }
}

/// `a * b`, rounded once from the exact product.
pub open spec fn product(fmt: Format, a: Parts, b: Parts) -> Parts {
    let negative = a.negative != b.negative;
    if a.is_nan(fmt) || b.is_nan(fmt) {
        nan(fmt)
    } else if a.is_infinite(fmt) || b.is_infinite(fmt) {
        if a.is_zero() || b.is_zero() {
            nan(fmt)
        } else {
            Parts { negative, rest: fmt.infinity() }
        }
    } else {
        let n = fmt.magnitude(a.rest) * fmt.magnitude(b.rest);
        Parts { negative, rest: rounded(fmt, n, pow2(fmt.unit)) }
    }
}

/// `a / b`, rounded once from the exact quotient.
pub open spec fn quotient(fmt: Format, a: Parts, b: Parts) -> Parts {
    let negative = a.negative != b.negative;
    if a.is_nan(fmt) || b.is_nan(fmt) {
        nan(fmt)
    } else if a.is_infinite(fmt) {
        if b.is_infinite(fmt) {
            nan(fmt)
        } else {
            Parts { negative, rest: fmt.infinity() }
        }
    } else if b.is_infinite(fmt) {
        Parts { negative, rest: 0 }
    } else if b.is_zero() {
        if a.is_zero() {
            nan(fmt)
        } else {
            Parts { negative, rest: fmt.infinity() }
        }
    } else {
        let n = fmt.magnitude(a.rest) * pow2(fmt.unit);
        Parts { negative, rest: rounded(fmt, n, fmt.magnitude(b.rest)) }
    }
}

/// The square root of `a`, rounded once from the exact root.
pub open spec fn root(fmt: Format, a: Parts) -> Parts {
    if a.is_nan(fmt) {
        nan(fmt)
    } else if a.is_zero() {
        a
    } else if a.negative {
        nan(fmt)
    } else if a.is_infinite(fmt) {
        a
    } else {
        Parts {
            negative: false,
            rest: rounded_sqrt(fmt, fmt.magnitude(a.rest) * pow2(fmt.unit)),
        }
    }
}

/// The fraction `n / d`, rounded once.
pub open spec fn fraction(fmt: Format, n: int, d: nat) -> Parts {
    Parts { negative: n < 0, rest: rounded(fmt, absolute(n) * pow2(fmt.unit), d) }
}

/// The integer nearest to a finite value, a tie away from zero.
pub open spec fn nearest_integer(fmt: Format, a: Parts) -> int {
    let whole = (2 * fmt.magnitude(a.rest) + pow2(fmt.unit)) / (2 * pow2(fmt.unit));
    if a.negative {
        -(whole as int)
    } else {
        whole as int
    }
}

/// The integer nearest to `a`, kept within a range; zero for NaN.
pub open spec fn saturated(fmt: Format, a: Parts, least: int, greatest: int) -> int {
    if a.is_nan(fmt) {
        0
    } else if a.is_infinite(fmt) {
        if a.negative {
            least
        } else {
            greatest
        }
    } else {
        let n = nearest_integer(fmt, a);
        if n < least {
            least
        } else if n > greatest {
            greatest
        } else {
            n
        }
    }
}

} // verus!
