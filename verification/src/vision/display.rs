//! That the live feed fits its place on the panel and is never enlarged.
use super::pipeline::{display_scale, scaled};
use crate::float::format::binary64;
use crate::float::lemmas::{
    lemma_div_mod_are, lemma_magnitude_monotone, lemma_packed_magnitude, lemma_pow2_monotone,
    lemma_rounded_bound, lemma_rounded_zero,
};
use crate::float::nearest::{
    law_relative_error, law_representable_is_kept, law_rounding_keeps_order,
};
use crate::float::Float64;
use vstd::arithmetic::power2::{
    lemma2_to64, lemma2_to64_rest, lemma_pow2_adds, lemma_pow2_pos, pow2,
};
use vstd::prelude::*;

verus! {

/// The size of a finite number, in units of the smallest subnormal.
spec fn size(a: Float64) -> nat {
    binary64().magnitude(a.parts().rest)
}

/// One, in units of the smallest subnormal.
spec fn one() -> nat {
    pow2(1074)
}

/// The largest power of two that a fraction can be asked for.
spec fn full() -> nat {
    pow2(52)
}

proof fn lemma_units()
    ensures
        full() == 0x10_0000_0000_0000,
        binary64().hidden() == full(),
        one() > 4 * (full() * 0x1_0000_0000),
{
    lemma2_to64();
    lemma2_to64_rest();
    lemma_pow2_adds(52, 32);
    lemma_pow2_adds(84, 3);
    lemma_pow2_monotone(87, 1074);
    lemma_pow2_pos(84);
}

proof fn lemma_count(n: int)
    requires
        0 <= n <= 0xffff_ffff,
    ensures
        Float64::nearest(n, 1).finite(),
        !Float64::nearest(n, 1).parts().negative,
        size(Float64::nearest(n, 1)) == n * one(),
{
    Float64::lemma_limits();
    Float64::law_integers_are_exact(n);
    reveal(Float64::nearest);
    lemma_rounded_bound();
    assert(n * one() >= 0) by (nonlinear_arith)
        requires
            n >= 0,
            one() >= 0,
    ;
}

/// The ratio of the room to the length.
proof fn lemma_ratio(room: int, length: int)
    requires
        0 <= room <= 0xffff_ffff,
        0 < length <= 0x7fff_ffff,
    ensures
        ({
            let q = Float64::nearest(room, 1).quotient(Float64::nearest(length, 1));
            &&& q.finite()
            &&& !q.parts().negative
            &&& room == 0 ==> size(q) == 0
            &&& 2 * full() * (length * size(q)) <= room * one() * (2 * full() + 1)
        }),
{
    let fmt = binary64();
    let a = Float64::nearest(room, 1);
    let b = Float64::nearest(length, 1);
    let q = a.quotient(b);
    let u = one();
    let h = full();
    lemma_units();
    lemma_count(room);
    lemma_count(length);
    Float64::lemma_limits();
    lemma_rounded_bound();
    reveal(Float64::quotient);
    let n = (room * u) as nat * u;
    let d = (length * u) as nat;
    assert(d >= u) by (nonlinear_arith)
        requires
            d == length * u,
            length >= 1,
            u >= 0,
    ;
    lemma_div_mod_are(0, fmt.hidden(), 0, 0);
    assert(b.parts().rest != 0);
    assert(n <= size(a) * d) by (nonlinear_arith)
        requires
            n == size(a) * u,
            d >= u,
            size(a) >= 0,
    ;
    law_rounding_keeps_order(fmt, n, d, a.parts().rest);
    if room == 0 {
        assert(n == 0) by (nonlinear_arith)
            requires
                n == (room * u) * u,
                room == 0,
        ;
        lemma_rounded_zero(fmt, d);
        assert(length * size(q) == 0) by (nonlinear_arith)
            requires
                size(q) == 0,
        ;
        assert(room * u * (2 * h + 1) >= 0) by (nonlinear_arith)
            requires
                room >= 0,
                u >= 0,
                h >= 0,
        ;
    } else {
        assert(n >= h * d) by (nonlinear_arith)
            requires
                n == (room * u) * u,
                d == length * u,
                room >= 1,
                length <= 0x7fff_ffff,
                u > 4 * (h * 0x1_0000_0000),
                h >= 0,
        ;
        law_relative_error(fmt, n, d);
        let s = size(q);
        assert(2 * h * (s * d - n) <= n) by (nonlinear_arith)
            requires
                2 * h * (s * d - n) <= n || 2 * h * (n - s * d) <= n && s * d <= n,
                n >= 0,
                h >= 0,
        ;
        assert(2 * h * (length * s) <= room * u * (2 * h + 1)) by (nonlinear_arith)
            requires
                2 * h * (s * d - n) <= n,
                n == (room * u) * u,
                d == length * u,
                u > 0,
        ;
    }
}

/// One side of the picture.
proof fn lemma_side(length: i32, room: u32, scale: Float64)
    requires
        length > 0,
        scale.finite(),
        !scale.parts().negative,
        scale.parts().rest <= Float64::nearest(1, 1).parts().rest,
        scale.parts().rest <= Float64::nearest(room as int, 1).quotient(
            Float64::nearest(length as int, 1),
        ).parts().rest,
    ensures
        1 <= scaled(length, scale) <= length,
        scaled(length, scale) <= if room == 0 {
            1
        } else {
            room as int
        },
{
    let fmt = binary64();
    let u = one();
    let h = full();
    let w = length as int;
    let q = Float64::nearest(room as int, 1).quotient(Float64::nearest(w, 1));
    let a = Float64::nearest(w, 1);
    let p = a.product(scale);
    lemma_units();
    lemma_count(1);
    lemma_count(w);
    lemma_ratio(room as int, w);
    Float64::lemma_limits();
    lemma_rounded_bound();
    reveal(Float64::product);
    reveal(Float64::rounded_i32);
    let s = size(scale);
    if scale.parts().rest < q.parts().rest {
        lemma_magnitude_monotone(fmt, scale.parts().rest, q.parts().rest);
    }
    if scale.parts().rest < Float64::nearest(1, 1).parts().rest {
        lemma_magnitude_monotone(fmt, scale.parts().rest, Float64::nearest(1, 1).parts().rest);
    }
    assert(s <= u);
    let n = size(a) * s;
    assert(n <= size(a) * u) by (nonlinear_arith)
        requires
            n == size(a) * s,
            s <= u,
            size(a) >= 0,
    ;
    law_rounding_keeps_order(fmt, n, u, a.parts().rest);
    if p.parts().rest < a.parts().rest {
        lemma_magnitude_monotone(fmt, p.parts().rest, a.parts().rest);
    }
    let m = size(p);
    assert(m <= w * u);
    let top = (2 * m + u) as nat;
    let whole = top / (2 * u);
    vstd::arithmetic::div_mod::lemma_fundamental_div_mod(top as int, (2 * u) as int);
    assert(whole <= w) by (nonlinear_arith)
        requires
            top == 2 * m + u,
            top == (2 * u) * whole + top % (2 * u),
            top % (2 * u) >= 0,
            m <= w * u,
            u > 0,
    ;
    assert(2 * m < (2 * room + 1) * u) by {
        if n >= h * u {
            law_relative_error(fmt, n, u);
            assert(2 * h * (m * u - n) <= n) by (nonlinear_arith)
                requires
                    2 * h * (m * u - n) <= n || 2 * h * (n - m * u) <= n && m * u <= n,
                    n >= 0,
                    h >= 0,
            ;
            assert(2 * h * m <= (w * s) * (2 * h + 1)) by (nonlinear_arith)
                requires
                    2 * h * (m * u - n) <= n,
                    n == (w * u) * s,
                    u > 0,
            ;
            assert(2 * h * (w * s) <= 2 * h * (w * size(q))) by (nonlinear_arith)
                requires
                    s <= size(q),
                    w > 0,
                    h >= 0,
            ;
            let c = 2 * h + 1;
            assert(2 * h * (2 * h * m) <= room * u * c * c) by (nonlinear_arith)
                requires
                    2 * h * m <= (w * s) * c,
                    2 * h * (w * s) <= room * u * c,
                    h >= 0,
                    c >= 0,
            ;
            assert(2 * (room * c * c) < (2 * h) * (2 * h) * (2 * room + 1)) by (nonlinear_arith)
                requires
                    h == 0x10_0000_0000_0000,
                    c == 2 * h + 1,
                    0 <= room <= 0xffff_ffff,
            ;
            assert(2 * m < (2 * room + 1) * u) by (nonlinear_arith)
                requires
                    2 * h * (2 * h * m) <= room * u * c * c,
                    2 * (room * c * c) < (2 * h) * (2 * h) * (2 * room + 1),
                    h > 0,
                    u > 0,
            ;
        } else {
            lemma_packed_magnitude(fmt, h, 0);
            lemma2_to64();
            assert(0 * h == 0) by (nonlinear_arith);
            assert(h * pow2(0) == h) by (nonlinear_arith)
                requires
                    pow2(0) == 1,
            ;
            law_rounding_keeps_order(fmt, n, u, h);
            if p.parts().rest < h {
                lemma_magnitude_monotone(fmt, p.parts().rest, h);
            }
            assert((2 * room + 1) * u >= u) by (nonlinear_arith)
                requires
                    room >= 0,
                    u > 0,
            ;
        }
    }
    assert(whole <= room) by (nonlinear_arith)
        requires
            top == 2 * m + u,
            top == (2 * u) * whole + top % (2 * u),
            top % (2 * u) >= 0,
            2 * m < (2 * room + 1) * u,
            u > 0,
    ;
}

/// A frame is shown at no more than its own size and at no more than the room
/// there is, but always at one pixel at least.
pub proof fn law_display_fits(w: i32, h: i32, max_w: u32, max_h: u32)
    requires
        w > 0,
        h > 0,
    ensures
        ({
            let scale = display_scale(w, h, max_w, max_h);
            &&& 1 <= scaled(w, scale) <= w
            &&& 1 <= scaled(h, scale) <= h
            &&& max_w > 0 ==> scaled(w, scale) <= max_w
            &&& max_h > 0 ==> scaled(h, scale) <= max_h
        }),
{
    lemma_ratio(max_w as int, w as int);
    lemma_ratio(max_h as int, h as int);
    lemma_count(1);
    let scale = display_scale(w, h, max_w, max_h);
    lemma_side(w, max_w, scale);
    lemma_side(h, max_h, scale);
}

/// The ratio of the room to the length is not much less than it should be; it
/// is one at least where the room is enough, and below one where it is not.
proof fn lemma_ratio_from_below(room: int, length: int)
    requires
        0 < room <= 0xffff_ffff,
        0 < length <= 0x7fff_ffff,
    ensures
        ({
            let q = Float64::nearest(room, 1).quotient(Float64::nearest(length, 1));
            let unit = Float64::nearest(1, 1);
            &&& q.finite()
            &&& !q.parts().negative
            &&& 2 * full() * (length * size(q)) >= room * one() * (2 * full() - 1)
            &&& room >= length ==> q.parts().rest >= unit.parts().rest
            &&& room <= length ==> q.parts().rest <= unit.parts().rest
        }),
{
    let fmt = binary64();
    let a = Float64::nearest(room, 1);
    let b = Float64::nearest(length, 1);
    let unit = Float64::nearest(1, 1);
    let q = a.quotient(b);
    let u = one();
    let h = full();
    lemma_units();
    lemma_count(room);
    lemma_count(length);
    lemma_count(1);
    lemma_ratio(room, length);
    Float64::lemma_limits();
    lemma_rounded_bound();
    reveal(Float64::quotient);
    let n = (room * u) as nat * u;
    let d = (length * u) as nat;
    assert(d >= u) by (nonlinear_arith)
        requires
            d == length * u,
            length >= 1,
            u >= 0,
    ;
    lemma_div_mod_are(0, fmt.hidden(), 0, 0);
    assert(b.parts().rest != 0);
    assert(n >= h * d) by (nonlinear_arith)
        requires
            n == (room * u) * u,
            d == length * u,
            room >= 1,
            length <= 0x7fff_ffff,
            u > 4 * (h * 0x1_0000_0000),
            h >= 0,
    ;
    law_relative_error(fmt, n, d);
    let s = size(q);
    assert(2 * h * (n - s * d) <= n) by (nonlinear_arith)
        requires
            2 * h * (n - s * d) <= n || n <= s * d,
            n >= 0,
            h >= 0,
    ;
    assert(2 * h * (length * s) >= room * u * (2 * h - 1)) by (nonlinear_arith)
        requires
            2 * h * (n - s * d) <= n,
            n == (room * u) * u,
            d == length * u,
            u > 0,
    ;
    law_rounding_keeps_order(fmt, n, d, unit.parts().rest);
    assert(size(unit) == u);
    assert(room >= length ==> n >= u * d) by (nonlinear_arith)
        requires
            n == (room * u) * u,
            d == length * u,
            u > 0,
    ;
    assert(room <= length ==> n <= u * d) by (nonlinear_arith)
        requires
            n == (room * u) * u,
            d == length * u,
            u > 0,
    ;
}

/// A side that is scaled to its room fills it.
proof fn lemma_filled(length: i32, room: u32, scale: Float64)
    requires
        0 < room <= length,
        scale == Float64::nearest(room as int, 1).quotient(Float64::nearest(length as int, 1)),
    ensures
        scaled(length, scale) == room,
{
    let fmt = binary64();
    let u = one();
    let h = full();
    let w = length as int;
    let k = room as int;
    let a = Float64::nearest(w, 1);
    let p = a.product(scale);
    lemma_units();
    lemma_count(1);
    lemma_count(w);
    lemma_ratio_from_below(k, w);
    lemma_side(length, room, scale);
    Float64::lemma_limits();
    lemma_rounded_bound();
    reveal(Float64::product);
    reveal(Float64::rounded_i32);
    let s = size(scale);
    let n = size(a) * s;
    assert(w * s >= h) by (nonlinear_arith)
        requires
            2 * h * (w * s) >= k * u * (2 * h - 1),
            k >= 1,
            u > 4 * (h * 0x1_0000_0000),
            h == 0x10_0000_0000_0000,
    ;
    assert(n >= h * u) by (nonlinear_arith)
        requires
            n == (w * u) * s,
            w * s >= h,
            u > 0,
    ;
    if scale.parts().rest < Float64::nearest(1, 1).parts().rest {
        lemma_magnitude_monotone(fmt, scale.parts().rest, Float64::nearest(1, 1).parts().rest);
    }
    assert(n <= size(a) * u) by (nonlinear_arith)
        requires
            n == size(a) * s,
            s <= u,
            size(a) >= 0,
    ;
    law_rounding_keeps_order(fmt, n, u, a.parts().rest);
    law_relative_error(fmt, n, u);
    let m = size(p);
    assert(2 * h * (n - m * u) <= n) by (nonlinear_arith)
        requires
            2 * h * (n - m * u) <= n || n <= m * u,
            n >= 0,
            h >= 0,
    ;
    assert(2 * h * m >= (w * s) * (2 * h - 1)) by (nonlinear_arith)
        requires
            2 * h * (n - m * u) <= n,
            n == (w * u) * s,
            u > 0,
    ;
    let c = 2 * h - 1;
    assert(2 * h * (2 * h * m) >= k * u * c * c) by (nonlinear_arith)
        requires
            2 * h * m >= (w * s) * c,
            2 * h * (w * s) >= k * u * c,
            h >= 0,
            c >= 0,
    ;
    assert(2 * (k * c * c) >= (2 * h) * (2 * h) * (2 * k - 1)) by (nonlinear_arith)
        requires
            h == 0x10_0000_0000_0000,
            c == 2 * h - 1,
            0 <= k <= 0xffff_ffff,
    ;
    assert(2 * m >= (2 * k - 1) * u) by (nonlinear_arith)
        requires
            2 * h * (2 * h * m) >= k * u * c * c,
            2 * (k * c * c) >= (2 * h) * (2 * h) * (2 * k - 1),
            h > 0,
            u > 0,
    ;
    let top = (2 * m + u) as nat;
    let whole = top / (2 * u);
    vstd::arithmetic::div_mod::lemma_fundamental_div_mod(top as int, (2 * u) as int);
    vstd::arithmetic::div_mod::lemma_mod_bound(top as int, (2 * u) as int);
    assert(whole >= k) by (nonlinear_arith)
        requires
            top == 2 * m + u,
            top == (2 * u) * whole + top % (2 * u),
            top % (2 * u) < 2 * u,
            2 * m >= (2 * k - 1) * u,
            u > 0,
    ;
    assert(m <= w * u) by {
        if p.parts().rest < a.parts().rest {
            lemma_magnitude_monotone(fmt, p.parts().rest, a.parts().rest);
        }
    }
    assert(whole <= w) by (nonlinear_arith)
        requires
            top == 2 * m + u,
            top == (2 * u) * whole + top % (2 * u),
            top % (2 * u) >= 0,
            m <= w * u,
            u > 0,
    ;
}

/// Scaled by one, a length stays as it is.
proof fn lemma_unscaled(length: i32)
    requires
        length > 0,
    ensures
        scaled(length, Float64::nearest(1, 1)) == length,
{
    let fmt = binary64();
    let u = one();
    let w = length as int;
    let a = Float64::nearest(w, 1);
    let scale = Float64::nearest(1, 1);
    let p = a.product(scale);
    lemma_units();
    lemma_count(1);
    lemma_count(w);
    Float64::lemma_limits();
    lemma_rounded_bound();
    reveal(Float64::product);
    law_representable_is_kept(fmt, size(a) * u, u, a.parts().rest);
    assert(p.parts() == a.parts());
    Float64::law_rounded_is_the_nearest_integer(p);
    let n = p.rounded_i32();
    assert(w * u <= 0x7fff_ffff * u) by (nonlinear_arith)
        requires
            w <= 0x7fff_ffff,
            u > 0,
    ;
    assert(w * u >= 0) by (nonlinear_arith)
        requires
            w >= 0,
            u > 0,
    ;
    assert(n == w) by (nonlinear_arith)
        requires
            -u <= 2 * (n * u - w * u) <= u,
            u > 0,
    ;
}

/// A frame that there is room for is shown as it is. Any other is shown as
/// large as it fits: it fills the width or the height of its place.
pub proof fn law_display_fills_its_place(w: i32, h: i32, max_w: u32, max_h: u32)
    requires
        w > 0,
        h > 0,
        max_w > 0,
        max_h > 0,
    ensures
        ({
            let scale = display_scale(w, h, max_w, max_h);
            if w <= max_w && h <= max_h {
                scaled(w, scale) == w && scaled(h, scale) == h
            } else {
                scaled(w, scale) == max_w || scaled(h, scale) == max_h
            }
        }),
{
    let across = Float64::nearest(max_w as int, 1).quotient(Float64::nearest(w as int, 1));
    let down = Float64::nearest(max_h as int, 1).quotient(Float64::nearest(h as int, 1));
    let unit = Float64::nearest(1, 1);
    let scale = display_scale(w, h, max_w, max_h);
    lemma_count(1);
    Float64::lemma_limits();
    lemma_ratio_from_below(max_w as int, w as int);
    lemma_ratio_from_below(max_h as int, h as int);
    if w <= max_w && h <= max_h {
        lemma_unscaled(w);
        lemma_unscaled(h);
        assert(scale.parts() == unit.parts());
        assert(scale == unit);
    } else if across.below(down) || max_h > h {
        assert(max_w <= w);
        assert(scale.parts() == across.parts());
        assert(scale == across);
        lemma_filled(w, max_w, scale);
    } else {
        assert(max_h <= h);
        assert(scale.parts() == down.parts());
        assert(scale == down);
        lemma_filled(h, max_h, scale);
    }
}

} // verus!
