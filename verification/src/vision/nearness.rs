//! What near, alike and overlapping come to in whole pixels: the tracker's
//! rules over the integers.
use super::tracker::{
    area_of, center_of, close, cost, default_tuning, distance, fragment_of, haunted_by, predicted,
    shared_area, similar_areas, Departed, TrackedObject,
};
use super::{DetectedObject, Rect};
use crate::float::format::binary32;
use crate::float::lemmas::lemma_rounded_bound;
use crate::float::nearest::law_rounding_keeps_order;
use crate::float::Float32;
use vstd::arithmetic::power2::{lemma2_to64, lemma_pow2_adds, lemma_pow2_pos, pow2};
use vstd::prelude::*;

verus! {

/// A box of the size that pictures have: less than 2048 pixels either way,
/// and not too far from the origin.
pub open spec fn picture_sized(r: Rect) -> bool {
    &&& -0x10_0000 < r.x < 0x10_0000
    &&& -0x10_0000 < r.y < 0x10_0000
    &&& 0 <= r.width < 2048
    &&& 0 <= r.height < 2048
}

/// The point lies at `(x, y)`, counted in half pixels.
pub open spec fn lies_at(c: (Float32, Float32), x: int, y: int) -> bool {
    c.0.exactly(x, 148) && c.1.exactly(y, 148)
}

/// The square of the distance between two points.
pub open spec fn squared(x: int, y: int) -> int {
    x * x + y * y
}

/// How many pixels two stretches have in common.
pub open spec fn common(a: int, a_len: int, b: int, b_len: int) -> int {
    let from = if a > b { a } else { b };
    let to = if a + a_len < b + b_len { a + a_len } else { b + b_len };
    if from < to {
        to - from
    } else {
        0
    }
}

proof fn lemma_middle_of(start: i32, length: i32)
    requires
        -0x10_0000 < start < 0x10_0000,
        0 <= length < 2048,
    ensures
        Float32::nearest(start as int, 1).sum(
            Float32::nearest(length as int, 1).quotient(Float32::nearest(2, 1)),
        ).exactly(2 * start + length, 148),
{
    let two = Float32::nearest(2, 1);
    let s = Float32::nearest(start as int, 1);
    let l = Float32::nearest(length as int, 1);
    Float32::law_integers_are_exact(start as int);
    Float32::law_integers_are_exact(length as int);
    Float32::law_integers_are_exact(2);
    lemma2_to64();
    lemma_pow2_adds(1, 149);
    lemma_pow2_adds(1, 148);
    assert(2 * pow2(149) == 1 * pow2(150)) by (nonlinear_arith)
        requires
            pow2(150) == 2 * pow2(149),
    ;
    assert(two.exactly(1, 150));
    assert(l.exactly(length * 1, 149));
    Float32::law_whole_quotient(l, two, length as int, 1, 149, 150);
    Float32::law_finer(s, start as int, 148, 1);
    assert(start * pow2(1) == 2 * start) by (nonlinear_arith)
        requires
            pow2(1) == 2,
    ;
    Float32::law_whole_sum(s, l.quotient(two), 2 * start, length as int, 148);
}

/// The centre of a box lies halfway between its sides.
pub proof fn law_centre_is_halfway(r: Rect)
    requires
        picture_sized(r),
    ensures
        lies_at(center_of(r), 2 * r.x + r.width, 2 * r.y + r.height),
{
    lemma_middle_of(r.x, r.width);
    lemma_middle_of(r.y, r.height);
}

/// The area of a box is its width times its height.
pub proof fn law_area_is_the_product(r: Rect)
    requires
        picture_sized(r),
    ensures
        area_of(r).exactly(r.width * r.height, 149),
{
    Float32::law_integers_are_exact(r.width as int);
    Float32::law_integers_are_exact(r.height as int);
    assert(0 <= r.width * r.height < 0x40_0000) by (nonlinear_arith)
        requires
            0 <= r.width < 2048,
            0 <= r.height < 2048,
    ;
    Float32::law_whole_product(
        Float32::nearest(r.width as int, 1),
        Float32::nearest(r.height as int, 1),
        r.width as int,
        r.height as int,
        149,
        149,
    );
}

/// Two points are within a distance of each other exactly where the square of
/// their distance is at most the square of it: the distance is the straight
/// one, in both directions of the picture.
pub proof fn law_distance_is_straight(
    a: (Float32, Float32),
    b: (Float32, Float32),
    limit: Float32,
    ax: int,
    ay: int,
    bx: int,
    by: int,
    r: int,
)
    requires
        lies_at(a, ax, ay),
        lies_at(b, bx, by),
        limit.exactly(r, 148),
        0 <= r < 2048,
        -2896 <= ax - bx <= 2896,
        -2896 <= ay - by <= 2896,
    ensures
        distance(a, b).at_most(limit) <==> squared(ax - bx, ay - by) <= r * r,
{
    let (x, y) = (ax - bx, ay - by);
    let dx = a.0.difference(b.0);
    let dy = a.1.difference(b.1);
    Float32::law_whole_difference(a.0, b.0, ax, bx, 148);
    Float32::law_whole_difference(a.1, b.1, ay, by, 148);
    assert(0 <= x * x <= 2896 * 2896 && 0 <= y * y <= 2896 * 2896) by (nonlinear_arith)
        requires
            -2896 <= x <= 2896,
            -2896 <= y <= 2896,
    ;
    Float32::law_whole_product(dx, dx, x, x, 148, 148);
    Float32::law_whole_product(dy, dy, y, y, 148, 148);
    Float32::law_whole_sum(dx.product(dx), dy.product(dy), x * x, y * y, 147);
    Float32::law_whole_root(
        dx.product(dx).sum(dy.product(dy)),
        limit,
        x * x + y * y,
        r,
        147,
        148,
    );
}

/// Two areas are alike where neither is empty and neither is more than three
/// times the other.
pub proof fn law_alike_is_within_a_factor(a: Float32, b: Float32, n: int, m: int)
    requires
        a.exactly(n, 149),
        b.exactly(m, 149),
        0 <= n < 0x40_0000,
        0 <= m < 0x40_0000,
    ensures
        similar_areas(a, b, Float32::nearest(3, 1)) <==> n > 0 && m > 0 && n <= 3 * m && m <= 3
            * n,
{
    let three = Float32::nearest(3, 1);
    let zero = Float32::nearest(0, 1);
    Float32::law_integers_are_exact(3);
    Float32::law_integers_are_exact(0);
    Float32::law_whole_product(a, three, n, 3, 149, 149);
    Float32::law_whole_product(b, three, m, 3, 149, 149);
    lemma_compare(a, b, n, m, 149);
    lemma_compare(zero, a, 0, n, 149);
    lemma_compare(zero, b, 0, m, 149);
    lemma_compare(b, a.product(three), m, n * 3, 149);
    lemma_compare(a, b.product(three), n, m * 3, 149);
}

/// Numbers of few digits compare as the integers they are.
pub proof fn lemma_compare(a: Float32, b: Float32, n: int, m: int, e: nat)
    requires
        a.exactly(n, e),
        b.exactly(m, e),
    ensures
        a.at_most(b) <==> n <= m,
        a.below(b) <==> n < m,
        a.equals(b) <==> n == m,
{
    Float32::law_order_is_value(a, b);
    lemma_pow2_pos(e);
    assert(n <= m <==> n * pow2(e) <= m * pow2(e)) by (nonlinear_arith)
        requires
            pow2(e) > 0,
    ;
    assert(n < m <==> n * pow2(e) < m * pow2(e)) by (nonlinear_arith)
        requires
            pow2(e) > 0,
    ;
}

/// A track whose centre lies at `(x, y)` may take a detection where the belt
/// has brought it within 60 pixels of it, and their sizes are alike. `shift`
/// is counted in half pixels, along y.
pub proof fn law_close_in_pixels(
    t: TrackedObject,
    d: DetectedObject,
    shift: Float32,
    x: int,
    y: int,
    s: int,
)
    requires
        lies_at(t.center, x, y),
        shift.exactly(s, 148),
        -0x80_0000 < y + s < 0x80_0000,
        picture_sized(t.last_rect),
        picture_sized(d.rect),
        -2896 <= 2 * d.rect.x + d.rect.width - x <= 2896,
        -2896 <= 2 * d.rect.y + d.rect.height - (y + s) <= 2896,
    ensures
        close(default_tuning(), t, d, shift) <==> {
            let a = t.last_rect.width * t.last_rect.height;
            let b = d.rect.width * d.rect.height;
            &&& squared(
                2 * d.rect.x + d.rect.width - x,
                2 * d.rect.y + d.rect.height - (y + s),
            ) <= 120 * 120
            &&& a > 0 && b > 0 && a <= 3 * b && b <= 3 * a
        },
{
    let sixty = Float32::nearest(60, 1);
    let p = predicted(t, shift);
    lemma_sixty();
    law_centre_is_halfway(d.rect);
    law_area_is_the_product(t.last_rect);
    law_area_is_the_product(d.rect);
    lemma_area_bound(t.last_rect);
    lemma_area_bound(d.rect);
    Float32::law_whole_sum(t.center.1, shift, y, s, 148);
    law_distance_is_straight(
        center_of(d.rect),
        p,
        sixty,
        2 * d.rect.x + d.rect.width,
        2 * d.rect.y + d.rect.height,
        x,
        y + s,
        120,
    );
    law_alike_is_within_a_factor(
        area_of(t.last_rect),
        area_of(d.rect),
        t.last_rect.width * t.last_rect.height,
        d.rect.width * d.rect.height,
    );
    reveal(close);
    reveal(cost);
}

proof fn lemma_sixty()
    ensures
        Float32::nearest(60, 1).exactly(120, 148),
{
    Float32::law_integers_are_exact(60);
    lemma2_to64();
    Float32::law_finer(Float32::nearest(60, 1), 60, 148, 1);
    assert(60 * pow2(1) == 120) by (nonlinear_arith)
        requires
            pow2(1) == 2,
    ;
}

proof fn lemma_area_bound(r: Rect)
    requires
        picture_sized(r),
    ensures
        0 <= r.width * r.height < 0x40_0000,
{
    assert(0 <= r.width * r.height < 0x40_0000) by (nonlinear_arith)
        requires
            0 <= r.width < 2048,
            0 <= r.height < 2048,
    ;
}

/// A detection may be a part that was picked and lost from view where that was
/// within 60 pixels of it, and their sizes are alike.
pub proof fn law_haunted_in_pixels(g: Departed, r: Rect, x: int, y: int, area: int)
    requires
        lies_at(g.center, x, y),
        g.area.exactly(area, 149),
        0 <= area < 0x40_0000,
        picture_sized(r),
        -2896 <= 2 * r.x + r.width - x <= 2896,
        -2896 <= 2 * r.y + r.height - y <= 2896,
    ensures
        haunted_by(default_tuning(), g, r) <==> {
            let b = r.width * r.height;
            &&& squared(2 * r.x + r.width - x, 2 * r.y + r.height - y) <= 120 * 120
            &&& area > 0 && b > 0 && area <= 3 * b && b <= 3 * area
        },
{
    lemma_sixty();
    law_centre_is_halfway(r);
    law_area_is_the_product(r);
    lemma_area_bound(r);
    law_distance_is_straight(
        center_of(r),
        g.center,
        Float32::nearest(60, 1),
        2 * r.x + r.width,
        2 * r.y + r.height,
        x,
        y,
        120,
    );
    law_alike_is_within_a_factor(g.area, area_of(r), area, r.width * r.height);
    reveal(haunted_by);
}

/// A quotient is at least one half exactly where twice the dividend is at
/// least the divisor.
proof fn lemma_half_quotient(a: Float32, b: Float32, n: int, m: int)
    requires
        a.exactly(n, 149),
        b.exactly(m, 149),
        0 <= n < 0x40_0000,
        0 < m < 0x40_0000,
    ensures
        Float32::nearest(1, 2).at_most(a.quotient(b)) <==> 2 * n >= m,
{
    let fmt = binary32();
    let half = Float32::nearest(1, 2);
    let q = a.quotient(b);
    let u = pow2(149);
    Float32::lemma_half();
    Float32::lemma_limits();
    Float32::lemma_constants();
    Float32::lemma_zero_size();
    lemma_rounded_bound();
    lemma_pow2_pos(148);
    lemma2_to64();
    lemma_pow2_adds(1, 148);
    assert(0 < pow2(148));
    assert(half.size() == pow2(148) && !half.parts().negative);
    assert(n * u >= 0 && m * u > 0) by (nonlinear_arith)
        requires
            n >= 0,
            m > 0,
            u > 0,
    ;
    assert(a.size() == n * u && b.size() == m * u);
    assert(!b.parts().negative && b.parts().rest != 0);
    reveal(Float32::quotient);
    let w = a.size() * u;
    law_rounding_keeps_order(fmt, w, b.size(), half.parts().rest);
    if n == 0 {
        assert(w == 0) by (nonlinear_arith)
            requires
                w == (n * u) * u,
                n == 0,
        ;
        crate::float::lemmas::lemma_rounded_zero(fmt, b.size());
        assert(q.parts().rest == 0);
    } else {
        assert(n * u > 0) by (nonlinear_arith)
            requires
                n > 0,
                u > 0,
        ;
        assert(!q.parts().negative);
        if 2 * n >= m {
            assert(w >= half.size() * b.size()) by (nonlinear_arith)
                requires
                    w == (n * u) * u,
                    half.size() == pow2(148),
                    u == 2 * pow2(148),
                    b.size() == m * u,
                    2 * n >= m,
                    u > 0,
            ;
            assert(q.parts().rest >= half.parts().rest);
        } else {
            // The number next to one half is still past the quotient.
            let c = Float32::lemma_represented(0x7f_ffff, 125);
            lemma_pow2_adds(24, 125);
            lemma_pow2_adds(23, 125);
            lemma_pow2_pos(125);
            let t = pow2(125);
            assert(c.size() * b.size() >= w) by (nonlinear_arith)
                requires
                    c.size() == 0x7f_ffff * t,
                    b.size() == m * u,
                    w == (n * u) * u,
                    u == 0x100_0000 * t,
                    2 * n + 1 <= m,
                    m < 0x40_0000,
                    t > 0,
            ;
            law_rounding_keeps_order(fmt, w, b.size(), c.parts().rest);
            assert(c.size() < half.size());
            if half.parts().rest <= c.parts().rest && half.parts().rest != c.parts().rest {
                crate::float::lemmas::lemma_magnitude_monotone(
                    fmt,
                    half.parts().rest,
                    c.parts().rest,
                );
            }
        }
    }
}

/// A detection is a fragment of a track in view exactly where it shares with
/// it at least half of the smaller of the two boxes; of a track that is not in
/// view nothing is a fragment.
pub proof fn law_fragment_in_pixels(t: TrackedObject, r: Rect)
    requires
        picture_sized(t.last_rect),
        picture_sized(r),
    ensures
        fragment_of(default_tuning(), t, r) <==> {
            let b = t.last_rect;
            let shared = common(r.x as int, r.width as int, b.x as int, b.width as int) * common(
                r.y as int,
                r.height as int,
                b.y as int,
                b.height as int,
            );
            &&& t.missed_frames == 0
            &&& r.width * r.height > 0
            &&& b.width * b.height > 0
            &&& 2 * shared >= r.width * r.height || 2 * shared >= b.width * b.height
        },
{
    let b = t.last_rect;
    let cw = common(r.x as int, r.width as int, b.x as int, b.width as int);
    let ch = common(r.y as int, r.height as int, b.y as int, b.height as int);
    let (m1, m2) = (r.width * r.height, b.width * b.height);
    let half = Float32::nearest(1, 2);
    let zero = Float32::nearest(0, 1);
    law_area_is_the_product(r);
    law_area_is_the_product(b);
    lemma_area_bound(r);
    lemma_area_bound(b);
    assert(0 <= cw * ch < 0x40_0000) by (nonlinear_arith)
        requires
            0 <= cw < 2048,
            0 <= ch < 2048,
    ;
    Float32::law_integers_are_exact(cw);
    Float32::law_integers_are_exact(ch);
    Float32::law_integers_are_exact(0);
    Float32::lemma_half();
    Float32::law_whole_product(
        Float32::nearest(cw, 1),
        Float32::nearest(ch, 1),
        cw,
        ch,
        149,
        149,
    );
    assert(shared_area(r, b).exactly(cw * ch, 149));
    lemma_compare(area_of(r), area_of(b), m1, m2, 149);
    lemma_compare(zero, area_of(r), 0, m1, 149);
    lemma_compare(zero, area_of(b), 0, m2, 149);
    Float32::law_order_is_value(zero, half);
    if m1 > 0 && m2 > 0 {
        let (smaller, m) = if m1 < m2 {
            (area_of(r), m1)
        } else {
            (area_of(b), m2)
        };
        lemma_half_quotient(shared_area(r, b), smaller, cw * ch, m);
    }
    reveal(fragment_of);
}

} // verus!
