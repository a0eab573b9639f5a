//! That parts lying still under the camera keep their identity while the belt
//! is stopped.
use super::tracker::{
    area_of, center_of, close, cost, default_tuning, distance, followed, is_matched, predicted,
    ready_at, refreshed, similar_areas, Scene, TrackedObject, TrackerState, Tuning,
};
use super::lifetime::{is_run, law_reached_trackers_are_valid, law_report_spends, Step};
use super::{DetectedObject, Rect};
use crate::float::format::{absolute, binary32, Parts};
use crate::float::lemmas::{
    lemma_div_mod_are, lemma_magnitude_monotone, lemma_rounded_bound, lemma_rounded_zero,
};
use crate::float::nearest::law_rounding_keeps_order;
use crate::float::Float32;
use vstd::arithmetic::power2::{
    lemma2_to64, lemma2_to64_rest, lemma_pow2_adds, lemma_pow2_pos, pow2,
};
use vstd::prelude::*;

verus! {

/// The pattern of a power of two.
proof fn lemma_power_pattern(e: nat)
    requires
        e >= 1,
    ensures
        binary32().magnitude(e * binary32().hidden()) == pow2(22 + e),
{
    let h = binary32().hidden();
    Float32::lemma_limits();
    lemma_div_mod_are(e * h, h, e, 0);
    lemma_pow2_adds(23, (e - 1) as nat);
}

/// Coordinates and lengths in pixels are finite, and not too large.
proof fn lemma_pixels(n: int)
    requires
        -0x8000_0000 <= n <= 0x7fff_ffff,
    ensures
        Float32::nearest(n, 1).finite(),
        Float32::nearest(n, 1).size() <= pow2(180),
        n >= 0 ==> !Float32::nearest(n, 1).parts().negative,
        n >= 1 ==> Float32::nearest(n, 1).size() >= pow2(149),
{
    let fmt = binary32();
    let x = Float32::nearest(n, 1);
    let u = pow2(149);
    let m = (absolute(n) * u) as nat;
    Float32::lemma_limits();
    Float32::lemma_constants();
    lemma_rounded_bound();
    lemma_power_pattern(158);
    lemma2_to64();
    lemma2_to64_rest();
    lemma_pow2_adds(31, 149);
    assert(m <= pow2(180) * 1) by (nonlinear_arith)
        requires
            m == absolute(n) * u,
            absolute(n) <= pow2(31),
            pow2(180) == pow2(31) * u,
            u > 0,
    ;
    law_rounding_keeps_order(fmt, m, 1, 158 * fmt.hidden());
    reveal(Float32::nearest);
    if x.parts().rest < 158 * fmt.hidden() {
        lemma_magnitude_monotone(fmt, x.parts().rest, 158 * fmt.hidden());
    }
    if n >= 1 {
        let one = Float32::nearest(1, 1);
        assert(m >= one.size() * 1) by (nonlinear_arith)
            requires
                m == absolute(n) * u,
                absolute(n) >= 1,
                one.size() == u,
                u > 0,
        ;
        law_rounding_keeps_order(fmt, m, 1, one.parts().rest);
        if one.parts().rest < x.parts().rest {
            lemma_magnitude_monotone(fmt, one.parts().rest, x.parts().rest);
        }
    }
}

proof fn lemma_middle(start: int, length: int)
    requires
        -0x8000_0000 <= start <= 0x7fff_ffff,
        -0x8000_0000 <= length <= 0x7fff_ffff,
    ensures
        Float32::nearest(start, 1).sum(
            Float32::nearest(length, 1).quotient(Float32::nearest(2, 1)),
        ).finite(),
{
    let fmt = binary32();
    let a = Float32::nearest(start, 1);
    let l = Float32::nearest(length, 1);
    let two = Float32::nearest(2, 1);
    let b = l.quotient(two);
    let u = pow2(149);
    lemma_pixels(start);
    lemma_pixels(length);
    Float32::lemma_limits();
    Float32::lemma_constants();
    Float32::lemma_zero_size();
    lemma_rounded_bound();
    assert(b.finite() && b.size() <= pow2(180)) by {
        reveal(Float32::quotient);
        assert(l.size() * u <= l.size() * (2 * u)) by (nonlinear_arith)
            requires
                l.size() >= 0,
                u >= 0,
        ;
        law_rounding_keeps_order(fmt, l.size() * u, 2 * u, l.parts().rest);
        if b.parts().rest < l.parts().rest {
            lemma_magnitude_monotone(fmt, b.parts().rest, l.parts().rest);
        }
    }
    lemma_power_pattern(159);
    vstd::arithmetic::power2::lemma_pow2_unfold(181);
    let v = absolute(a.units() + b.units());
    assert(v <= pow2(181) * 1);
    law_rounding_keeps_order(fmt, v, 1, 159 * fmt.hidden());
    reveal(Float32::sum);
}

proof fn lemma_center_finite(r: Rect)
    ensures
        center_of(r).0.finite(),
        center_of(r).1.finite(),
{
    lemma_middle(r.x as int, r.width as int);
    lemma_middle(r.y as int, r.height as int);
}

/// A square is never negative.
proof fn lemma_square_sign(d: Float32)
    ensures
        !d.product(d).parts().negative,
        d.finite() && d.units() == 0 ==> d.product(d).parts() == (Parts {
            negative: false,
            rest: 0,
        }),
{
    reveal(Float32::product);
    Float32::lemma_limits();
    lemma_rounded_bound();
    if d.finite() && d.units() == 0 {
        Float32::lemma_equals_zero(d);
        Float32::lemma_zero_size();
        assert(d.size() * d.size() == 0) by (nonlinear_arith)
            requires
                d.size() == 0,
        ;
        lemma_pow2_pos(149);
        lemma_rounded_zero(binary32(), pow2(149));
    }
}

/// A distance is never negative, and is zero between equal points.
proof fn lemma_distance(a: (Float32, Float32), b: (Float32, Float32))
    ensures
        !distance(a, b).parts().negative,
        ({
            &&& a.0.finite() && a.1.finite() && b.0.finite() && b.1.finite()
            &&& a.0.units() == b.0.units()
            &&& a.1.units() == b.1.units()
        }) ==> distance(a, b).parts() == (Parts { negative: false, rest: 0 }),
{
    let dx = a.0.difference(b.0);
    let dy = a.1.difference(b.1);
    let zero = Float32::nearest(0, 1);
    lemma_square_sign(dx);
    lemma_square_sign(dy);
    Float32::lemma_limits();
    Float32::lemma_constants();
    Float32::lemma_zero_size();
    lemma_rounded_bound();
    reveal(Float32::sum);
    reveal(Float32::root);
    if a.0.finite() && a.1.finite() && b.0.finite() && b.1.finite() && a.0.units() == b.0.units()
        && a.1.units() == b.1.units() {
        Float32::law_representable_difference(a.0, b.0, zero);
        Float32::law_representable_difference(a.1, b.1, zero);
    }
}

/// The area of a box that is not empty is like itself.
proof fn lemma_same_area(r: Rect)
    requires
        r.width > 0,
        r.height > 0,
    ensures
        similar_areas(area_of(r), area_of(r), Float32::nearest(3, 1)),
{
    let fmt = binary32();
    let w = Float32::nearest(r.width as int, 1);
    let h = Float32::nearest(r.height as int, 1);
    let a = area_of(r);
    let u = pow2(149);
    let one = Float32::nearest(1, 1);
    let three = Float32::nearest(3, 1);
    lemma_pixels(r.width as int);
    lemma_pixels(r.height as int);
    Float32::lemma_limits();
    Float32::lemma_constants();
    Float32::lemma_zero_size();
    Float32::law_integers_are_exact(3);
    lemma_rounded_bound();
    assert(!three.parts().negative) by {
        reveal(Float32::nearest);
    }
    let n = w.size() * h.size();
    lemma_power_pattern(189);
    lemma_pow2_adds(180, 180);
    lemma_pow2_adds(211, 149);
    assert(n <= pow2(211) * u) by (nonlinear_arith)
        requires
            n == w.size() * h.size(),
            w.size() <= pow2(180),
            h.size() <= pow2(180),
            pow2(211) * u == pow2(180) * pow2(180),
    ;
    assert(n >= one.size() * u) by (nonlinear_arith)
        requires
            n == w.size() * h.size(),
            w.size() >= u,
            h.size() >= u,
            one.size() == u,
            u > 0,
    ;
    law_rounding_keeps_order(fmt, n, u, 189 * fmt.hidden());
    law_rounding_keeps_order(fmt, n, u, one.parts().rest);
    reveal(Float32::product);
    if one.parts().rest == 0 {
        Float32::lemma_zero_size();
    }
    let m = a.size() * three.size();
    assert(m >= a.size() * u) by (nonlinear_arith)
        requires
            m == a.size() * three.size(),
            three.size() == 3 * u,
            a.size() >= 0,
            u > 0,
    ;
    law_rounding_keeps_order(fmt, m, u, a.parts().rest);
}

/// A track at rest and the detection of the same object in the next frame.
pub open spec fn stands_still(t: TrackedObject, d: DetectedObject) -> bool {
    &&& t.last_rect == d.rect
    &&& t.center == center_of(d.rect)
    &&& d.rect.width > 0
    &&& d.rect.height > 0
}

/// Every object in view stands still.
pub open spec fn all_stand_still(
    tracks: Seq<TrackedObject>,
    detections: Seq<DetectedObject>,
) -> bool {
    &&& tracks.len() == detections.len()
    &&& forall|i: int| #![trigger tracks[i]]
        0 <= i < tracks.len() ==> stands_still(tracks[i], detections[i])
}

proof fn lemma_own_detection(t: TrackedObject, d: DetectedObject)
    requires
        stands_still(t, d),
    ensures
        cost(t, d, Float32::nearest(0, 1)).rank() == 0,
        close(default_tuning(), t, d, Float32::nearest(0, 1)),
{
    let zero = Float32::nearest(0, 1);
    let c = center_of(d.rect);
    lemma_center_finite(d.rect);
    Float32::lemma_constants();
    Float32::lemma_zero_size();
    Float32::law_representable_sum(c.1, zero, c.1);
    lemma_distance(c, predicted(t, zero));
    lemma_same_area(d.rect);
    Float32::lemma_integers_compare(0, 60);
    reveal(cost);
    reveal(close);
    Float32::lemma_limits();
}

proof fn lemma_ranks_not_negative(t: TrackedObject, d: DetectedObject, shift: Float32)
    ensures
        cost(t, d, shift).rank() >= 0,
{
    reveal(cost);
    lemma_distance(center_of(d.rect), predicted(t, shift));
}

proof fn lemma_filter_all<A>(s: Seq<A>, keep: spec_fn(A) -> bool)
    requires
        forall|i: int| #![trigger s[i]] 0 <= i < s.len() ==> keep(s[i]),
    ensures
        s.filter(keep) == s,
    decreases s.len(),
{
    reveal(Seq::filter);
    if s.len() > 0 {
        lemma_filter_all(s.drop_last(), keep);
        assert(s.drop_last().push(s.last()) =~= s);
    }
}

proof fn lemma_filter_none<A>(s: Seq<A>, keep: spec_fn(A) -> bool)
    requires
        forall|i: int| #![trigger s[i]] 0 <= i < s.len() ==> !keep(s[i]),
    ensures
        s.filter(keep).len() == 0,
    decreases s.len(),
{
    reveal(Seq::filter);
    if s.len() > 0 {
        lemma_filter_none(s.drop_last(), keep);
    }
}

/// Each track takes its own detection.
proof fn lemma_own_matching(scene: Scene)
    requires
        scene.tuning == default_tuning(),
        scene.shift == Float32::nearest(0, 1),
        all_stand_still(scene.tracks, scene.detections),
    ensures
        scene.matching() == Seq::new(scene.tracks.len(), |t: int| Some(t)),
{
    let m = Seq::new(scene.tracks.len(), |t: int| Some(t));
    assert forall|t: int| 0 <= t < m.len() && (#[trigger] m[t]) is Some implies scene.may_pair(
        t,
        m[t]->0,
    ) by {
        lemma_own_detection(scene.tracks[t], scene.detections[t]);
    }
    assert forall|t: int, d: int|
        #[trigger] scene.may_pair(t, d) && m[t] != Some(d) implies scene.loses(m, t, d) by {
        lemma_own_detection(scene.tracks[t], scene.detections[t]);
        lemma_own_detection(scene.tracks[d], scene.detections[d]);
        lemma_ranks_not_negative(scene.tracks[t], scene.detections[d], scene.shift);
        if d < t {
            assert(m[d] == Some(d));
            assert(scene.before(d, d, t, d));
        } else {
            assert(scene.before(t, m[t]->0, t, d));
        }
    }
    assert(scene.is_matching(m));
    scene.law_one_matching(m, scene.matching());
}

/// While the belt is stopped, objects that stay where they are keep their
/// tracks, and no new track comes up.
pub proof fn law_standing_objects_keep_their_tracks(
    s: TrackerState,
    detections: Seq<DetectedObject>,
)
    requires
        all_stand_still(s.tracks, detections),
    ensures
        ({
            let next = s.after_frame(default_tuning(), detections, Float32::nearest(0, 1));
            &&& next.next_id == s.next_id
            &&& next.tracks.len() == s.tracks.len()
            &&& forall|i: int| #![trigger next.tracks[i]]
                0 <= i < s.tracks.len() ==> next.tracks[i] == refreshed(
                    s.tracks[i],
                    detections[i],
                )
        }),
{
    let tuning = default_tuning();
    let shift = Float32::nearest(0, 1);
    let scene = s.scene(tuning, detections, shift);
    let m = scene.matching();
    lemma_own_matching(scene);
    let moved = scene.moved(m);
    assert forall|i: int| #![trigger moved[i]] 0 <= i < moved.len() implies moved[i] == refreshed(
        s.tracks[i],
        detections[i],
    ) by {
        assert(m[i] == Some(i));
    }
    lemma_filter_all(moved, followed(tuning));
    lemma_no_births(
        s.settled(tuning, detections, shift, m),
        tuning,
        detections,
        m,
        detections.len() as int,
    );
}

proof fn lemma_no_births(
    s: TrackerState,
    tuning: Tuning,
    detections: Seq<DetectedObject>,
    m: Seq<Option<int>>,
    n: int,
)
    requires
        m == Seq::new(detections.len(), |t: int| Some(t)),
        n <= detections.len(),
    ensures
        s.births(tuning, detections, m, n) == s,
    decreases n,
{
    if n > 0 {
        lemma_no_births(s, tuning, detections, m, n - 1);
        assert(m[n - 1] == Some(n - 1));
        assert(is_matched(m, n - 1));
    }
}

/// On a stopped belt nothing that has been picked and still lies there is
/// ever handed out again.
pub proof fn law_stopped_belt_does_not_re_emit(
    s: TrackerState,
    detections: Seq<DetectedObject>,
    min_seen: u32,
)
    requires
        all_stand_still(s.tracks, detections),
        forall|i: int| #![trigger s.tracks[i]] 0 <= i < s.tracks.len() ==> s.tracks[i].reported,
    ensures
        ({
            let next = s.after_frame(default_tuning(), detections, Float32::nearest(0, 1));
            &&& next.ready(min_seen).len() == 0
            &&& all_stand_still(next.tracks, detections)
            &&& forall|i: int| #![trigger next.tracks[i]]
                0 <= i < next.tracks.len() ==> next.tracks[i].reported
        }),
{
    law_standing_objects_keep_their_tracks(s, detections);
    let next = s.after_frame(default_tuning(), detections, Float32::nearest(0, 1));
    assert forall|i: int| #![trigger next.tracks[i]]
        0 <= i < next.tracks.len() implies next.tracks[i].reported && stands_still(
        next.tracks[i],
        detections[i],
    ) by {
        assert(stands_still(s.tracks[i], detections[i]));
    }
    lemma_filter_none(next.tracks, ready_at(min_seen));
}

// --- One part, whatever else comes and goes ---

/// Nothing else that could be taken for the object of track `t` lies exactly
/// where its detection `d` does, nor is another track exactly there.
pub open spec fn alone(scene: Scene, t: int, d: int) -> bool {
    &&& forall|d2: int| #[trigger] scene.may_pair(t, d2) && d2 != d ==> scene.rank(t, d2) != 0
    &&& forall|t2: int| #[trigger] scene.may_pair(t2, d) && t2 != t ==> scene.rank(t2, d) != 0
}

/// The frame as a tracker sees it while the belt is stopped.
pub open spec fn at_rest(s: TrackerState, detections: Seq<DetectedObject>) -> Scene {
    s.scene(default_tuning(), detections, Float32::nearest(0, 1))
}

/// The track of a part that stands still takes its detection.
proof fn lemma_takes_its_own(scene: Scene, t: int, d: int)
    requires
        scene.tuning == default_tuning(),
        scene.shift == Float32::nearest(0, 1),
        0 <= t < scene.tracks.len(),
        0 <= d < scene.detections.len(),
        stands_still(scene.tracks[t], scene.detections[d]),
        alone(scene, t, d),
    ensures
        scene.is_matching(scene.matching()),
        scene.matching()[t] == Some(d),
{
    let m = scene.matching();
    scene.law_a_matching_exists();
    lemma_own_detection(scene.tracks[t], scene.detections[d]);
    assert(scene.may_pair(t, d));
    if m[t] != Some(d) {
        assert(scene.loses(m, t, d));
        if m[t] is Some && scene.before(t, m[t]->0, t, d) {
            lemma_ranks_not_negative(scene.tracks[t], scene.detections[m[t]->0], scene.shift);
            assert(scene.may_pair(t, m[t]->0));
        } else {
            let u = choose|u: int| #![trigger m[u]]
                0 <= u < m.len() && m[u] == Some(d) && scene.before(u, d, t, d);
            lemma_ranks_not_negative(scene.tracks[u], scene.detections[d], scene.shift);
            assert(scene.may_pair(u, d));
        }
    }
}

/// Births leave the tracks that are there.
pub proof fn lemma_births_keep(
    s: TrackerState,
    tuning: Tuning,
    detections: Seq<DetectedObject>,
    m: Seq<Option<int>>,
    n: int,
    t: TrackedObject,
)
    requires
        s.tracks.contains(t),
    ensures
        s.births(tuning, detections, m, n).tracks.contains(t),
    decreases n,
{
    if n > 0 {
        lemma_births_keep(s, tuning, detections, m, n - 1, t);
        let b = s.births(tuning, detections, m, n - 1);
        let k = choose|k: int| 0 <= k < b.tracks.len() && b.tracks[k] == t;
        assert(s.births(tuning, detections, m, n).tracks[k] == t);
    }
}

/// A track in view after the births was there before them, or is that of an
/// unmatched detection.
proof fn lemma_births_add(
    s: TrackerState,
    tuning: Tuning,
    detections: Seq<DetectedObject>,
    m: Seq<Option<int>>,
    n: int,
    i: int,
)
    requires
        0 <= n <= detections.len(),
        0 <= i < s.births(tuning, detections, m, n).tracks.len(),
    ensures
        ({
            let t = s.births(tuning, detections, m, n).tracks[i];
            s.tracks.contains(t) || exists|d: int| #![trigger detections[d]]
                0 <= d < n && !is_matched(m, d) && t.last_rect == detections[d].rect
        }),
    decreases n,
{
    let after = s.births(tuning, detections, m, n);
    if n > 0 {
        let before = s.births(tuning, detections, m, n - 1);
        if i < before.tracks.len() {
            lemma_births_add(s, tuning, detections, m, n - 1, i);
            assert(after.tracks[i] == before.tracks[i]);
        } else {
            assert(after.tracks[i].last_rect == detections[n - 1].rect);
        }
    } else {
        assert(s.tracks.contains(s.tracks[i]));
    }
}

/// While the belt is stopped, a part that stays where it is keeps its track,
/// wherever in the frame its detection stands and whatever else comes and
/// goes; and whatever is seen in its box is that track.
pub proof fn law_standing_part_keeps_its_track(
    s: TrackerState,
    detections: Seq<DetectedObject>,
    t: int,
    d: int,
)
    requires
        s.valid(default_tuning()),
        0 <= t < s.tracks.len(),
        0 <= d < detections.len(),
        stands_still(s.tracks[t], detections[d]),
        alone(at_rest(s, detections), t, d),
    ensures
        at_rest(s, detections).matching()[t] == Some(d),
        ({
            let next = s.after_frame(default_tuning(), detections, Float32::nearest(0, 1));
            &&& next.tracks.contains(refreshed(s.tracks[t], detections[d]))
            &&& forall|i: int| #![trigger next.tracks[i]]
                0 <= i < next.tracks.len() && next.tracks[i].missed_frames == 0
                    && next.tracks[i].last_rect == detections[d].rect ==> next.tracks[i]
                    == refreshed(s.tracks[t], detections[d])
        }),
{
    let tuning = default_tuning();
    let zero = Float32::nearest(0, 1);
    let scene = at_rest(s, detections);
    let m = scene.matching();
    let moved = scene.moved(m);
    let settled = s.settled(tuning, detections, zero, m);
    let next = s.after_frame(tuning, detections, zero);
    let own = refreshed(s.tracks[t], detections[d]);
    lemma_takes_its_own(scene, t, d);
    assert(moved[t] == own);
    moved.lemma_filter_contains(followed(tuning), t);
    lemma_births_keep(settled, tuning, detections, m, detections.len() as int, own);
    // No other detection is in that box.
    assert forall|e: int| #![trigger detections[e]]
        0 <= e < detections.len() && detections[e].rect == detections[d].rect implies e == d by {
        lemma_own_detection(s.tracks[t], detections[e]);
        assert(scene.may_pair(t, e) && scene.rank(t, e) == 0);
    }
    assert forall|i: int| #![trigger next.tracks[i]]
        0 <= i < next.tracks.len() && next.tracks[i].missed_frames == 0
            && next.tracks[i].last_rect == detections[d].rect implies next.tracks[i] == own by {
        lemma_births_add(settled, tuning, detections, m, detections.len() as int, i);
        let u = next.tracks[i];
        if settled.tracks.contains(u) {
            moved.lemma_filter_contains_rev(followed(tuning), u);
            let k = choose|k: int| 0 <= k < moved.len() && moved[k] == u;
            assert(s.tracks[k].missed_frames <= tuning.max_missed_frames);
            match m[k] {
                Some(e) => {
                    assert(scene.may_pair(k, e));
                    assert(detections[e].rect == u.last_rect);
                    assert(m[t] == Some(d));
                },
                None => {},
            }
        } else {
            let e = choose|e: int| #![trigger detections[e]]
                0 <= e < detections.len() && !is_matched(m, e) && u.last_rect
                    == detections[e].rect;
            assert(e == d);
            assert(m[t] == Some(d));
        }
    }
}

/// On a stopped belt a part that has been picked and still lies there is not
/// handed out again, whatever else comes and goes: not under its own id, nor
/// as anything else that is seen in its box.
pub proof fn law_standing_part_is_not_re_emitted(
    s: TrackerState,
    detections: Seq<DetectedObject>,
    t: int,
    d: int,
    min_seen: u32,
)
    requires
        s.valid(default_tuning()),
        s.next_id + detections.len() <= u64::MAX,
        0 <= t < s.tracks.len(),
        0 <= d < detections.len(),
        stands_still(s.tracks[t], detections[d]),
        alone(at_rest(s, detections), t, d),
        s.tracks[t].reported,
    ensures
        ({
            let next = s.after_frame(default_tuning(), detections, Float32::nearest(0, 1));
            &&& !next.hands_out(min_seen, s.tracks[t].id as int)
            &&& forall|i: int| #![trigger next.tracks[i]]
                0 <= i < next.tracks.len() && next.tracks[i].missed_frames == 0
                    && next.tracks[i].last_rect == detections[d].rect ==> !ready_at(min_seen)(
                    next.tracks[i],
                )
        }),
{
    let tuning = default_tuning();
    let zero = Float32::nearest(0, 1);
    let next = s.after_frame(tuning, detections, zero);
    let own = refreshed(s.tracks[t], detections[d]);
    let id = own.id as int;
    law_standing_part_keeps_its_track(s, detections, t, d);
    let steps = seq![Step::Frame { detections, shift: zero }];
    assert(s.after_all(tuning, steps, 0) == s);
    assert(s.after_all(tuning, steps, 1) == next);
    law_reached_trackers_are_valid(s, tuning, steps, 1);
    let k = choose|k: int| 0 <= k < next.tracks.len() && next.tracks[k] == own;
    assert(next.spent(id)) by {
        assert forall|i: int| #![trigger next.tracks[i]]
            0 <= i < next.tracks.len() && next.tracks[i].id == id implies next.tracks[i].reported
            by {
            if i < k {
                assert(next.tracks[i].id < next.tracks[k].id);
            }
            if k < i {
                assert(next.tracks[k].id < next.tracks[i].id);
            }
        }
        assert(next.tracks[k].id < next.next_id);
    }
    law_report_spends(next, tuning, min_seen, id);
}

/// Track `t` follows object `id`, which lies in the box `r`.
pub open spec fn lies_in(s: TrackerState, t: int, id: int, r: Rect) -> bool {
    &&& 0 <= t < s.tracks.len()
    &&& s.tracks[t].id == id
    &&& s.tracks[t].last_rect == r
    &&& s.tracks[t].center == center_of(r)
}

/// A frame of a stopped belt shows a part in the box `r`, and nothing else
/// exactly there.
pub open spec fn shows_alone(
    s: TrackerState,
    detections: Seq<DetectedObject>,
    shift: Float32,
    id: int,
    r: Rect,
) -> bool {
    &&& shift == Float32::nearest(0, 1)
    &&& exists|d: int| #![trigger detections[d]]
        0 <= d < detections.len() && detections[d].rect == r && forall|t: int| #[trigger]
            lies_in(s, t, id, r) ==> alone(at_rest(s, detections), t, d)
}

/// However long the belt stands, a part that every frame shows in its place is
/// followed under the one id that it was first given, whatever else comes and
/// goes.
pub proof fn law_standing_part_keeps_its_id(
    start: TrackerState,
    steps: Seq<Step>,
    n: int,
    id: int,
    r: Rect,
)
    requires
        is_run(start, default_tuning(), steps),
        0 <= n <= steps.len(),
        r.width > 0,
        r.height > 0,
        exists|t: int| lies_in(start, t, id, r),
        forall|k: int| #![trigger steps[k]]
            0 <= k < n ==> (steps[k] matches Step::Frame { detections, shift } ==> shows_alone(
                start.after_all(default_tuning(), steps, k),
                detections,
                shift,
                id,
                r,
            )),
    ensures
        exists|t: int| lies_in(start.after_all(default_tuning(), steps, n), t, id, r),
    decreases n,
{
    if n > 0 {
        let tuning = default_tuning();
        law_standing_part_keeps_its_id(start, steps, n - 1, id, r);
        law_reached_trackers_are_valid(start, tuning, steps, n - 1);
        let s = start.after_all(tuning, steps, n - 1);
        let next = start.after_all(tuning, steps, n);
        let t = choose|t: int| lies_in(s, t, id, r);
        match steps[n - 1] {
            Step::Frame { detections, shift } => {
                let d = choose|d: int| #![trigger detections[d]]
                    0 <= d < detections.len() && detections[d].rect == r && forall|t: int|
                        #[trigger] lies_in(s, t, id, r) ==> alone(at_rest(s, detections), t, d);
                law_standing_part_keeps_its_track(s, detections, t, d);
                let own = refreshed(s.tracks[t], detections[d]);
                let k = choose|k: int| 0 <= k < next.tracks.len() && next.tracks[k] == own;
                assert(lies_in(next, k, id, r));
            },
            Step::Report { .. } | Step::Classify { .. } => {
                assert(lies_in(next, t, id, r));
            },
        }
    } else {
        assert(start.after_all(default_tuning(), steps, n) == start);
    }
}

} // verus!
