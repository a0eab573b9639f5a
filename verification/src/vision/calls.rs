//! What the calls to the vision part do, seen from outside: from what they are
//! given to what they answer and what is left behind.
use super::calibration::{law_quarter_turn, law_transform_is_affine, CoordinateTransformer};
use super::catalog::{dot, names_hold, taught, text_before, Catalog};
use super::detector::{seen, BlobDetector, Contour};
use super::display::{law_display_fills_its_place, law_display_fits};
use super::frames::{
    law_far_object_is_new, law_feed_shows_nothing_else, law_feed_shows_what_is_in_view,
    law_ghosts_are_of_what_was_picked, law_handed_out_was_due, law_nearest_is_taken,
    law_report_only_marks, law_seen_track_follows_its_object,
};
use super::lifetime::{law_ghost_lasts, law_reappearing_object_is_not_picked_again};
use super::likeness::{
    counts, fits, law_dot_is_the_sum_of_products, law_most_similar_are_listed,
    law_normalized_is_of_length_one, law_recognised_by_the_most_similar, pairs_total, similarity,
};
use super::pipeline::{
    covers, crop_roi, display_size, drawn, law_belt_carries_by_its_speed,
    law_crop_is_what_the_frame_shows, to_label, unrecognised, LoopEvent, LoopStep, Overlay,
    VisionLoop, VisionPipeline,
};
use super::tracker::{
    area_of, center_of, close, distance, drifted, haunted_by, overlays, similar_areas, Departed,
    TrackedObject, Tracker,
};
use super::{ClassName, DetectedObject, Rect};
use crate::float::{Float32, Float64};
use crate::hardware::Position;
use vstd::prelude::*;

verus! {

// --- From pixels to the belt ---

/// A pixel is scaled, turned and moved. Pixels and scales are counted in halves,
/// the sine `s` and the cosine `c` as whole numbers, and the offsets in
/// quarters, as the result is.
pub proof fn law_pixel_is_scaled_turned_and_moved(
    t: &CoordinateTransformer,
    px: Float32,
    py: Float32,
    w: Position,
    p: int,
    q: int,
    kx: int,
    ky: int,
    s: int,
    c: int,
    ox: int,
    oy: int,
)
    requires
        call_ensures(CoordinateTransformer::pixel_to_world, (t, px, py), w),
        px.exactly(p, 148),
        py.exactly(q, 148),
        t.params.scale_x.exactly(kx, 148),
        t.params.scale_y.exactly(ky, 148),
        t.sin_r.exactly(s, 149),
        t.cos_r.exactly(c, 149),
        t.params.offset_x.exactly(ox, 147),
        t.params.offset_y.exactly(oy, 147),
        -0x100_0000 < p * kx < 0x100_0000,
        -0x100_0000 < q * ky < 0x100_0000,
        -0x100_0000 < (p * kx) * c < 0x100_0000,
        -0x100_0000 < (p * kx) * s < 0x100_0000,
        -0x100_0000 < (q * ky) * c < 0x100_0000,
        -0x100_0000 < (q * ky) * s < 0x100_0000,
        -0x100_0000 < (p * kx) * c - (q * ky) * s < 0x100_0000,
        -0x100_0000 < (p * kx) * s + (q * ky) * c < 0x100_0000,
        -0x100_0000 < (p * kx) * c - (q * ky) * s + ox < 0x100_0000,
        -0x100_0000 < (p * kx) * s + (q * ky) * c + oy < 0x100_0000,
    ensures
        w.x.exactly((p * kx) * c - (q * ky) * s + ox, 147),
        w.y.exactly((p * kx) * s + (q * ky) * c + oy, 147),
        w.z.exactly(0, 149),
{
    law_transform_is_affine(*t, px, py, p, q, kx, ky, s, c, ox, oy, 149);
}

/// A camera turned by a quarter sees the belt turned by a quarter, for every
/// pixel, and not mirrored.
pub proof fn law_pixel_is_turned_by_a_quarter(
    t: &CoordinateTransformer,
    px: Float32,
    py: Float32,
    w: Position,
    sense: int,
)
    requires
        call_ensures(CoordinateTransformer::pixel_to_world, (t, px, py), w),
        px.finite(),
        py.finite(),
        sense == 1 || sense == -1,
        t.params.scale_x == Float32::nearest(1, 1),
        t.params.scale_y == Float32::nearest(1, 1),
        t.params.offset_x == Float32::nearest(0, 1),
        t.params.offset_y == Float32::nearest(0, 1),
        t.sin_r == Float32::nearest(sense, 1),
        t.cos_r == Float32::nearest(0, 1),
    ensures
        w.x.finite() && w.x.units() == -(sense * py.units()),
        w.y.finite() && w.y.units() == sense * px.units(),
{
    law_quarter_turn(*t, px, py, sense);
}

// --- Detection ---

/// The objects of a frame are its contours of the right size: each of these has
/// its object, and no object is of any other.
pub proof fn law_every_contour_of_the_right_size_is_an_object(
    d: &BlobDetector,
    contours: &Vec<Contour>,
    timestamp: u64,
    captured_at: u64,
    r: Vec<DetectedObject>,
    i: int,
    k: int,
)
    requires
        call_ensures(BlobDetector::detect, (d, contours, timestamp, captured_at), r),
        d.min_area.finite(),
        d.max_area.finite(),
        0 <= i < contours@.len(),
        contours@[i].area.finite(),
        0 <= k < r@.len(),
    ensures
        r@.len() <= contours@.len(),
        d.min_area.units() <= contours@[i].area.units() <= d.max_area.units() ==> exists|n: int|
            #![trigger r@[n]]
            0 <= n < r@.len() && r@[n].rect == contours@[i].rect,
        exists|n: int| #![trigger contours@[n]]
            0 <= n < contours@.len() && contours@[n].rect == r@[k].rect && d.min_area.at_most(
                contours@[n].area,
            ) && contours@[n].area.at_most(d.max_area),
        r@[k].seen_at == captured_at && r@[k].timestamp == timestamp,
        r@[k].world_pos is None && r@[k].class is None,
{
    let keep = d.accepts();
    let kept = contours@.filter(keep);
    contours@.lemma_filter_len(keep);
    Float64::law_order_is_value(d.min_area, contours@[i].area);
    Float64::law_order_is_value(contours@[i].area, d.max_area);
    if d.min_area.units() <= contours@[i].area.units() <= d.max_area.units() {
        contours@.lemma_filter_contains(keep, i);
        let n = choose|n: int| 0 <= n < kept.len() && kept[n] == contours@[i];
        assert(r@[n] == seen(kept[n], timestamp, captured_at));
    }
    contours@.lemma_filter_pred(keep, k);
    contours@.lemma_filter_contains_rev(keep, kept[k]);
    let n = choose|n: int| 0 <= n < contours@.len() && contours@[n] == kept[k];
    assert(r@[k] == seen(kept[k], timestamp, captured_at));
    assert(contours@[n].rect == r@[k].rect);
}

// --- Tracking ---

/// With nothing else on the belt, a part that lies farther than a match may
/// from everything that was picked and lost from view is a new one: it is
/// followed under the next id, and is still to be handed out.
pub proof fn law_far_part_is_still_to_be_picked(
    tracker: &mut Tracker,
    detections: Vec<DetectedObject>,
    shift: Float32,
    done: (),
)
    requires
        call_ensures(Tracker::update, (tracker, detections, shift), done),
        old(tracker).wf(),
        old(tracker).tuning.max_missed_frames < u32::MAX,
        old(tracker).tracks@.len() == 0,
        detections@.len() == 1,
        forall|i: int| #![trigger old(tracker).ghosts@[i]]
            0 <= i < old(tracker).ghosts@.len() ==> {
                let g = old(tracker).ghosts@[i];
                !distance(
                    center_of(detections@[0].rect),
                    (g.center.0, g.center.1.sum(shift)),
                ).at_most(old(tracker).tuning.max_match_dist_px)
            },
    ensures
        final(tracker).tracks@.len() == 1,
        !final(tracker).tracks@[0].reported,
        final(tracker).tracks@[0].id == old(tracker).next_id,
        final(tracker).tracks@[0].last_rect == detections@[0].rect,
        final(tracker).tracks@[0].frames_seen == 1,
        final(tracker).next_id == old(tracker).next_id + 1,
{
    let s = old(tracker)@;
    let tuning = old(tracker).tuning;
    let d = detections@[0];
    let m = s.scene(tuning, detections@, shift).matching();
    let settled = s.settled(tuning, detections@, shift, m);
    let moved = s.scene(tuning, detections@, shift).moved(m);
    reveal(Seq::filter);
    assert(moved.len() == 0);
    assert(settled.tracks.len() == 0);
    assert forall|i: int| #![trigger settled.ghosts[i]]
        0 <= i < settled.ghosts.len() implies !distance(
        center_of(d.rect),
        settled.ghosts[i].center,
    ).at_most(tuning.max_match_dist_px) by {
        law_ghosts_are_of_what_was_picked(s, tuning, detections@, shift, m, i);
        let g = settled.ghosts[i];
        let k = choose|k: int| #![trigger s.ghosts[k]]
            0 <= k < s.ghosts.len() && g.center == (
                s.ghosts[k].center.0,
                s.ghosts[k].center.1.sum(shift),
            );
        assert(s.ghosts[k] == old(tracker).ghosts@[k]);
    }
    law_far_object_is_new(settled, tuning, d);
    assert(settled.births(tuning, detections@, m, 0) == settled);
    assert(final(tracker)@ == settled.born(tuning, d));
    assert(final(tracker)@.tracks == final(tracker).tracks@);
}

/// A part that comes up within reach of one that was picked and lost from view,
/// and is of its size, is followed, but is not handed out again.
pub proof fn law_returning_part_is_not_picked_again(
    tracker: &mut Tracker,
    detections: Vec<DetectedObject>,
    shift: Float32,
    done: (),
    i: int,
)
    requires
        call_ensures(Tracker::update, (tracker, detections, shift), done),
        old(tracker).wf(),
        old(tracker).next_id < u64::MAX,
        old(tracker).tracks@.len() == 0,
        detections@.len() == 1,
        0 <= i < old(tracker).ghosts@.len(),
        old(tracker).ghosts@[i].ttl > 1,
        ({
            let g = old(tracker).ghosts@[i];
            let r = detections@[0].rect;
            &&& distance(center_of(r), (g.center.0, g.center.1.sum(shift))).at_most(
                old(tracker).tuning.max_match_dist_px,
            )
            &&& similar_areas(g.area, area_of(r), old(tracker).tuning.max_area_ratio)
        }),
    ensures
        final(tracker).tracks@.len() == 1,
        final(tracker).tracks@[0].reported,
        final(tracker).tracks@[0].last_rect == detections@[0].rect,
{
    let s = old(tracker)@;
    let tuning = old(tracker).tuning;
    let d = detections@[0];
    let m = s.scene(tuning, detections@, shift).matching();
    let settled = s.settled(tuning, detections@, shift, m);
    let moved = s.scene(tuning, detections@, shift).moved(m);
    let kept = drifted(s.ghosts, shift);
    reveal(Seq::filter);
    reveal(haunted_by);
    assert(moved.len() == 0);
    assert(settled.tracks.len() == 0);
    law_ghost_lasts(s.ghosts, shift, i);
    let g = Departed {
        center: (s.ghosts[i].center.0, s.ghosts[i].center.1.sum(shift)),
        area: s.ghosts[i].area,
        ttl: (s.ghosts[i].ttl - 1) as u32,
    };
    let k = choose|k: int| 0 <= k < kept.len() && kept[k] == g;
    assert(settled.ghosts[k] == g);
    law_reappearing_object_is_not_picked_again(settled, tuning, d, k);
    assert(settled.births(tuning, detections@, m, 0) == settled);
    assert(final(tracker)@ == settled.born(tuning, d));
    assert(final(tracker)@.tracks == final(tracker).tracks@);
}

/// The only track and the only detection belong together where they are close:
/// the track keeps its id and whether it was handed out, and is where the part
/// is seen.
pub proof fn law_close_part_keeps_its_track(
    tracker: &mut Tracker,
    detections: Vec<DetectedObject>,
    shift: Float32,
    done: (),
)
    requires
        call_ensures(Tracker::update, (tracker, detections, shift), done),
        old(tracker).tracks@.len() == 1,
        detections@.len() == 1,
        close(old(tracker).tuning, old(tracker).tracks@[0], detections@[0], shift),
    ensures
        exists|i: int| #![trigger final(tracker).tracks@[i]]
            {
                let (t, u) = (old(tracker).tracks@[0], final(tracker).tracks@[i]);
                &&& 0 <= i < final(tracker).tracks@.len()
                &&& u.id == t.id
                &&& u.reported == t.reported
                &&& u.last_rect == detections@[0].rect
                &&& u.missed_frames == 0
                &&& u.detected.seen_at == detections@[0].seen_at
            },
{
    let s = old(tracker)@;
    let tuning = old(tracker).tuning;
    let scene = s.scene(tuning, detections@, shift);
    assert(scene.may_pair(0, 0));
    law_nearest_is_taken(scene, 0, 0);
    law_seen_track_follows_its_object(s, tuning, detections@, shift, 0, 0);
    let tracks = final(tracker).tracks@;
    assert(tracks == s.after_frame(tuning, detections@, shift).tracks);
    let u = choose|u: TrackedObject| #[trigger]
        tracks.contains(u) && u.id == s.tracks[0].id && u.reported == s.tracks[0].reported
            && u.last_rect == detections@[0].rect && u.missed_frames == 0 && u.detected.seen_at
            == detections@[0].seen_at;
    let i = choose|i: int| 0 <= i < tracks.len() && tracks[i] == u;
    assert(tracks[i] == u);
}

/// What is handed out was seen often enough and had not been handed out; asked
/// again, nothing is handed out any more.
pub proof fn law_nothing_is_handed_out_twice(
    first: &mut Tracker,
    second: &mut Tracker,
    min_seen: u32,
    x: Vec<DetectedObject>,
    y: Vec<DetectedObject>,
    k: int,
)
    requires
        call_ensures(Tracker::take_ready, (first, min_seen), x),
        *final(first) == *old(second),
        call_ensures(Tracker::take_ready, (second, min_seen), y),
    ensures
        0 <= k < x@.len() ==> exists|i: int| #![trigger old(first).tracks@[i]]
            0 <= i < old(first).tracks@.len() && old(first).tracks@[i].detected == x@[k] && !old(
                first,
            ).tracks@[i].reported && old(first).tracks@[i].frames_seen >= min_seen,
        y@.len() == 0,
{
    let s = old(first)@;
    assert(s.tracks == old(first).tracks@);
    if 0 <= k < x@.len() {
        law_handed_out_was_due(s, min_seen, k);
        let i = choose|i: int| #![trigger s.tracks[i]]
            0 <= i < s.tracks.len() && s.tracks[i].detected == s.ready(min_seen)[k]
                && !s.tracks[i].reported && s.tracks[i].frames_seen >= min_seen;
        assert(old(first).tracks@[i] == s.tracks[i]);
    }
    if y@.len() > 0 {
        let after = old(second)@;
        law_handed_out_was_due(after, min_seen, 0);
        let i = choose|i: int| #![trigger after.tracks[i]]
            0 <= i < after.tracks.len() && !after.tracks[i].reported
                && after.tracks[i].frames_seen >= min_seen;
        assert(after.tracks.len() == s.tracks.len());
        law_report_only_marks(s, min_seen, i);
    }
}

/// Every object that comes out of a frame has its place on the belt: that of
/// the middle of its box. It has been seen in three frames at least, and is
/// marked as handed out from then on.
pub proof fn law_frame_yields_placed_objects<F: Fn(&Rect) -> Option<Vec<Float32>> + Copy>(
    p: &mut VisionPipeline,
    contours: &Vec<Contour>,
    timestamp: u64,
    captured_at: u64,
    dt: u64,
    running: bool,
    embed: F,
    r: Vec<DetectedObject>,
    k: int,
)
    requires
        call_ensures(
            VisionPipeline::process_frame::<F>,
            (p, contours, timestamp, captured_at, dt, running, embed),
            r,
        ),
        0 <= k < r@.len(),
    ensures
        r@[k].world_pos == Some(
            old(p).transformer.world(center_of(r@[k].rect).0, center_of(r@[k].rect).1),
        ),
        exists|i: int| #![trigger final(p).tracker.tracks@[i]]
            {
                let t = final(p).tracker.tracks@[i];
                &&& 0 <= i < final(p).tracker.tracks@.len()
                &&& t.reported
                &&& t.frames_seen >= 3
                &&& t.detected == (DetectedObject { world_pos: t.detected.world_pos, ..r@[k] })
            },
{
    let n = super::pipeline::MIN_SEEN_FRAMES;
    let named = {
        let seen = old(p).with_frame(contours@, timestamp, captured_at, dt, running);
        if old(p).recognizer is Some {
            seen.after_classes(n, final(p).tracker@.classes())
        } else {
            seen
        }
    };
    law_handed_out_was_due(named, n, k);
    let i = choose|i: int| #![trigger named.tracks[i]]
        0 <= i < named.tracks.len() && named.tracks[i].detected == named.ready(n)[k]
            && !named.tracks[i].reported && named.tracks[i].frames_seen >= n;
    law_report_only_marks(named, n, i);
    assert(final(p).tracker.tracks@ == named.after_report(n).tracks);
    let t = final(p).tracker.tracks@[i];
    assert(t.reported && t.frames_seen >= 3);
}

/// The prediction of a frame is as far as the belt has gone since the last one,
/// at its speed and while it runs; a stopped belt takes nothing along.
pub proof fn law_frame_is_predicted_by_the_belt<F: Fn(&Rect) -> Option<Vec<Float32>> + Copy>(
    p: &mut VisionPipeline,
    contours: &Vec<Contour>,
    timestamp: u64,
    captured_at: u64,
    dt: u64,
    running: bool,
    embed: F,
    r: Vec<DetectedObject>,
    speed: int,
    n: int,
    scale: int,
    halves: int,
)
    requires
        call_ensures(
            VisionPipeline::process_frame::<F>,
            (p, contours, timestamp, captured_at, dt, running, embed),
            r,
        ),
        old(p).recognizer is None,
        old(p).belt_speed_mm_s.exactly(speed, 149),
        old(p).mm_per_px.exactly(scale, 148),
        scale != 0,
        0 <= n < 0x100_0000,
        dt == n * 250_000_000,
        -0x100_0000 < speed * n < 0x100_0000,
        speed * n == halves * scale,
        -0x100_0000 < halves < 0x100_0000,
    ensures
        exists|shift: Float32|
            shift.exactly(
                if running {
                    halves
                } else {
                    0
                },
                148,
            ) && final(p).tracker@ == (#[trigger] old(p).tracker@.after_frame(
                old(p).tracker.tuning,
                old(p).detector.objects(contours@, timestamp, captured_at),
                shift,
            )).after_report(3),
{
    let shift = old(p).belt_shift(dt, running);
    law_belt_carries_by_its_speed(*old(p), speed, n, scale, halves);
    Float32::law_integers_are_exact(0);
    assert(0 * vstd::arithmetic::power2::pow2(148) == 0 && 0 * vstd::arithmetic::power2::pow2(149)
        == 0) by (nonlinear_arith);
    let next = old(p).tracker@.after_frame(
        old(p).tracker.tuning,
        old(p).detector.objects(contours@, timestamp, captured_at),
        shift,
    );
    assert(final(p).tracker@ == next.after_report(3));
}

// --- Recognition ---

/// What is taught is kept behind all that was taught before, under its class
/// and scaled to length one.
pub proof fn law_taught_example_is_kept(
    catalog: &mut Catalog,
    class: ClassName,
    embedding: &[Float32],
    done: (),
    x: Seq<int>,
    length: int,
    i: int,
)
    requires
        call_ensures(Catalog::add, (catalog, class, embedding), done),
        embedding@.len() == x.len(),
        forall|i: int| #![trigger embedding@[i]]
            0 <= i < x.len() ==> embedding@[i] == Float32::nearest(x[i], 1),
        forall|i: int| #![trigger x[i]] 0 <= i < x.len() ==> -0x100_0000 < x[i] < 0x100_0000,
        fits(x, x),
        pairs_total(x, x, x.len() as int) == length * length,
        0 < length < 2048,
        0 <= i < x.len(),
    ensures
        final(catalog).examples@.len() == old(catalog).examples@.len() + 1,
        final(catalog).examples@.drop_last() == old(catalog).examples@,
        final(catalog).examples@.last().class == class,
        final(catalog).examples@.last().embedding@.len() == x.len(),
        final(catalog).examples@.last().embedding@[i] == Float32::nearest(x[i], length as nat),
{
    law_normalized_is_of_length_one(embedding@, x, length, i);
}

/// An embedding is recognised by the most similar example, the first one taught
/// among several, where it is similar enough.
pub proof fn law_classified_by_the_most_similar(
    catalog: &Catalog,
    embedding: &[Float32],
    min_similarity: Float32,
    r: (Option<ClassName>, Float32),
) -> (i: int)
    requires
        call_ensures(Catalog::classify, (catalog, embedding, min_similarity), r),
        catalog.examples@.len() > 0,
    ensures
        0 <= i < catalog.examples@.len(),
        r.1 == similarity(*catalog, embedding@, i),
        r.0 is Some <==> min_similarity.at_most(r.1),
        r.0 matches Some(class) ==> class == catalog.examples@[i].class,
        forall|j: int| #![trigger catalog.examples@[j]]
            0 <= j < catalog.examples@.len() ==> !r.1.below(similarity(*catalog, embedding@, j)),
        forall|j: int| #![trigger catalog.examples@[j]]
            0 <= j < i ==> similarity(*catalog, embedding@, j) != r.1,
{
    law_recognised_by_the_most_similar(*catalog, embedding@, min_similarity)
}

/// The dot product of whole numbers is the sum of their products.
pub proof fn law_dot_call_adds_the_products(
    a: &[Float32],
    b: &[Float32],
    r: Float32,
    x: Seq<int>,
    y: Seq<int>,
)
    requires
        call_ensures(dot, (a, b), r),
        counts(a@, x),
        counts(b@, y),
        x.len() == y.len(),
        fits(x, y),
    ensures
        r.exactly(pairs_total(x, y, x.len() as int), 149),
{
    law_dot_is_the_sum_of_products(a@, b@, x, y);
}

/// The most similar examples are listed, as many as were asked for or all there
/// are, the more similar first, and none that is left out is more similar. `p`
/// tells which they are.
pub proof fn law_nearest_call_lists_the_most_similar(
    catalog: &Catalog,
    embedding: &[Float32],
    n: usize,
    r: Vec<(ClassName, Float32)>,
) -> (p: Seq<int>)
    requires
        call_ensures(Catalog::nearest, (catalog, embedding, n), r),
    ensures
        p.len() == r@.len(),
        r@.len() == if n < catalog.examples@.len() {
            n as int
        } else {
            catalog.examples@.len() as int
        },
        forall|k: int| #![trigger p[k]]
            0 <= k < p.len() ==> {
                &&& 0 <= p[k] < catalog.examples@.len()
                &&& r@[k].0 == catalog.examples@[p[k]].class
                &&& r@[k].1 == similarity(*catalog, embedding@, p[k])
            },
        forall|k: int, l: int| #![trigger p[k], p[l]]
            0 <= k < l < p.len() ==> p[k] != p[l] && !r@[k].1.below(r@[l].1),
        forall|k: int, j: int| #![trigger r@[k], similarity(*catalog, embedding@, j)]
            0 <= k < p.len() && 0 <= j < catalog.examples@.len() && !p.contains(j)
                ==> !r@[k].1.below(similarity(*catalog, embedding@, j)),
{
    let p = law_most_similar_are_listed(*catalog, embedding@, n as int);
    assert forall|k: int, j: int| #![trigger r@[k], similarity(*catalog, embedding@, j)]
        0 <= k < p.len() && 0 <= j < catalog.examples@.len() && !p.contains(
            j,
        ) implies !r@[k].1.below(similarity(*catalog, embedding@, j)) by {
        let e = catalog.examples@[j];
        assert(r@[k].1 == similarity(*catalog, embedding@, p[k]));
    }
    p
}

/// The classes of a catalogue are those of its examples, each named once and in
/// the order of their characters.
pub proof fn law_classes_are_named_once_in_order(
    catalog: &Catalog,
    r: Vec<ClassName>,
    i: int,
    j: int,
    k: int,
)
    requires
        call_ensures(Catalog::classes, (catalog,), r),
        0 <= i < j < r@.len(),
        0 <= k < catalog.examples@.len(),
    ensures
        r@[i]@ != r@[j]@,
        r@[j]@.len() > 0,
        r@[i]@.len() > 0 ==> r@[i]@[0] <= r@[j]@[0],
        exists|n: int| #![trigger r@[n]]
            0 <= n < r@.len() && r@[n]@ == catalog.examples@[k].class@,
        exists|n: int| #![trigger catalog.examples@[n]]
            0 <= n < catalog.examples@.len() && catalog.examples@[n].class@ == r@[i]@,
{
    let (a, b) = (r@[i]@, r@[j]@);
    assert(text_before(a, b));
    lemma_not_before_itself(a);
    assert(taught(catalog.examples@, catalog.examples@[k].class@));
    assert(names_hold(r@, catalog.examples@[k].class@));
    assert(names_hold(r@, a));
    assert(taught(catalog.examples@, a));
}

proof fn lemma_not_before_itself(a: Seq<char>)
    ensures
        !text_before(a, a),
    decreases a.len(),
{
    if a.len() > 0 {
        lemma_not_before_itself(a.drop_first());
    }
}

// --- The feed and the loop ---

/// The boxes put before the operator are those of the objects that were not
/// recognised: every such object has its box there, and every box is of one.
pub proof fn law_every_unrecognised_object_is_put_to_the_operator(
    objects: &Vec<DetectedObject>,
    r: Vec<Rect>,
    i: int,
    k: int,
)
    requires
        call_ensures(to_label, (objects,), r),
        0 <= i < objects@.len(),
        0 <= k < r@.len(),
    ensures
        objects@[i].class is None ==> r@.contains(objects@[i].rect),
        exists|n: int| #![trigger objects@[n]]
            0 <= n < objects@.len() && objects@[n].class is None && objects@[n].rect == r@[k],
{
    let keep = unrecognised();
    let kept = objects@.filter(keep);
    if objects@[i].class is None {
        objects@.lemma_filter_contains(keep, i);
        let n = choose|n: int| 0 <= n < kept.len() && kept[n] == objects@[i];
        assert(r@[n] == objects@[i].rect);
    }
    objects@.lemma_filter_pred(keep, k);
    objects@.lemma_filter_contains_rev(keep, kept[k]);
    let n = choose|n: int| 0 <= n < objects@.len() && objects@[n] == kept[k];
    assert(objects@[n].rect == r@[k]);
}

/// The feed shows a box around everything that is in view, with its class where
/// it was recognised, in another colour where it was not; and nothing else.
pub proof fn law_feed_call_shows_what_is_in_view(
    p: &VisionPipeline,
    r: Vec<Overlay>,
    i: int,
    k: int,
)
    requires
        call_ensures(VisionPipeline::overlay_plan, (p,), r),
        0 <= i < p.tracker.tracks@.len(),
        0 <= k < r@.len(),
    ensures
        p.tracker.tracks@[i].missed_frames == 0 ==> exists|n: int| #![trigger r@[n]]
            0 <= n < r@.len() && r@[n].rect == p.tracker.tracks@[i].last_rect && r@[n].label
                == p.tracker.tracks@[i].detected.class,
        exists|n: int| #![trigger p.tracker.tracks@[n]]
            0 <= n < p.tracker.tracks@.len() && p.tracker.tracks@[n].missed_frames == 0
                && r@[k].rect == p.tracker.tracks@[n].last_rect && r@[k].label
                == p.tracker.tracks@[n].detected.class,
        r@[k].color.green == 255 && r@[k].color.blue == 0,
        r@[k].color.red == 0 <==> r@[k].label is Some,
        r@[k].label_at.0 == r@[k].rect.x,
        r@[k].label_at.1 >= 12,
{
    let tracks = p.tracker.tracks@;
    let shown = overlays(tracks);
    assert(r@[k] == drawn(shown[k].0, shown[k].1));
    law_feed_shows_nothing_else(tracks, k);
    if tracks[i].missed_frames == 0 {
        law_feed_shows_what_is_in_view(tracks, i);
        let n = choose|n: int| 0 <= n < shown.len() && shown[n] == (
            tracks[i].last_rect,
            tracks[i].detected.class,
        );
        assert(r@[n] == drawn(shown[n].0, shown[n].1));
    }
}

/// A crop shows the pixels of the frame that the box covers, and no others;
/// there is none where there are no such pixels.
pub proof fn law_crop_shows_what_the_box_covers(
    width: i32,
    height: i32,
    rect: &Rect,
    r: Option<Rect>,
    px: int,
    py: int,
)
    requires
        call_ensures(crop_roi, (width, height, rect), r),
    ensures
        ({
            let shown = covers(*rect, px, py) && 0 <= px < width && 0 <= py < height;
            match r {
                Some(c) => shown <==> covers(c, px, py),
                None => !shown,
            }
        }),
{
    law_crop_is_what_the_frame_shows(width, height, *rect, px, py);
}

/// A frame is shown as it is where there is room for it, and otherwise as large
/// as it fits; an empty one is not shown.
pub proof fn law_frame_is_shown_as_large_as_it_fits(
    w: i32,
    h: i32,
    max_w: u32,
    max_h: u32,
    r: Option<(i32, i32)>,
)
    requires
        call_ensures(display_size, (w, h, max_w, max_h), r),
        max_w > 0,
        max_h > 0,
    ensures
        r is Some <==> w > 0 && h > 0,
        r matches Some((dw, dh)) ==> {
            &&& 1 <= dw <= w && dw <= max_w
            &&& 1 <= dh <= h && dh <= max_h
            &&& w <= max_w && h <= max_h ==> dw == w && dh == h
            &&& w > max_w || h > max_h ==> dw == max_w || dh == max_h
        },
{
    if w > 0 && h > 0 {
        law_display_fits(w, h, max_w, max_h);
        law_display_fills_its_place(w, h, max_w, max_h);
    }
}

/// Of two frames in a row the second is processed with the time that passed
/// since the first, whatever came in between that was no frame.
pub proof fn law_time_is_counted_from_frame_to_frame(
    first: &mut VisionLoop,
    between: &mut VisionLoop,
    second: &mut VisionLoop,
    at: u64,
    e: LoopEvent,
    now: u64,
    x: LoopStep,
    y: LoopStep,
    z: LoopStep,
)
    requires
        call_ensures(VisionLoop::on_event, (first, LoopEvent::Captured { now: at }), x),
        *final(first) == *old(between),
        call_ensures(VisionLoop::on_event, (between, e), y),
        *final(between) == *old(second),
        call_ensures(VisionLoop::on_event, (second, LoopEvent::Captured { now }), z),
        e !is Captured,
        at <= now,
    ensures
        z matches LoopStep::Process { dt } && at + dt == now,
        y is Stop <==> (e is ChannelClosed || (e matches LoopEvent::ShutdownChanged {
            gone,
            requested,
        } && (gone || requested))),
        y is Die <==> e is ProcessingDied,
{
}

} // verus!
