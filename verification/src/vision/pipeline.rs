//! Frame by frame: contours to tracked objects to picks, and what is shown of
//! them.
use super::calibration::{
    centering_offset, law_transform_is_affine, CalibrationParams, CoordinateTransformer,
};
use super::detector::{BlobDetector, Contour};
use super::embedder::Recognizer;
use super::nearness::{law_centre_is_halfway, picture_sized};
use super::tracker::{
    awaits_class, center_of, default_tuning, overlays, rect_center, Tracker, TrackerState,
};
use super::{clone_class, ClassName, DetectedObject, Rect};
use crate::app_config::AppConfig;
use crate::float::format::binary32;
use crate::float::lemmas::lemma_rounded_bound;
use crate::float::nearest::law_representable_is_kept;
use crate::float::{Float32, Float64};
use vstd::arithmetic::power2::{lemma2_to64, lemma_pow2_adds, pow2};
use vstd::prelude::*;

verus! {

/// Frames a track must be detected in before it is emitted as pick-ready.
pub const MIN_SEEN_FRAMES: u32 = 3;

/// Backoff after a failed frame, in milliseconds, so a dead camera does not
/// spin the loop.
pub const CAPTURE_RETRY_MS: u64 = 500;

/// Max display size the feed is downscaled to.
pub const DISPLAY_MAX_W: u32 = 640;

pub const DISPLAY_MAX_H: u32 = 480;

/// A duration in nanoseconds as seconds.
pub open spec fn seconds(dt: u64) -> Float32 {
    let billion: u64 = 1_000_000_000;
    Float32::nearest((dt / billion) as int, 1).sum(
        Float32::nearest((dt % billion) as int, 1).quotient(Float32::nearest(1_000_000_000, 1)),
    )
}

fn seconds_of(dt: u64) -> (r: Float32)
    ensures
        r == seconds(dt),
{
    let whole: i64 = (dt / 1_000_000_000) as i64;
    let part: i64 = (dt % 1_000_000_000) as i64;
    Float32::of(whole).plus(Float32::of(part).over(Float32::of(1_000_000_000)))
}

/// An object with its place in robot coordinates.
pub open spec fn placed(t: CoordinateTransformer, obj: DetectedObject) -> DetectedObject {
    let c = center_of(obj.rect);
    DetectedObject { world_pos: Some(t.world(c.0, c.1)), ..obj }
}

/// Detection to tracking to world coordinates. Owns all per-frame state; pure
/// with respect to time.
pub struct VisionPipeline {
    pub detector: BlobDetector,
    pub tracker: Tracker,
    pub transformer: CoordinateTransformer,
    /// Signed belt speed in robot coordinates, mm/s (positive = +Y).
    pub belt_speed_mm_s: Float32,
    /// Camera scale at the belt plane, mm per pixel.
    pub mm_per_px: Float32,
    /// Recognition, when it is on. `None`: every object stays unrecognised.
    pub recognizer: Option<Recognizer>,
}

/// What recognition makes of the object in `rect`: nothing where it has no
/// embedding.
pub open spec fn answer<F: Fn(&Rect) -> Option<Vec<Float32>>>(
    rec: Recognizer,
    embed: F,
    rect: Rect,
    class: Option<ClassName>,
) -> bool {
    exists|e: Option<Vec<Float32>>| #[trigger]
        call_ensures(embed, (&rect,), e) && class == match e {
            Some(v) => rec.class_of(v@),
            None => None,
        }
}

impl VisionPipeline {
    pub open spec fn wf(self) -> bool {
        self.tracker.wf()
    }

    /// Belt motion between two frames, in pixels along +y; none while the
    /// belt is stopped.
    pub open spec fn belt_shift(self, dt: u64, belt_running: bool) -> Float32 {
        if belt_running {
            self.belt_speed_mm_s.product(seconds(dt)).quotient(self.mm_per_px)
        } else {
            Float32::nearest(0, 1)
        }
    }

    /// The tracker once it has taken in the frame.
    pub open spec fn with_frame(
        self,
        contours: Seq<Contour>,
        timestamp: u64,
        captured_at: u64,
        dt: u64,
        belt_running: bool,
    ) -> TrackerState {
        self.tracker@.after_frame(
            self.tracker.tuning,
            self.detector.objects(contours, timestamp, captured_at),
            self.belt_shift(dt, belt_running),
        )
    }

    /// `width`/`height` are the capture resolution actually in effect, in
    /// pixels.
    pub fn new(config: &AppConfig, width: u32, height: u32) -> (r: VisionPipeline)
        ensures
            r.wf(),
            r.detector == (BlobDetector {
                min_area: config.vision.min_area,
                max_area: config.vision.max_area,
                threshold: config.vision.threshold,
                invert: config.vision.invert,
            }),
            r.tracker.tuning == default_tuning(),
            r.tracker@ == (TrackerState {
                next_id: 1,
                tracks: Seq::empty(),
                ghosts: Seq::empty(),
            }),
            r.transformer == CoordinateTransformer::upright(
                width,
                height,
                config.vision.mm_per_px,
            ),
            r.belt_speed_mm_s == config.conveyor.speed_mm_s,
            r.mm_per_px == config.vision.mm_per_px,
            r.recognizer is None,
    {
        let mm_per_px = config.vision.mm_per_px;
        VisionPipeline {
            detector: BlobDetector::from_config(&config.vision),
            tracker: Tracker::new(),
            // The centred calibration has no rotation: sine 0, cosine 1.
            transformer: CoordinateTransformer::new(
                CalibrationParams::centered(width, height, mm_per_px),
                Float32::of(0),
                Float32::of(1),
            ),
            belt_speed_mm_s: config.conveyor.speed_mm_s,
            mm_per_px,
            recognizer: None,
        }
    }

    /// Attach a recogniser.
    pub fn set_recognizer(&mut self, recognizer: Recognizer)
        ensures
            *final(self) == (VisionPipeline { recognizer: Some(recognizer), ..*old(self) }),
    {
        self.recognizer = Some(recognizer);
    }

    /// Process the contours of one frame captured `dt` nanoseconds after the
    /// previous one, at `captured_at`. `belt_running` is the actual conveyor
    /// run-state: when it is stopped the prediction shift is zero, so a
    /// stationary part cannot drift out of its track and be re-emitted.
    /// `embed(rect)` is the embedding of what the frame shows in `rect`, or
    /// `None`. Returns the pick-ready objects with `world_pos` set in robot
    /// mm; z stays 0 (belt plane).
    pub fn process_frame<F: Fn(&Rect) -> Option<Vec<Float32>> + Copy>(
        &mut self,
        contours: &Vec<Contour>,
        timestamp: u64,
        captured_at: u64,
        dt: u64,
        belt_running: bool,
        embed: F,
    ) -> (r: Vec<DetectedObject>)
        requires
            old(self).wf(),
            old(self).tracker.next_id + contours.len() <= u64::MAX,
            forall|rect: Rect| call_requires(embed, (&rect,)),
        ensures
            final(self).wf(),
            final(self).detector == old(self).detector,
            final(self).transformer == old(self).transformer,
            final(self).belt_speed_mm_s == old(self).belt_speed_mm_s,
            final(self).mm_per_px == old(self).mm_per_px,
            final(self).recognizer == old(self).recognizer,
            final(self).tracker.tuning == old(self).tracker.tuning,
            ({
                let seen = old(self).with_frame(
                    contours@,
                    timestamp,
                    captured_at,
                    dt,
                    belt_running,
                );
                let classes = final(self).tracker@.classes();
                let named = if old(self).recognizer is Some {
                    seen.after_classes(MIN_SEEN_FRAMES, classes)
                } else {
                    seen
                };
                &&& final(self).tracker@ == named.after_report(MIN_SEEN_FRAMES)
                &&& r@ == named.ready(MIN_SEEN_FRAMES).map_values(
                    |obj: DetectedObject| placed(old(self).transformer, obj),
                )
                &&& old(self).recognizer matches Some(rec) ==> forall|i: int|
                    #![trigger seen.tracks[i]]
                    0 <= i < seen.tracks.len() && awaits_class(seen.tracks[i], MIN_SEEN_FRAMES)
                        ==> answer(rec, embed, seen.tracks[i].last_rect, classes[i])
            }),
    {
        let detections = self.detector.detect(contours, timestamp, captured_at);
        proof {
            contours@.lemma_filter_len(self.detector.accepts());
        }
        // The centred calibration has no rotation, so robot +Y is aligned with
        // pixel +y and a belt speed in mm/s converts straight to a pixel
        // shift.
        let shift = if belt_running {
            self.belt_speed_mm_s.times(seconds_of(dt)).over(self.mm_per_px)
        } else {
            Float32::of(0)
        };
        self.tracker.update(detections, shift);
        let ghost seen = self.tracker@;
        let ghost named = seen;
        if let Some(rec) = &self.recognizer {
            let classify = |rect: &Rect| -> (class: Option<ClassName>)
                requires
                    call_requires(embed, (rect,)),
                ensures
                    answer(*rec, embed, *rect, class),
            {
                let e = embed(rect);
                assert(call_ensures(embed, (rect,), e));
                match &e {
                    Some(v) => rec.classify(v.as_slice()),
                    None => None,
                }
            };
            self.tracker.classify_ready_tracks(MIN_SEEN_FRAMES, classify);
            proof {
                named = self.tracker@;
                let classes = named.classes();
                assert forall|i: int| #![trigger seen.tracks[i]]
                    0 <= i < seen.tracks.len() && awaits_class(
                        seen.tracks[i],
                        MIN_SEEN_FRAMES,
                    ) implies answer(*rec, embed, seen.tracks[i].last_rect, classes[i]) by {
                    assert(named.tracks[i].detected.class == classes[i]);
                }
            }
        }
        let mut ready = self.tracker.take_ready(MIN_SEEN_FRAMES);
        assert(self.tracker@.classes() =~= named.classes());
        let ghost start = ready@;
        let mut i: usize = 0;
        while i < ready.len()
            invariant
                i <= ready.len() == start.len(),
                forall|j: int| #![trigger ready@[j]]
                    0 <= j < i ==> ready@[j] == placed(self.transformer, start[j]),
                forall|j: int| #![trigger ready@[j]]
                    i <= j < start.len() ==> ready@[j] == start[j],
            decreases ready.len() - i,
        {
            assert(ready@[i as int] == start[i as int]);
            let (cx, cy): (Float32, Float32) = rect_center(&ready[i].rect);
            ready[i].world_pos = Some(self.transformer.pixel_to_world(cx, cy));
            i = i + 1;
        }
        assert(ready@ =~= start.map_values(
            |obj: DetectedObject| placed(old(self).transformer, obj),
        ));
        ready
    }

    /// What is drawn over the current frame: a box around every track visible
    /// in it, with the class name of a recognised one.
    pub fn overlay_plan(&self) -> (r: Vec<Overlay>)
        ensures
            r@ == overlays(self.tracker.tracks@).map_values(
                |o: (Rect, Option<ClassName>)| drawn(o.0, o.1),
            ),
    {
        let shown = self.tracker.current_overlays();
        let mut r: Vec<Overlay> = Vec::new();
        let mut i: usize = 0;
        while i < shown.len()
            invariant
                i <= shown.len(),
                r@.len() == i,
                forall|j: int| #![trigger r@[j]]
                    0 <= j < i ==> r@[j] == drawn(shown@[j].0, shown@[j].1),
            decreases shown.len() - i,
        {
            let rect = shown[i].0;
            let color = overlay_color(&shown[i].1);
            let label = clone_class(&shown[i].1);
            r.push(Overlay { rect, color, label, label_at: label_position(&rect) });
            i = i + 1;
        }
        assert(r@ =~= overlays(self.tracker.tracks@).map_values(
            |o: (Rect, Option<ClassName>)| drawn(o.0, o.1),
        ));
        r
    }
}

/// An object that was not recognised.
pub open spec fn unrecognised() -> spec_fn(DetectedObject) -> bool {
    |o: DetectedObject| o.class is None
}

/// The boxes of what is put before the operator to label: every object that
/// was not recognised, in order.
pub fn to_label(objects: &Vec<DetectedObject>) -> (r: Vec<Rect>)
    ensures
        r@ == objects@.filter(unrecognised()).map_values(|o: DetectedObject| o.rect),
{
    let ghost rect = |o: DetectedObject| o.rect;
    let mut r: Vec<Rect> = Vec::new();
    let mut i: usize = 0;
    proof {
        reveal(Seq::filter);
        assert(objects@.take(0).filter(unrecognised()).map_values(rect) =~= Seq::empty());
    }
    while i < objects.len()
        invariant
            i <= objects.len(),
            rect == (|o: DetectedObject| o.rect),
            r@ == objects@.take(i as int).filter(unrecognised()).map_values(rect),
        decreases objects.len() - i,
    {
        let o = &objects[i];
        proof {
            reveal(Seq::filter);
            assert(objects@.take(i + 1).drop_last() =~= objects@.take(i as int));
            let seen = objects@.take(i as int).filter(unrecognised());
            assert(seen.push(*o).map_values(rect) =~= seen.map_values(rect).push(o.rect));
        }
        if o.class.is_none() {
            r.push(o.rect);
        }
        i = i + 1;
    }
    assert(objects@.take(i as int) =~= objects@);
    r
}

/// While the belt is stopped, neither its configured speed nor the time that
/// has passed matters to what is tracked.
pub proof fn law_stopped_belt_ignores_speed_and_time(
    a: VisionPipeline,
    b: VisionPipeline,
    contours: Seq<Contour>,
    timestamp: u64,
    captured_at: u64,
    dt_a: u64,
    dt_b: u64,
)
    requires
        a.detector == b.detector,
        a.tracker@ == b.tracker@,
        a.tracker.tuning == b.tracker.tuning,
    ensures
        a.with_frame(contours, timestamp, captured_at, dt_a, false) == b.with_frame(
            contours,
            timestamp,
            captured_at,
            dt_b,
            false,
        ),
{
}

/// An integer of up to 24 binary digits and then zeros is represented.
proof fn lemma_round_number(m: int, e: nat, n: int)
    requires
        0 <= m < 0x100_0000,
        e <= 10,
        n == m * pow2(e),
    ensures
        Float32::nearest(n, 1).exactly(m, 149 + e),
{
    let c = Float32::lemma_represented(m, 149 + e);
    let x = Float32::nearest(n, 1);
    lemma_pow2_adds(e, 149);
    assert(n * pow2(149) == m * pow2(149 + e) && n >= 0) by (nonlinear_arith)
        requires
            n == m * pow2(e),
            pow2(149 + e) == pow2(e) * pow2(149),
            m >= 0,
            pow2(e) >= 0,
    ;
    Float32::lemma_limits();
    Float32::lemma_zero_size();
    lemma_rounded_bound();
    reveal(Float32::nearest);
    assert(c.size() * 1 == c.size());
    law_representable_is_kept(binary32(), (n * pow2(149)) as nat, 1, c.parts().rest);
}

/// A number of quarters of a second is that many quarters.
pub proof fn law_seconds_count_nanoseconds(n: int)
    requires
        0 <= n < 0x100_0000,
    ensures
        seconds((n * 250_000_000) as u64).exactly(n, 147),
{
    let dt = (n * 250_000_000) as u64;
    let (q, k) = (n / 4, n % 4);
    let whole = Float32::nearest(q, 1);
    let rest = Float32::nearest(k * 250_000_000, 1);
    let billion = Float32::nearest(1_000_000_000, 1);
    assert(dt as int / 1_000_000_000 == q && dt as int % 1_000_000_000 == k * 250_000_000);
    lemma2_to64();
    Float32::law_integers_are_exact(q);
    Float32::law_finer(whole, q, 147, 2);
    lemma_round_number(k * 1953125, 7, k * 250_000_000);
    lemma_round_number(1953125, 9, 1_000_000_000);
    Float32::law_whole_quotient(rest, billion, k, 1953125, 156, 158);
    Float32::law_whole_sum(whole, rest.quotient(billion), q * 4, k, 147);
}

/// The belt carries what lies on it as far as it runs: at `speed` millimetres
/// per second for `n` quarters of a second, and with `scale` half millimetres
/// to the pixel, by `halves` half pixels along +y where the way comes out in
/// these; the other way for a speed below zero.
pub proof fn law_belt_carries_by_its_speed(
    p: VisionPipeline,
    speed: int,
    n: int,
    scale: int,
    halves: int,
)
    requires
        p.belt_speed_mm_s.exactly(speed, 149),
        p.mm_per_px.exactly(scale, 148),
        scale != 0,
        0 <= n < 0x100_0000,
        -0x100_0000 < speed * n < 0x100_0000,
        speed * n == halves * scale,
        -0x100_0000 < halves < 0x100_0000,
    ensures
        p.belt_shift((n * 250_000_000) as u64, true).exactly(halves, 148),
{
    let dt = (n * 250_000_000) as u64;
    let way = p.belt_speed_mm_s.product(seconds(dt));
    law_seconds_count_nanoseconds(n);
    Float32::law_whole_product(p.belt_speed_mm_s, seconds(dt), speed, n, 149, 147);
    Float32::law_whole_quotient(way, p.mm_per_px, halves, scale, 147, 148);
}

/// A belt that is stopped carries nothing, however fast it would run.
pub proof fn law_stopped_belt_carries_nothing(p: VisionPipeline, dt: u64)
    ensures
        p.belt_shift(dt, false).exactly(0, 149),
{
    Float32::law_integers_are_exact(0);
}

/// An object lies where its box does: the middle of the box, measured from the
/// middle of the picture, at the scale of the camera. With `scale` half
/// millimetres to the pixel the place comes out in quarters of a millimetre.
pub proof fn law_object_lies_where_its_box_does(
    width: u32,
    height: u32,
    scale: Float32,
    k: int,
    obj: DetectedObject,
)
    requires
        scale.exactly(k, 148),
        picture_sized(obj.rect),
        width < 0x8000,
        height < 0x8000,
        -0x8000 < obj.rect.x < 0x8000,
        -0x8000 < obj.rect.y < 0x8000,
        0 < k < 64,
    ensures
        ({
            let o = placed(CoordinateTransformer::upright(width, height, scale), obj);
            let r = obj.rect;
            &&& o.world_pos is Some
            &&& o.world_pos->0.x.exactly((2 * r.x + r.width - width) * k, 147)
            &&& o.world_pos->0.y.exactly((2 * r.y + r.height - height) * k, 147)
            &&& o.world_pos->0.z.exactly(0, 149)
            &&& o == (DetectedObject { world_pos: o.world_pos, ..obj })
        }),
{
    let t = CoordinateTransformer::upright(width, height, scale);
    let c = center_of(obj.rect);
    let r = obj.rect;
    let (p, q) = (2 * r.x + r.width, 2 * r.y + r.height);
    law_centre_is_halfway(r);
    Float32::law_integers_are_exact(0);
    Float32::law_integers_are_exact(1);
    lemma_offset(width, scale, k);
    lemma_offset(height, scale, k);
    assert(-0x80_0000 < p * k < 0x80_0000 && -0x80_0000 < q * k < 0x80_0000) by (nonlinear_arith)
        requires
            -0x1_1000 < p < 0x1_1000,
            -0x1_1000 < q < 0x1_1000,
            0 < k < 64,
    ;
    assert(0 <= width * k < 0x20_0000 && 0 <= height * k < 0x20_0000) by (nonlinear_arith)
        requires
            0 <= width < 0x8000,
            0 <= height < 0x8000,
            0 < k < 64,
    ;
    law_transform_is_affine(
        t,
        c.0,
        c.1,
        p,
        q,
        k,
        k,
        0,
        1,
        -(width * k),
        -(height * k),
        149,
    );
    assert((p - width) * k == p * k - width * k) by (nonlinear_arith);
    assert((q - height) * k == q * k - height * k) by (nonlinear_arith);
}

proof fn lemma_offset(length: u32, scale: Float32, k: int)
    requires
        scale.exactly(k, 148),
        length < 0x8000,
        0 < k < 64,
    ensures
        centering_offset(length, scale).exactly(-(length * k), 147),
{
    let whole = Float32::nearest(length as int, 1);
    let two = Float32::nearest(2, 1);
    let back = whole.opposite();
    Float32::law_integers_are_exact(length as int);
    Float32::law_integers_are_exact(2);
    lemma2_to64();
    lemma_pow2_adds(1, 149);
    assert(2 * pow2(149) == 1 * pow2(150)) by (nonlinear_arith)
        requires
            pow2(150) == 2 * pow2(149),
    ;
    assert(two.exactly(1, 150));
    assert(-length * pow2(149) == -(length * pow2(149))) by (nonlinear_arith);
    assert(back.finite() && back.units() == -whole.units());
    assert(back.exactly(-length, 149));
    assert(0 <= length * k < 0x20_0000 && (-length) * k == -(length * k)) by (nonlinear_arith)
        requires
            0 <= length < 0x8000,
            0 < k < 64,
    ;
    Float32::law_whole_product(back, scale, -length, k, 149, 148);
    let o = -(length * k);
    assert(o * 1 == o);
    Float32::law_whole_quotient(back.product(scale), two, o, 1, 148, 150);
}

/// A colour as blue, green and red.
#[derive(Clone, Copy, Debug, PartialEq, Eq, Structural)]
pub struct Bgr {
    pub blue: u8,
    pub green: u8,
    pub red: u8,
}

/// One box on the live feed.
#[derive(Debug)]
pub struct Overlay {
    pub rect: Rect,
    pub color: Bgr,
    /// The class name, for a recognised object.
    pub label: Option<ClassName>,
    /// Where the name goes.
    pub label_at: (i32, i32),
}

/// Recognised parts are green; anything still unrecognised is yellow.
pub open spec fn color_of(class: Option<ClassName>) -> Bgr {
    match class {
        Some(_) => Bgr { blue: 0, green: 255, red: 0 },
        None => Bgr { blue: 0, green: 255, red: 255 },
    }
}

pub open spec fn drawn(rect: Rect, class: Option<ClassName>) -> Overlay {
    Overlay { rect, color: color_of(class), label: class, label_at: label_point(rect) }
}

/// Eight pixels above the box, but not above the twelfth row.
pub open spec fn label_point(r: Rect) -> (i32, i32) {
    (
        r.x,
        if r.y - 8 < 12 {
            12
        } else {
            (r.y - 8) as i32
        },
    )
}

pub fn overlay_color(class: &Option<ClassName>) -> (r: Bgr)
    ensures
        r == color_of(*class),
{
    match class {
        Some(_) => Bgr { blue: 0, green: 255, red: 0 },
        None => Bgr { blue: 0, green: 255, red: 255 },
    }
}

fn label_position(r: &Rect) -> (p: (i32, i32))
    ensures
        p == label_point(*r),
{
    (
        r.x,
        if r.y < 20 {
            12
        } else {
            r.y - 8
        },
    )
}

/// What `r` and a frame of `width` by `height` have in common: the corner, and
/// how far it goes from there. Nothing, where either length is not positive.
pub open spec fn inside(width: i32, height: i32, r: Rect) -> (int, int, int, int) {
    let x = if r.x < 0 { 0 } else { r.x as int };
    let y = if r.y < 0 { 0 } else { r.y as int };
    let right = if r.x + r.width < width { r.x + r.width } else { width as int };
    let bottom = if r.y + r.height < height { r.y + r.height } else { height as int };
    (x, y, right - x, bottom - y)
}

/// Clamp `rect` to the frame. Detections can sit partly off-frame near the
/// edges; clamping keeps the region valid. `None` where nothing is left.
pub fn crop_roi(width: i32, height: i32, rect: &Rect) -> (r: Option<Rect>)
    ensures
        ({
            let (x, y, w, h) = inside(width, height, *rect);
            if w <= 0 || h <= 0 {
                r is None
            } else {
                r matches Some(c) && c.x == x && c.y == y && c.width == w && c.height == h
            }
        }),
{
    let x: i64 = if rect.x < 0 {
        0
    } else {
        rect.x as i64
    };
    let y: i64 = if rect.y < 0 {
        0
    } else {
        rect.y as i64
    };
    let mut right: i64 = rect.x as i64 + rect.width as i64;
    if right > width as i64 {
        right = width as i64;
    }
    let mut bottom: i64 = rect.y as i64 + rect.height as i64;
    if bottom > height as i64 {
        bottom = height as i64;
    }
    let w: i64 = right - x;
    let h: i64 = bottom - y;
    if w <= 0 || h <= 0 {
        None
    } else {
        Some(Rect::new(x as i32, y as i32, w as i32, h as i32))
    }
}

/// A region that is cropped lies within the frame.
pub proof fn law_crop_stays_inside(width: i32, height: i32, r: Rect)
    requires
        width >= 0,
        height >= 0,
        inside(width, height, r).2 > 0,
        inside(width, height, r).3 > 0,
    ensures
        ({
            let (x, y, w, h) = inside(width, height, r);
            0 <= x && x + w <= width && 0 <= y && y + h <= height
        }),
{
}

/// The pixel in column `px` and row `py` is one of `r`.
pub open spec fn covers(r: Rect, px: int, py: int) -> bool {
    r.x <= px < r.x + r.width && r.y <= py < r.y + r.height
}

/// The pixels of a crop are those of the frame that the box covers; where
/// there is no crop, there are none.
pub proof fn law_crop_is_what_the_frame_shows(
    width: i32,
    height: i32,
    r: Rect,
    px: int,
    py: int,
)
    ensures
        ({
            let (x, y, w, h) = inside(width, height, r);
            let shown = covers(r, px, py) && 0 <= px < width && 0 <= py < height;
            &&& w > 0 && h > 0 ==> (shown <==> x <= px < x + w && y <= py < y + h)
            &&& w <= 0 || h <= 0 ==> !shown
        }),
{
}

/// The factor by which a frame is scaled for display: it fits, and is never
/// enlarged.
pub open spec fn display_scale(w: i32, h: i32, max_w: u32, max_h: u32) -> Float64 {
    Float64::nearest(max_w as int, 1).quotient(Float64::nearest(w as int, 1)).smaller(
        Float64::nearest(max_h as int, 1).quotient(Float64::nearest(h as int, 1)),
    ).smaller(Float64::nearest(1, 1))
}

/// A length scaled and rounded, at least one.
pub open spec fn scaled(length: i32, scale: Float64) -> int {
    let n = Float64::nearest(length as int, 1).product(scale).rounded_i32();
    if n < 1 {
        1
    } else {
        n
    }
}

fn scale_length(length: i32, scale: Float64) -> (r: i32)
    ensures
        r == scaled(length, scale),
{
    let n: i32 = Float64::of(length as i64).times(scale).round_i32();
    if n < 1 {
        1
    } else {
        n
    }
}

/// The size a frame of `w` by `h` is shown at; `None` for an empty frame.
pub fn display_size(w: i32, h: i32, max_w: u32, max_h: u32) -> (r: Option<(i32, i32)>)
    ensures
        if w <= 0 || h <= 0 {
            r is None
        } else {
            let scale = display_scale(w, h, max_w, max_h);
            r matches Some((dw, dh)) && dw == scaled(w, scale) && dh == scaled(h, scale)
        },
{
    if w <= 0 || h <= 0 {
        return None;
    }
    let scale = Float64::of(max_w as i64).over(Float64::of(w as i64)).min(
        Float64::of(max_h as i64).over(Float64::of(h as i64)),
    ).min(Float64::of(1));
    Some((scale_length(w, scale), scale_length(h, scale)))
}

// --- The loop ---

/// What the vision loop is told.
#[derive(Clone, Copy, Debug, PartialEq, Eq, Structural)]
pub enum LoopEvent {
    /// The shutdown signal changed; `requested` is its value, and it is
    /// `gone` when nobody can change it any more.
    ShutdownChanged { gone: bool, requested: bool },
    /// The camera gave no frame.
    CaptureFailed,
    /// A frame was captured at this instant, in nanoseconds.
    Captured { now: u64 },
    /// The frame could not be processed.
    ProcessingFailed,
    /// Processing panicked.
    ProcessingDied,
    /// The frame is processed and its picks are sent.
    Processed,
    /// The orchestrator takes no more picks.
    ChannelClosed,
}

/// What the vision loop does next.
#[derive(Clone, Copy, Debug, PartialEq, Eq, Structural)]
pub enum LoopStep {
    /// Wait for the shutdown signal or the next frame, the signal first.
    Capture,
    /// The same, after a pause in milliseconds.
    CaptureAfter { millis: u64 },
    /// Process the frame; this long has passed since the previous one, in
    /// nanoseconds.
    Process { dt: u64 },
    /// Release the camera and end.
    Stop,
    /// End for good: detection is dead until restart.
    Die,
}

/// The vision loop between two frames.
pub struct VisionLoop {
    /// When the previous frame was captured, in nanoseconds.
    pub last_frame: u64,
}

/// What an event asks for, `last` being when the previous frame was captured.
pub open spec fn loop_step(last: u64, e: LoopEvent) -> LoopStep {
    match e {
        LoopEvent::ShutdownChanged { gone, requested } => if gone || requested {
            LoopStep::Stop
        } else {
            LoopStep::Capture
        },
        LoopEvent::CaptureFailed | LoopEvent::ProcessingFailed => LoopStep::CaptureAfter {
            millis: CAPTURE_RETRY_MS,
        },
        LoopEvent::Captured { now } => LoopStep::Process {
            dt: if now < last {
                0
            } else {
                (now - last) as u64
            },
        },
        LoopEvent::ProcessingDied => LoopStep::Die,
        LoopEvent::Processed => LoopStep::Capture,
        LoopEvent::ChannelClosed => LoopStep::Stop,
    }
}

impl VisionLoop {
    pub fn new(now: u64) -> (r: VisionLoop)
        ensures
            r.last_frame == now,
    {
        VisionLoop { last_frame: now }
    }

    /// Takes in one event.
    pub fn on_event(&mut self, e: LoopEvent) -> (r: LoopStep)
        ensures
            r == loop_step(old(self).last_frame, e),
            final(self).last_frame == match e {
                LoopEvent::Captured { now } => now,
                _ => old(self).last_frame,
            },
    {
        match e {
            LoopEvent::ShutdownChanged { gone, requested } => {
                if gone || requested {
                    LoopStep::Stop
                } else {
                    LoopStep::Capture
                }
            },
            LoopEvent::CaptureFailed => LoopStep::CaptureAfter { millis: CAPTURE_RETRY_MS },
            LoopEvent::ProcessingFailed => LoopStep::CaptureAfter { millis: CAPTURE_RETRY_MS },
            LoopEvent::Captured { now } => {
                let dt: u64 = if now < self.last_frame {
                    0
                } else {
                    now - self.last_frame
                };
                self.last_frame = now;
                LoopStep::Process { dt }
            },
            // A panic in processing is a bug: stop rather than risk feeding
            // garbage picks.
            LoopEvent::ProcessingDied => LoopStep::Die,
            LoopEvent::Processed => LoopStep::Capture,
            LoopEvent::ChannelClosed => LoopStep::Stop,
        }
    }
}

} // verus!
