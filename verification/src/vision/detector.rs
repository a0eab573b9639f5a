//! Which contours count as objects.
use super::{DetectedObject, Rect};
use crate::app_config::VisionConfig;
use crate::float::{Float32, Float64};
use vstd::prelude::*;

verus! {

/// A contour of the thresholded frame.
#[derive(Clone, Copy, Debug)]
pub struct Contour {
    /// Enclosed area in square pixels.
    pub area: Float64,
    /// Bounding box.
    pub rect: Rect,
}

#[derive(Clone, Copy, Debug)]
pub struct BlobDetector {
    pub min_area: Float64,
    pub max_area: Float64,
    pub threshold: Float64,
    /// Objects are darker than the belt.
    pub invert: bool,
}

/// The object that a contour stands for, before tracking.
pub open spec fn seen(c: Contour, timestamp: u64, captured_at: u64) -> DetectedObject {
    DetectedObject {
        id: 0,
        rect: c.rect,
        world_pos: None,
        class: None,
        confidence: Float32::nearest(0, 1),
        timestamp,
        seen_at: captured_at,
    }
}

impl BlobDetector {
    /// The contour is neither too small nor too large.
    pub open spec fn accepts(self) -> spec_fn(Contour) -> bool {
        |c: Contour| self.min_area.at_most(c.area) && c.area.at_most(self.max_area)
    }

    /// The objects among the contours, in their order.
    pub open spec fn objects(
        self,
        contours: Seq<Contour>,
        timestamp: u64,
        captured_at: u64,
    ) -> Seq<DetectedObject> {
        contours.filter(self.accepts()).map_values(|c: Contour| seen(c, timestamp, captured_at))
    }

    pub fn new() -> (r: BlobDetector)
        ensures
            r == (BlobDetector {
                min_area: Float64::nearest(500, 1),
                max_area: Float64::nearest(10000, 1),
                threshold: Float64::nearest(60, 1),
                invert: true,
            }),
    {
        Self::from_config(&VisionConfig::default())
    }

    pub fn from_config(cfg: &VisionConfig) -> (r: BlobDetector)
        ensures
            r == (BlobDetector {
                min_area: cfg.min_area,
                max_area: cfg.max_area,
                threshold: cfg.threshold,
                invert: cfg.invert,
            }),
    {
        BlobDetector {
            min_area: cfg.min_area,
            max_area: cfg.max_area,
            threshold: cfg.threshold,
            invert: cfg.invert,
        }
    }

    /// The objects in a frame, by its contours. `captured_at` is when the
    /// frame left the camera, not the processing time, so staleness checks
    /// take in the capture-to-processing latency.
    pub fn detect(
        &self,
        contours: &Vec<Contour>,
        timestamp: u64,
        captured_at: u64,
    ) -> (r: Vec<DetectedObject>)
        ensures
            r@ == self.objects(contours@, timestamp, captured_at),
    {
        let mut r: Vec<DetectedObject> = Vec::new();
        let mut i: usize = 0;
        let ghost keep = self.accepts();
        let ghost as_seen = |c: Contour| seen(c, timestamp, captured_at);
        proof {
            reveal(Seq::filter);
            assert(contours@.take(0).filter(keep).map_values(as_seen) =~= Seq::empty());
        }
        while i < contours.len()
            invariant
                i <= contours.len(),
                keep == self.accepts(),
                as_seen == (|c: Contour| seen(c, timestamp, captured_at)),
                r@ == contours@.take(i as int).filter(keep).map_values(as_seen),
            decreases contours.len() - i,
        {
            let c = contours[i];
            proof {
                reveal(Seq::filter);
                assert(contours@.take(i + 1).drop_last() =~= contours@.take(i as int));
                let kept = contours@.take(i as int).filter(keep);
                assert(kept.push(c).map_values(as_seen) =~= kept.map_values(as_seen).push(
                    as_seen(c),
                ));
            }
            if self.min_area.le(c.area) && c.area.le(self.max_area) {
                r.push(
                    DetectedObject {
                        id: 0,  // assigned by the tracker
                        rect: c.rect,
                        world_pos: None,  // assigned by the calibration
                        class: None,
                        confidence: Float32::of(0),
                        timestamp,
                        seen_at: captured_at,
                    },
                );
            }
            i = i + 1;
        }
        assert(contours@.take(i as int) =~= contours@);
        r
    }
}

/// Nothing is seen where there is no contour. One more contour is one more
/// object, the last, where its area is within the limits, and none otherwise;
/// the object has the box of the contour and the time of the frame, and is
/// still without a number, a place and a class.
pub proof fn law_objects_are_contours_of_the_right_size(
    d: BlobDetector,
    contours: Seq<Contour>,
    c: Contour,
    timestamp: u64,
    captured_at: u64,
)
    requires
        d.min_area.finite(),
        d.max_area.finite(),
        c.area.finite(),
    ensures
        d.objects(Seq::empty(), timestamp, captured_at).len() == 0,
        ({
            let before = d.objects(contours, timestamp, captured_at);
            let after = d.objects(contours.push(c), timestamp, captured_at);
            if d.min_area.units() <= c.area.units() <= d.max_area.units() {
                let o = after.last();
                &&& after.len() == before.len() + 1
                &&& after.drop_last() == before
                &&& o.rect == c.rect
                &&& o.timestamp == timestamp
                &&& o.seen_at == captured_at
                &&& o.id == 0 && o.world_pos is None && o.class is None
                &&& o.confidence.exactly(0, 149)
            } else {
                after == before
            }
        }),
{
    let more = contours.push(c);
    let as_seen = |c: Contour| seen(c, timestamp, captured_at);
    reveal(Seq::filter);
    Float32::law_integers_are_exact(0);
    Float64::law_order_is_value(d.min_area, c.area);
    Float64::law_order_is_value(c.area, d.max_area);
    assert(more.drop_last() =~= contours);
    let kept = contours.filter(d.accepts());
    assert(kept.push(c).map_values(as_seen) =~= kept.map_values(as_seen).push(as_seen(c)));
    assert(d.objects(contours, timestamp, captured_at).push(as_seen(c)).drop_last() =~= d.objects(
        contours,
        timestamp,
        captured_at,
    ));
}

} // verus!
