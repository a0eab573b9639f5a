//! Placeholders for recognition by colour and shape, and for part lookup.
use super::ClassName;
use crate::float::Float32;
use vstd::prelude::*;

verus! {

pub struct ColorShapeClassifier;

impl ColorShapeClassifier {
    pub fn new() -> (r: ColorShapeClassifier)
        ensures
            r == ColorShapeClassifier,
    {
        ColorShapeClassifier
    }

    /// Nothing is recognised, at zero confidence, so no part can be routed
    /// into the wrong bin: an unrecognised object is simply not picked.
    pub fn classify(&self) -> (r: (Option<ClassName>, Float32))
        ensures
            r.0 is None,
            r.1 == Float32::nearest(0, 1),
    {
        (None, Float32::of(0))
    }
}

pub struct BrickLinkClient {}

impl BrickLinkClient {
    pub fn new() -> (r: BrickLinkClient)
        ensures
            r == (BrickLinkClient {  }),
    {
        BrickLinkClient {  }
    }

    /// A mock query.
    pub fn search_part(&self, part_id: &str) -> (r: String)
        ensures
            r@ == "Part "@ + part_id@ + ": details..."@,
    {
        "Part ".to_owned().concat(part_id).concat(": details...")
    }
}

} // verus!
