//! From camera frames to pick-ready objects.
pub mod calibration;
pub mod calls;
pub mod catalog;
pub mod classifier;
pub mod detector;
pub mod display;
pub mod embedder;
pub mod feed;
pub mod frames;
pub mod likeness;
pub mod lifetime;
pub mod nearness;
pub mod pipeline;
pub mod stillness;
pub mod tracker;

use crate::float::Float32;
use crate::hardware::Position;
use vstd::prelude::*;

verus! {

/// The recognised class of an object: a label of the learned catalogue, and
/// the key by which the sorting assignments find a bin.
pub type ClassName = String;

/// A rectangle in pixel coordinates of the camera frame.
#[derive(Clone, Copy, Debug, PartialEq, Eq, Structural)]
pub struct Rect {
    pub x: i32,
    pub y: i32,
    pub width: i32,
    pub height: i32,
}

impl Rect {
    pub fn new(x: i32, y: i32, width: i32, height: i32) -> (r: Rect)
        ensures
            r == (Rect { x, y, width, height }),
    {
        Rect { x, y, width, height }
    }
}

/// One object as seen in a frame.
#[derive(Debug)]
pub struct DetectedObject {
    /// Stable track id assigned by the tracker (0 before tracking).
    pub id: u64,
    /// Bounding box in pixel coordinates (camera frame).
    pub rect: Rect,
    /// Object centre in robot coordinates (mm); z is always 0 (belt plane),
    /// the pick height comes from configuration.
    pub world_pos: Option<Position>,
    /// Recognised class name, or `None` when unrecognised. An object is picked
    /// only if its class is assigned to a bin.
    pub class: Option<ClassName>,
    /// Confidence of the recognition.
    pub confidence: Float32,
    /// Wall-clock capture time in nanoseconds since the Unix epoch, for
    /// logging only (it can go backwards).
    pub timestamp: u64,
    /// Monotonic capture time in nanoseconds, for staleness checks.
    pub seen_at: u64,
}

pub fn clone_class(class: &Option<ClassName>) -> (r: Option<ClassName>)
    ensures
        r == *class,
{
    match class {
        Some(name) => Some(name.clone()),
        None => None,
    }
}

impl Clone for DetectedObject {
    fn clone(&self) -> (r: Self)
        ensures
            r == *self,
    {
        DetectedObject {
            id: self.id,
            rect: self.rect,
            world_pos: self.world_pos,
            class: clone_class(&self.class),
            confidence: self.confidence,
            timestamp: self.timestamp,
            seen_at: self.seen_at,
        }
    }
}

} // verus!
