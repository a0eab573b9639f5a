//! The robot, the conveyor and the camera: what they are told, and when they
//! refuse.
pub mod calls;
pub mod camera;
pub mod conveyor;
pub mod delta;
pub mod echo;
pub mod mock;
pub mod serial;
pub mod wire;

pub use camera::{parse_fourcc, MockCamera, OpencvCamera};
pub use conveyor::SerialConveyor;
pub use delta::DeltaX2;
pub use mock::{MockConveyor, MockConveyorCommand, MockRobot, MockRobotCommand};

use crate::float::Float32;
use vstd::prelude::*;

verus! {

/// A point in robot coordinates, in millimetres.
#[derive(Clone, Copy, Debug, PartialEq)]
pub struct Position {
    pub x: Float32,
    pub y: Float32,
    pub z: Float32,
}

/// Physical workspace of the robot. Every move is held against these bounds
/// before any G-code is sent.
#[derive(Clone, Copy, Debug)]
pub struct WorkspaceLimits {
    pub x_min: Float32,
    pub x_max: Float32,
    pub y_min: Float32,
    pub y_max: Float32,
    pub z_min: Float32,
    pub z_max: Float32,
}

/// Why the robot does not take a command.
#[derive(Clone, Copy, Debug)]
pub enum RobotError {
    /// The target of a move lies outside the workspace.
    OutsideWorkspace { target: Position, limits: WorkspaceLimits },
    /// The robot is not connected.
    NotConnected,
}

/// `low <= v <= high`; never where one of them is a NaN.
pub open spec fn between(low: Float32, v: Float32, high: Float32) -> bool {
    low.at_most(v) && v.at_most(high)
}

impl WorkspaceLimits {
    /// `p` lies within the bounds on every axis.
    pub open spec fn holds(self, p: Position) -> bool {
        &&& between(self.x_min, p.x, self.x_max)
        &&& between(self.y_min, p.y, self.y_max)
        &&& between(self.z_min, p.z, self.z_max)
    }

    pub fn contains(&self, p: Position) -> (r: bool)
        ensures
            r == self.holds(p),
    {
        self.x_min.le(p.x) && p.x.le(self.x_max) && self.y_min.le(p.y) && p.y.le(self.y_max)
            && self.z_min.le(p.z) && p.z.le(self.z_max)
    }

    /// X and Y within 160 mm of the centre, Z from 200 mm below the top to
    /// the top.
    pub open spec fn delta_x2() -> WorkspaceLimits {
        WorkspaceLimits {
            x_min: Float32::nearest(-160, 1),
            x_max: Float32::nearest(160, 1),
            y_min: Float32::nearest(-160, 1),
            y_max: Float32::nearest(160, 1),
            z_min: Float32::nearest(-200, 1),
            z_max: Float32::nearest(0, 1),
        }
    }
}

impl Default for WorkspaceLimits {
    /// The envelope of the Delta X2 (SP-X2).
    fn default() -> (r: Self)
        ensures
            r == WorkspaceLimits::delta_x2(),
    {
        WorkspaceLimits {
            x_min: Float32::of(-160),
            x_max: Float32::of(160),
            y_min: Float32::of(-160),
            y_max: Float32::of(160),
            z_min: Float32::of(-200),
            z_max: Float32::of(0),
        }
    }
}

} // verus!
