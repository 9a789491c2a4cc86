//! The ways in which a camera can be moved.

use vstd::prelude::*;

verus! {

/// A step of the camera: along an axis, along its own direction, or a turn.
pub enum Direction {
    Up,
    Down,
    Left,
    Right,
    Forward,
    Backward,
    PitchUp,
    PitchDown,
    YawLeft,
    YawRight,
}

} // verus!
