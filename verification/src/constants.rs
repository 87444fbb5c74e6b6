use vstd::prelude::*;

verus! {

/// Lengths are fixed-point numbers: this many length units make one pixel.
pub const UNITS_PER_PIXEL: i64 = 1024;

/// Time steps are given in ticks: this many ticks make one second.
pub const TICKS_PER_SECOND: i64 = 1_000_000;

/// Height of the arena, in length units (900 pixels).
pub const WINDOW_HEIGHT: i64 = 921_600;

/// Width of the arena, in length units. The arena is square.
pub const WINDOW_WIDTH: i64 = WINDOW_HEIGHT;

/// Number of balls in a demonstration run.
pub const N_BALLS: usize = 5000;

/// Speed of a newly created ball, in length units per second (100 pixels per second).
pub const INITIAL_SPEED: i64 = 102_400;

/// Mass of every ball.
pub const BALL_MASS: i64 = 5;

/// Radius of every ball, in length units (2 pixels).
pub const BALL_RADIUS: i64 = 2048;

/// Distance between the centres of two balls that just touch.
pub const BALL_DIAMETER: i64 = 4096;

/// The length of the line between two overlapping balls is taken in parts
/// of a length unit: this many to the unit.
pub const LENGTH_PRECISION: i64 = 1024;

/// Coordinates and speeds up to this magnitude are far enough from the ends
/// of `i64` that no step of a collision runs into them.
pub const COORD_LIMIT: i64 = 0x1000_0000_0000_0000;

} // verus!
