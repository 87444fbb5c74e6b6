//! Balls that bounce inside a square arena and off each other.
//!
//! Every length is a fixed-point number: an `i64` count of length units, of
//! which [`constants::UNITS_PER_PIXEL`] make one pixel. Speeds are in length
//! units per second, time steps in ticks. All arithmetic is on integers, with
//! stated rounding, so every result is determined exactly, and what the
//! functions promise is proved of the code that runs.
//!
//! - [`quad`]: squares, their overlap and containment tests, and their
//!   division into four quadrants.
//! - [`quadtree`]: a quadtree over a boundary square that indexes points by
//!   position; [`tree`] holds its mathematical model and [`tree_laws`] what
//!   is proved of that model, above all that a query of an up-to-date tree
//!   finds what a scan of all points finds.
//! - [`ball`]: a ball, its step with reflection at the walls, and the
//!   resolution of a collision of two balls; [`ball_laws`] and
//!   [`energy_laws`] hold what is proved of them.
//! - [`ball_collection`] and [`ball_collection_qt`]: populations of balls
//!   that are moved on frame by frame, one testing all pairs, one using the
//!   quadtree; [`frame_laws`] and [`isolation_laws`] hold what is proved of
//!   a frame.

pub mod arith;
pub mod ball;
pub mod ball_collection;
pub mod ball_collection_qt;
pub mod ball_laws;
pub mod constants;
pub mod energy_laws;
pub mod frame_laws;
pub mod isolation_laws;
pub mod quad;
pub mod quadtree;
pub mod random;
pub mod seq_laws;
pub mod tree;
pub mod tree_laws;
pub mod vector;
