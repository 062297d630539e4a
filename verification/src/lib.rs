//! Convex hulls of finite sets of points with integer coordinates.
//!
//! Four algorithms are provided: Graham scan, Jarvis march (gift wrapping),
//! Quickhull and Chan's algorithm. All geometric decisions go through the exact
//! orientation test of [`point::Point::orientation`], computed in 128-bit integer
//! arithmetic, so no rounding can change a decision.

pub mod geometry;
pub mod point;
pub mod hull;
pub mod graham;
pub mod jarvis;
pub mod quickhull;
pub mod chan;
pub mod laws;

pub use point::Point;
