//! Convex hulls of finite point sets by QuickHull.
//!
//! Points carry fixed-point integer coordinates, so every orientation test is
//! exact. The hull is returned as positions into the input, never as copies.

pub mod geometry;
pub mod hull;
pub mod validate;

pub use geometry::{approx_equal, signed_distance_to_line, Line, Point, FRACTION_DIGITS, MAX_COORD};
pub use hull::{extreme_points, get_convex_hull, to_location};
pub use validate::is_convex_hull;
