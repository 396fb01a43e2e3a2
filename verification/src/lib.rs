//! Point-in-polygon testing over fixed-point 2D coordinates.
//!
//! A [`point::Point`] is a pair of coordinates stored in millionths of a
//! unit; a [`polygon::Polygon`] is an ordered sequence of vertices walked
//! consistently around its boundary.  Containment is decided by a
//! sign-consistency test over cross products of consecutive edges, and
//! points are read from text lines holding two whitespace-separated
//! decimal numbers.

pub mod parse;
pub mod point;
pub mod polygon;
