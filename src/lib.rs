//! Visibility ("light region") of a point source among opaque line-segment
//! obstacles, computed in exact integer and rational arithmetic.

pub mod geometry;
pub mod nearest;
pub mod probe;
pub mod polygon;
pub mod frame;
pub mod enclosure;
