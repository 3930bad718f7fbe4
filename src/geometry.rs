//! Points, colors and vertices of the stroke buffer.
use vstd::prelude::*;

verus! {

/// Largest magnitude of a coordinate held in a stroke buffer.
pub const COORD_LIMIT: i64 = 0x80_0000_0000_0000;

/// A point in normalized space, each coordinate in units of `1 / ONE`.
#[derive(Clone, Copy, Debug, PartialEq, Eq, Structural)]
pub struct NormPoint {
    pub x: i64,
    pub y: i64,
}

/// An RGB color, one byte per channel.
#[derive(Clone, Copy, Debug, PartialEq, Eq, Structural)]
pub struct Rgb {
    pub r: u8,
    pub g: u8,
    pub b: u8,
}

/// A half-extent in normalized space, one scalar per axis.
#[derive(Clone, Copy, Debug, PartialEq, Eq, Structural)]
pub struct Extent {
    pub w: i64,
    pub h: i64,
}

/// One vertex of the stroke buffer: a planar position and its color.
#[derive(Clone, Copy, Debug, PartialEq, Eq, Structural)]
pub struct Vertex {
    pub pos: NormPoint,
    pub color: Rgb,
}

impl NormPoint {
    pub open spec fn in_bounds(self, limit: int) -> bool {
        -limit <= self.x <= limit && -limit <= self.y <= limit
    }
}

impl Vertex {
    /// Both coordinates are within `COORD_LIMIT` of zero.
    pub open spec fn bounded(self) -> bool {
        self.pos.in_bounds(COORD_LIMIT as int)
    }
}

/// Every vertex of `s` is bounded.
pub open spec fn all_bounded(s: Seq<Vertex>) -> bool {
    forall|i: int| 0 <= i < s.len() ==> (#[trigger] s[i]).bounded()
}

} // verus!
