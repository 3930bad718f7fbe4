//! The brush style: color, width and smoothing parameters.
use vstd::prelude::*;
use crate::geometry::Rgb;

verus! {

/// The current brush: color, width in pixels, and the radius and number of
/// passes of the smoothing applied when a stroke ends.
#[derive(Clone, Copy, Debug, PartialEq, Eq, Structural)]
pub struct LineStyle {
    pub color: Rgb,
    pub width: u32,
    pub smoothing_radius: usize,
    pub smoothing_passes: usize,
}

/// `width - delta`, kept between 1 and `u32::MAX`.
pub open spec fn adjusted_width(width: int, delta: int) -> int {
    let w = width - delta;
    if w < 1 {
        1
    } else if w > u32::MAX {
        u32::MAX as int
    } else {
        w
    }
}

impl LineStyle {
    pub fn new(color: Rgb, width: u32, smoothing_radius: usize, smoothing_passes: usize) -> (s: LineStyle)
        ensures
            s == (LineStyle { color, width, smoothing_radius, smoothing_passes }),
    {
        LineStyle { color, width, smoothing_radius, smoothing_passes }
    }

    /// The same style with another color.
    pub fn with_color(self, color: Rgb) -> (s: LineStyle)
        ensures
            s == (LineStyle { color, ..self }),
    {
        LineStyle { color, ..self }
    }

    /// The same style with another width.
    pub fn with_width(self, width: u32) -> (s: LineStyle)
        ensures
            s == (LineStyle { width, ..self }),
    {
        LineStyle { width, ..self }
    }

    /// The same style with the width lowered by `delta` (one scroll step
    /// each), never below one pixel.
    pub fn with_width_scrolled(self, delta: i32) -> (s: LineStyle)
        ensures
            s == (LineStyle { width: adjusted_width(self.width as int, delta as int) as u32, ..self }),
    {
        let w: i64 = self.width as i64 - delta as i64;
        let width: u32 = if w < 1 {
            1
        } else if w > u32::MAX as i64 {
            u32::MAX
        } else {
            w as u32
        };
        LineStyle { width, ..self }
    }
}

} // verus!
