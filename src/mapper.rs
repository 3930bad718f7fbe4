//! The overlay rectangle and the mapping from pixels to normalized space.
use vstd::prelude::*;
use crate::fixed::{floor_div, lemma_div_bound, ONE};
use crate::geometry::{Extent, NormPoint, COORD_LIMIT};

verus! {

/// One monitor's area in physical pixels, top-left origin, Y down.
#[derive(Clone, Copy, Debug, PartialEq, Eq, Structural)]
pub struct MonitorArea {
    pub x: i32,
    pub y: i32,
    pub width: u32,
    pub height: u32,
}

/// The bounding rectangle of the overlay, in physical pixels. Pixel
/// positions handed to the mapper are relative to its top-left corner.
#[derive(Clone, Copy, Debug, PartialEq, Eq, Structural)]
pub struct OverlayRect {
    pub x: i64,
    pub y: i64,
    pub width: u64,
    pub height: u64,
}

pub open spec fn min_int(a: int, b: int) -> int {
    if a <= b { a } else { b }
}

pub open spec fn max_int(a: int, b: int) -> int {
    if a >= b { a } else { b }
}

/// Left edge of the union of the monitors `ms` (at least one).
pub open spec fn union_left(ms: Seq<MonitorArea>) -> int
    decreases ms.len(),
{
    if ms.len() <= 1 {
        ms[0].x as int
    } else {
        min_int(union_left(ms.drop_last()), ms.last().x as int)
    }
}

/// Top edge of the union of the monitors `ms` (at least one).
pub open spec fn union_top(ms: Seq<MonitorArea>) -> int
    decreases ms.len(),
{
    if ms.len() <= 1 {
        ms[0].y as int
    } else {
        min_int(union_top(ms.drop_last()), ms.last().y as int)
    }
}

/// Right edge of the union of the monitors `ms` (at least one).
pub open spec fn union_right(ms: Seq<MonitorArea>) -> int
    decreases ms.len(),
{
    if ms.len() <= 1 {
        ms[0].x + ms[0].width
    } else {
        max_int(union_right(ms.drop_last()), ms.last().x + ms.last().width)
    }
}

/// Bottom edge of the union of the monitors `ms` (at least one).
pub open spec fn union_bottom(ms: Seq<MonitorArea>) -> int
    decreases ms.len(),
{
    if ms.len() <= 1 {
        ms[0].y + ms[0].height
    } else {
        max_int(union_bottom(ms.drop_last()), ms.last().y + ms.last().height)
    }
}

proof fn lemma_union_bounds(ms: Seq<MonitorArea>)
    requires
        ms.len() >= 1,
    ensures
        i32::MIN <= union_left(ms) <= union_right(ms) <= i32::MAX + u32::MAX,
        i32::MIN <= union_top(ms) <= union_bottom(ms) <= i32::MAX + u32::MAX,
    decreases ms.len(),
{
    if ms.len() > 1 {
        lemma_union_bounds(ms.drop_last());
    }
}

/// Normalized x of pixel column `px`: `px / width * 2 - 1`, rounded down.
pub open spec fn norm_x(rect: OverlayRect, px: int) -> int {
    (px * (2 * ONE)) / (rect.width as int) - ONE
}

/// Normalized y of pixel row `py`: `py / height * -2 + 1`, rounded up
/// (the Y axis flips from screen-down to up).
pub open spec fn norm_y(rect: OverlayRect, py: int) -> int {
    ONE - (py * (2 * ONE)) / (rect.height as int)
}

/// Quotient rounded up, for a positive divisor.
pub open spec fn ceil_div(a: int, d: int) -> int {
    -((-a) / d)
}

/// Pixel column of normalized `x`, rounded up.
pub open spec fn pixel_x(rect: OverlayRect, x: int) -> int {
    ceil_div((x + ONE) * rect.width, 2 * ONE)
}

/// Pixel row of normalized `y`, rounded up.
pub open spec fn pixel_y(rect: OverlayRect, y: int) -> int {
    ceil_div((ONE - y) * rect.height, 2 * ONE)
}

/// Normalized half-extent of a length given in units of `1 / ONE` pixel:
/// `size / width * 2` across and `size / height * 2` down, rounded down.
pub open spec fn norm_extent(rect: OverlayRect, size: int) -> Extent {
    Extent {
        w: ((size * 2) / (rect.width as int)) as i64,
        h: ((size * 2) / (rect.height as int)) as i64,
    }
}

/// Largest length, in units of `1 / ONE` pixel, that `to_normalized_extent`
/// takes.
pub const EXTENT_LIMIT: u64 = 0x20_0000_0000_0000;

impl OverlayRect {
    /// A rectangle of positive width and height.
    pub open spec fn wf(self) -> bool {
        self.width >= 1 && self.height >= 1
    }

    /// A rectangle; `None` where the width or the height is zero.
    pub fn new(x: i64, y: i64, width: u64, height: u64) -> (r: Option<OverlayRect>)
        ensures
            r == (if width == 0 || height == 0 {
                None
            } else {
                Some(OverlayRect { x, y, width, height })
            }),
    {
        if width == 0 || height == 0 {
            None
        } else {
            Some(OverlayRect { x, y, width, height })
        }
    }

    /// Maps a pixel position, relative to the rectangle's top-left corner,
    /// to normalized space.
    pub fn to_normalized_point(&self, px: i32, py: i32) -> (p: NormPoint)
        requires
            self.wf(),
        ensures
            p.x == norm_x(*self, px as int),
            p.y == norm_y(*self, py as int),
            p.in_bounds(0x20_0000_0000_0000),
    {
        let k: i128 = 2 * ONE as i128;
        assert(-0x10_0000_0000_0000 <= px * k <= 0x10_0000_0000_0000) by (nonlinear_arith)
            requires
                i32::MIN <= px <= i32::MAX,
                k == 0x20_0000,
        ;
        assert(-0x10_0000_0000_0000 <= py * k <= 0x10_0000_0000_0000) by (nonlinear_arith)
            requires
                i32::MIN <= py <= i32::MAX,
                k == 0x20_0000,
        ;
        let ax = (px as i128) * k;
        let ay = (py as i128) * k;
        let qx = floor_div(ax, self.width as i128);
        let qy = floor_div(ay, self.height as i128);
        proof {
            lemma_div_bound(ax as int, self.width as int, 0x10_0000_0000_0000);
            lemma_div_bound(ay as int, self.height as int, 0x10_0000_0000_0000);
        }
        NormPoint { x: (qx - ONE as i128) as i64, y: (ONE as i128 - qy) as i64 }
    }

    /// Maps a normalized point back to a pixel position relative to the
    /// rectangle's top-left corner.
    pub fn to_pixel_point(&self, p: NormPoint) -> (r: (i128, i128))
        requires
            self.wf(),
            p.in_bounds(COORD_LIMIT as int),
        ensures
            r.0 == pixel_x(*self, p.x as int),
            r.1 == pixel_y(*self, p.y as int),
    {
        let sx: i128 = p.x as i128 + ONE as i128;
        let sy: i128 = ONE as i128 - p.y as i128;
        let wd: i128 = self.width as i128;
        let ht: i128 = self.height as i128;
        assert(-0x100_0000_0000_0000_0000_0000_0000_0000 <= sx * wd
            <= 0x100_0000_0000_0000_0000_0000_0000_0000) by (nonlinear_arith)
            requires
                -0x100_0000_0000_0000 <= sx <= 0x100_0000_0000_0000,
                0 <= wd <= 0x1_0000_0000_0000_0000,
        ;
        assert(-0x100_0000_0000_0000_0000_0000_0000_0000 <= sy * ht
            <= 0x100_0000_0000_0000_0000_0000_0000_0000) by (nonlinear_arith)
            requires
                -0x100_0000_0000_0000 <= sy <= 0x100_0000_0000_0000,
                0 <= ht <= 0x1_0000_0000_0000_0000,
        ;
        let ax: i128 = sx * wd;
        let ay: i128 = sy * ht;
        let k: i128 = 2 * ONE as i128;
        let qx = floor_div(-ax, k);
        let qy = floor_div(-ay, k);
        proof {
            lemma_div_bound(-ax, k as int, 0x100_0000_0000_0000_0000_0000_0000_0000);
            lemma_div_bound(-ay, k as int, 0x100_0000_0000_0000_0000_0000_0000_0000);
        }
        (-qx, -qy)
    }

    /// Maps a length in units of `1 / ONE` pixel to a normalized
    /// half-extent, one scalar per axis.
    pub fn to_normalized_extent(&self, size: u64) -> (e: Extent)
        requires
            self.wf(),
            size <= EXTENT_LIMIT,
        ensures
            e == norm_extent(*self, size as int),
            0 <= e.w <= 2 * EXTENT_LIMIT,
            0 <= e.h <= 2 * EXTENT_LIMIT,
    {
        let w = (size * 2) / self.width;
        let h = (size * 2) / self.height;
        proof {
            lemma_div_bound(size * 2, self.width as int, 2 * EXTENT_LIMIT);
            lemma_div_bound(size * 2, self.height as int, 2 * EXTENT_LIMIT);
        }
        Extent { w: w as i64, h: h as i64 }
    }
}

/// The mapping to normalized space is the exact linear map
/// `px / width * 2 - 1` (and `py / height * -2 + 1`) rounded to the
/// fixed-point grid, and where the rectangle is at most `2 * ONE` pixels
/// across and down, mapping back recovers every pixel position exactly.
pub proof fn lemma_normalized_round_trip(rect: OverlayRect, px: int, py: int)
    requires
        rect.wf(),
        rect.width <= 2 * ONE,
        rect.height <= 2 * ONE,
    ensures
        (norm_x(rect, px) + ONE) * rect.width <= px * (2 * ONE) < (norm_x(rect, px) + ONE + 1)
            * rect.width,
        (ONE - norm_y(rect, py)) * rect.height <= py * (2 * ONE) < (ONE - norm_y(rect, py) + 1)
            * rect.height,
        pixel_x(rect, norm_x(rect, px)) == px,
        pixel_y(rect, norm_y(rect, py)) == py,
{
    let k = 2 * ONE;
    let w = rect.width as int;
    let h = rect.height as int;
    let ax = px * k;
    let qx = ax / w;
    let rx = ax % w;
    vstd::arithmetic::div_mod::lemma_fundamental_div_mod(ax, w);
    assert(qx * w <= ax < (qx + 1) * w) by (nonlinear_arith)
        requires
            ax == w * qx + rx,
            0 <= rx < w,
    ;
    assert(-(qx * w) == k * (-px) + rx) by (nonlinear_arith)
        requires
            ax == w * qx + rx,
            ax == px * k,
    ;
    vstd::arithmetic::div_mod::lemma_fundamental_div_mod_converse(-(qx * w), k, -px, rx);
    assert(norm_x(rect, px) + ONE == qx);
    let ay = py * k;
    let qy = ay / h;
    let ry = ay % h;
    vstd::arithmetic::div_mod::lemma_fundamental_div_mod(ay, h);
    assert(qy * h <= ay < (qy + 1) * h) by (nonlinear_arith)
        requires
            ay == h * qy + ry,
            0 <= ry < h,
    ;
    assert(-(qy * h) == k * (-py) + ry) by (nonlinear_arith)
        requires
            ay == h * qy + ry,
            ay == py * k,
    ;
    vstd::arithmetic::div_mod::lemma_fundamental_div_mod_converse(-(qy * h), k, -py, ry);
    assert(ONE - norm_y(rect, py) == qy);
}

/// The bounding rectangle of the monitors' areas; `None` where there is no
/// monitor or the rectangle has zero width or height.
pub fn overlay_rect_of(monitors: &Vec<MonitorArea>) -> (r: Option<OverlayRect>)
    ensures
        ({
            let ms = monitors@;
            let w = union_right(ms) - union_left(ms);
            let h = union_bottom(ms) - union_top(ms);
            r == (if ms.len() == 0 || w == 0 || h == 0 {
                None
            } else {
                Some(
                    OverlayRect {
                        x: union_left(ms) as i64,
                        y: union_top(ms) as i64,
                        width: w as u64,
                        height: h as u64,
                    },
                )
            })
        }),
{
    if monitors.len() == 0 {
        return None;
    }
    let first = monitors[0];
    let mut left: i64 = first.x as i64;
    let mut top: i64 = first.y as i64;
    let mut right: i64 = (first.x as i64) + (first.width as i64);
    let mut bottom: i64 = (first.y as i64) + (first.height as i64);
    let mut i: usize = 1;
    while i < monitors.len()
        invariant
            1 <= i <= monitors@.len(),
            left == union_left(monitors@.subrange(0, i as int)),
            top == union_top(monitors@.subrange(0, i as int)),
            right == union_right(monitors@.subrange(0, i as int)),
            bottom == union_bottom(monitors@.subrange(0, i as int)),
        decreases monitors@.len() - i,
    {
        let m = monitors[i];
        proof {
            let next = monitors@.subrange(0, i + 1);
            assert(next.drop_last() =~= monitors@.subrange(0, i as int));
            assert(next.last() == m);
        }
        if (m.x as i64) < left {
            left = m.x as i64;
        }
        if (m.y as i64) < top {
            top = m.y as i64;
        }
        if (m.x as i64) + (m.width as i64) > right {
            right = (m.x as i64) + (m.width as i64);
        }
        if (m.y as i64) + (m.height as i64) > bottom {
            bottom = (m.y as i64) + (m.height as i64);
        }
        i = i + 1;
    }
    assert(monitors@.subrange(0, i as int) =~= monitors@);
    proof {
        lemma_union_bounds(monitors@);
    }
    if right - left == 0 || bottom - top == 0 {
        None
    } else {
        Some(
            OverlayRect {
                x: left,
                y: top,
                width: (right - left) as u64,
                height: (bottom - top) as u64,
            },
        )
    }
}

} // verus!
