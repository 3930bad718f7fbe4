//! The cursor reticle: two concentric rings around the cursor.
use vstd::prelude::*;
use crate::fixed::{floor_div, lemma_div_scaled_bound, ONE};
use crate::geometry::{Extent, NormPoint, Rgb, Vertex};
use crate::mapper::{norm_extent, OverlayRect, EXTENT_LIMIT};
use crate::tessellator::POS_LIMIT;

verus! {

/// Points on each ring.
pub const RING_POINTS: usize = 32;

/// `cos(2πk/32)` in units of `1 / ONE`, rounded to nearest, for `k` in
/// `0..=8`.
pub open spec fn quarter_cos(k: int) -> int {
    if k == 0 {
        1048576
    } else if k == 1 {
        1028428
    } else if k == 2 {
        968758
    } else if k == 3 {
        871859
    } else if k == 4 {
        741455
    } else if k == 5 {
        582558
    } else if k == 6 {
        401273
    } else if k == 7 {
        204567
    } else {
        0
    }
}

/// `cos(2πi/32)` in units of `1 / ONE`, by symmetry from `quarter_cos`.
pub open spec fn ring_cos(i: int) -> int {
    let k = i % 32;
    if k <= 8 {
        quarter_cos(k)
    } else if k <= 16 {
        -quarter_cos(16 - k)
    } else if k <= 24 {
        -quarter_cos(k - 16)
    } else {
        quarter_cos(32 - k)
    }
}

/// `sin(2πi/32)` in units of `1 / ONE`: the cosine a quarter turn earlier.
pub open spec fn ring_sin(i: int) -> int {
    ring_cos(i - 8)
}

/// Point `i` of the ring of half-extent `e` around `center`:
/// `center + (cos θ · e.w, sin θ · e.h)` with `θ = 2πi/32`, rounded down.
pub open spec fn ring_point(center: NormPoint, e: Extent, i: int) -> NormPoint {
    NormPoint {
        x: (center.x + (ring_cos(i) * e.w) / (ONE as int)) as i64,
        y: (center.y + (ring_sin(i) * e.h) / (ONE as int)) as i64,
    }
}

/// The reticle around `center` for a brush of `width` pixels: first the
/// inner ring, of radius `width`, in the brush color; then the outer ring,
/// of radius `width + 1`, in black.
pub open spec fn reticle(rect: OverlayRect, center: NormPoint, width: int, color: Rgb) -> Seq<Vertex> {
    let inner = norm_extent(rect, width * ONE);
    let outer = norm_extent(rect, (width + 1) * ONE);
    Seq::new(
        (2 * RING_POINTS) as nat,
        |i: int|
            if i < RING_POINTS {
                Vertex { pos: ring_point(center, inner, i), color }
            } else {
                Vertex {
                    pos: ring_point(center, outer, i - RING_POINTS),
                    color: Rgb { r: 0, g: 0, b: 0 },
                }
            },
    )
}

fn quarter_cos_of(k: usize) -> (c: i64)
    requires
        k <= 8,
    ensures
        c == quarter_cos(k as int),
{
    if k == 0 {
        1048576
    } else if k == 1 {
        1028428
    } else if k == 2 {
        968758
    } else if k == 3 {
        871859
    } else if k == 4 {
        741455
    } else if k == 5 {
        582558
    } else if k == 6 {
        401273
    } else if k == 7 {
        204567
    } else {
        0
    }
}

fn ring_cos_of(i: usize) -> (c: i64)
    ensures
        c == ring_cos(i as int),
        -ONE <= c <= ONE,
{
    let k = i % 32;
    if k <= 8 {
        quarter_cos_of(k)
    } else if k <= 16 {
        -quarter_cos_of(16 - k)
    } else if k <= 24 {
        -quarter_cos_of(k - 16)
    } else {
        quarter_cos_of(32 - k)
    }
}

fn ring_sin_of(i: usize) -> (s: i64)
    ensures
        s == ring_sin(i as int),
        -ONE <= s <= ONE,
{
    let c = ring_cos_of(i % 32 + 24);
    assert((i % 32 + 24) % 32 == (i - 8) % 32) by {
        let q = i as int / 32;
        let m = i as int % 32;
        vstd::arithmetic::div_mod::lemma_fundamental_div_mod(i as int, 32);
        vstd::arithmetic::div_mod::lemma_mod_bound(i as int, 32);
        if m >= 8 {
            vstd::arithmetic::div_mod::lemma_fundamental_div_mod_converse(i - 8, 32, q, m - 8);
            vstd::arithmetic::div_mod::lemma_fundamental_div_mod_converse(m + 24, 32, 1, m - 8);
        } else {
            vstd::arithmetic::div_mod::lemma_fundamental_div_mod_converse(i - 8, 32, q - 1, m + 24);
            vstd::arithmetic::div_mod::lemma_fundamental_div_mod_converse(m + 24, 32, 0, m + 24);
        }
    }
    c
}

fn scaled(u: i64, e: i64) -> (r: i64)
    requires
        -ONE <= u <= ONE,
        0 <= e <= 2 * EXTENT_LIMIT,
    ensures
        r == (u * e) / (ONE as int),
        -e <= r <= e,
{
    assert(-(ONE * e) <= u * e <= ONE * e) by (nonlinear_arith)
        requires
            -ONE <= u <= ONE,
            0 <= e,
    ;
    assert(ONE * e <= ONE * (2 * EXTENT_LIMIT)) by (nonlinear_arith)
        requires
            0 <= e <= 2 * EXTENT_LIMIT,
    ;
    let p: i128 = (u as i128) * (e as i128);
    proof {
        lemma_div_scaled_bound(u * e, ONE as int, e as int);
    }
    floor_div(p, ONE as i128) as i64
}

fn ring_point_of(center: NormPoint, e: Extent, i: usize) -> (p: NormPoint)
    requires
        center.in_bounds(POS_LIMIT as int),
        0 <= e.w <= 2 * EXTENT_LIMIT,
        0 <= e.h <= 2 * EXTENT_LIMIT,
    ensures
        p == ring_point(center, e, i as int),
{
    let c = ring_cos_of(i);
    let s = ring_sin_of(i);
    NormPoint { x: center.x + scaled(c, e.w), y: center.y + scaled(s, e.h) }
}

/// Computes `reticle`.
pub fn cursor_reticle(rect: &OverlayRect, center: NormPoint, width: u32, color: Rgb) -> (r: Vec<Vertex>)
    requires
        rect.wf(),
        center.in_bounds(POS_LIMIT as int),
    ensures
        r@ == reticle(*rect, center, width as int, color),
{
    assert(width * ONE <= (width + 1) * ONE <= EXTENT_LIMIT) by (nonlinear_arith)
        requires
            0 <= width <= u32::MAX,
    ;
    let inner = rect.to_normalized_extent(width as u64 * ONE as u64);
    let outer = rect.to_normalized_extent((width as u64 + 1) * ONE as u64);
    let ghost target = reticle(*rect, center, width as int, color);
    let mut r: Vec<Vertex> = Vec::new();
    let mut i: usize = 0;
    while i < 2 * RING_POINTS
        invariant
            i <= 2 * RING_POINTS,
            rect.wf(),
            center.in_bounds(POS_LIMIT as int),
            inner == norm_extent(*rect, width * ONE),
            outer == norm_extent(*rect, (width + 1) * ONE),
            0 <= inner.w <= 2 * EXTENT_LIMIT,
            0 <= inner.h <= 2 * EXTENT_LIMIT,
            0 <= outer.w <= 2 * EXTENT_LIMIT,
            0 <= outer.h <= 2 * EXTENT_LIMIT,
            target == reticle(*rect, center, width as int, color),
            r@ == target.subrange(0, i as int),
        decreases 2 * RING_POINTS - i,
    {
        let v = if i < RING_POINTS {
            Vertex { pos: ring_point_of(center, inner, i), color }
        } else {
            Vertex { pos: ring_point_of(center, outer, i - RING_POINTS), color: Rgb { r: 0, g: 0, b: 0 } }
        };
        r.push(v);
        i = i + 1;
        assert(r@ =~= target.subrange(0, i as int));
    }
    assert(r@ =~= target);
    r
}

} // verus!
