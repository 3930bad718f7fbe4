//! The stroke tessellator: turns pointer samples into triangle quads.
//!
//! Emission is deferred by one sample: the first sample of a stroke only
//! records its position, and the second one emits the first quad, whose
//! starting edge is computed with the direction from the first sample to the
//! second. A stroke of `n >= 1` samples thus holds `n - 1` quads.
use vstd::prelude::*;
use crate::fixed::{floor_div, is_isqrt, isqrt, isqrt_u128, lemma_div_scaled_bound};
use crate::geometry::{all_bounded, Extent, NormPoint, Rgb, Vertex, COORD_LIMIT};

verus! {

/// Bound on the magnitude of a sample position.
pub const POS_LIMIT: i64 = 0x20_0000_0000_0000;

/// Bound on a half-extent.
pub const HALF_WIDTH_LIMIT: i64 = 0x40_0000_0000_0000;

/// The two edge points of a sample at `cur`, offset by the half-extent `hw`
/// perpendicular to the direction `(dx, dy)`: the left one at `θ - 90°`, the
/// right one at `θ + 90°`, with `θ = atan2(dy, dx)`. The unit normal is
/// `(dy, -dx) / len` with `len` the integer square root of `dx² + dy²`; a
/// zero direction counts as `θ = 0`.
pub open spec fn edge_points(cur: NormPoint, dx: int, dy: int, hw: Extent) -> (NormPoint, NormPoint) {
    let n = dx * dx + dy * dy;
    if n == 0 {
        (
            NormPoint { x: cur.x, y: (cur.y - hw.h) as i64 },
            NormPoint { x: cur.x, y: (cur.y + hw.h) as i64 },
        )
    } else {
        let len = isqrt(n);
        let ox = (dy * hw.w) / len;
        let oy = (dx * hw.h) / len;
        (
            NormPoint { x: (cur.x + ox) as i64, y: (cur.y - oy) as i64 },
            NormPoint { x: (cur.x - ox) as i64, y: (cur.y + oy) as i64 },
        )
    }
}

/// The six vertices of the quad from edge `(l0, r0)` to edge `(l1, r1)`:
/// triangles `l0 r1 l1` and `l0 r1 r0`, sharing the diagonal `l0 r1`.
pub open spec fn quad(l0: NormPoint, r0: NormPoint, l1: NormPoint, r1: NormPoint, c: Rgb) -> Seq<Vertex> {
    seq![
        Vertex { pos: l0, color: c },
        Vertex { pos: r1, color: c },
        Vertex { pos: l1, color: c },
        Vertex { pos: l0, color: c },
        Vertex { pos: r1, color: c },
        Vertex { pos: r0, color: c },
    ]
}

proof fn lemma_component_within_root(d: int, n: int, len: int)
    requires
        is_isqrt(n, len),
        d * d <= n,
    ensures
        -len <= d <= len,
{
    if d > len {
        assert((len + 1) * (len + 1) <= d * d) by (nonlinear_arith)
            requires
                d >= len + 1,
                len >= 0,
        ;
    }
    if d < -len {
        assert((len + 1) * (len + 1) <= d * d) by (nonlinear_arith)
            requires
                -d >= len + 1,
                len >= 0,
        ;
    }
}

proof fn lemma_offset_bound(d: int, w: int, len: int)
    requires
        -len <= d <= len,
        len >= 1,
        0 <= w,
    ensures
        -w <= (d * w) / len <= w,
{
    assert(-(len * w) <= d * w <= len * w) by (nonlinear_arith)
        requires
            -len <= d <= len,
            0 <= w,
    ;
    lemma_div_scaled_bound(d * w, len, w);
}

/// Computes `edge_points`.
pub fn edge_points_of(cur: NormPoint, dx: i64, dy: i64, hw: Extent) -> (r: (NormPoint, NormPoint))
    requires
        cur.in_bounds(POS_LIMIT as int),
        -2 * POS_LIMIT <= dx <= 2 * POS_LIMIT,
        -2 * POS_LIMIT <= dy <= 2 * POS_LIMIT,
        0 <= hw.w <= HALF_WIDTH_LIMIT,
        0 <= hw.h <= HALF_WIDTH_LIMIT,
    ensures
        r == edge_points(cur, dx as int, dy as int, hw),
        r.0.in_bounds(COORD_LIMIT as int),
        r.1.in_bounds(COORD_LIMIT as int),
{
    let sx: i128 = dx as i128;
    let sy: i128 = dy as i128;
    assert(0 <= sx * sx <= 0x1000_0000_0000_0000_0000_0000_0000) by (nonlinear_arith)
        requires
            -0x40_0000_0000_0000 <= sx <= 0x40_0000_0000_0000,
    ;
    assert(0 <= sy * sy <= 0x1000_0000_0000_0000_0000_0000_0000) by (nonlinear_arith)
        requires
            -0x40_0000_0000_0000 <= sy <= 0x40_0000_0000_0000,
    ;
    let n: u128 = (sx * sx + sy * sy) as u128;
    if n == 0 {
        (NormPoint { x: cur.x, y: cur.y - hw.h }, NormPoint { x: cur.x, y: cur.y + hw.h })
    } else {
        let len = isqrt_u128(n);
        proof {
            lemma_component_within_root(dx as int, n as int, len as int);
            lemma_component_within_root(dy as int, n as int, len as int);
            assert(len >= 1) by (nonlinear_arith)
                requires
                    n < (len + 1) * (len + 1),
                    n >= 1,
                    len >= 0,
            ;
            lemma_offset_bound(dy as int, hw.w as int, len as int);
            lemma_offset_bound(dx as int, hw.h as int, len as int);
        }
        assert(-0x1000_0000_0000_0000_0000_0000_0000 <= sy * (hw.w as i128)
            <= 0x1000_0000_0000_0000_0000_0000_0000) by (nonlinear_arith)
            requires
                -0x40_0000_0000_0000 <= sy <= 0x40_0000_0000_0000,
                0 <= hw.w <= 0x40_0000_0000_0000,
        ;
        assert(-0x1000_0000_0000_0000_0000_0000_0000 <= sx * (hw.h as i128)
            <= 0x1000_0000_0000_0000_0000_0000_0000) by (nonlinear_arith)
            requires
                -0x40_0000_0000_0000 <= sx <= 0x40_0000_0000_0000,
                0 <= hw.h <= 0x40_0000_0000_0000,
        ;
        let ox = floor_div(sy * (hw.w as i128), len as i128) as i64;
        let oy = floor_div(sx * (hw.h as i128), len as i128) as i64;
        (
            NormPoint { x: cur.x + ox, y: cur.y - oy },
            NormPoint { x: cur.x - ox, y: cur.y + oy },
        )
    }
}

/// Appends `quad(l0, r0, l1, r1, c)` to `buf`.
pub fn push_quad(buf: &mut Vec<Vertex>, l0: NormPoint, r0: NormPoint, l1: NormPoint, r1: NormPoint, c: Rgb)
    ensures
        final(buf)@ == old(buf)@ + quad(l0, r0, l1, r1, c),
{
    buf.push(Vertex { pos: l0, color: c });
    buf.push(Vertex { pos: r1, color: c });
    buf.push(Vertex { pos: l1, color: c });
    buf.push(Vertex { pos: l0, color: c });
    buf.push(Vertex { pos: r1, color: c });
    buf.push(Vertex { pos: r0, color: c });
    assert(final(buf)@ =~= old(buf)@ + quad(l0, r0, l1, r1, c));
}

/// The tessellator's state as a mathematical value: no open stroke, or an
/// open stroke that began at buffer length `start`, has taken `samples`
/// samples, the last at `last`, whose edge points are `left` and `right`.
pub ghost enum StrokeModel {
    Idle,
    Open { start: nat, samples: nat, last: NormPoint, left: NormPoint, right: NormPoint },
}

/// The tessellator's state.
#[derive(Clone, Copy, Debug, PartialEq, Eq, Structural)]
pub enum StrokeState {
    Idle,
    Open { start: usize, samples: u64, last: NormPoint, left: NormPoint, right: NormPoint },
}

impl View for StrokeState {
    type V = StrokeModel;

    open spec fn view(&self) -> StrokeModel {
        match *self {
            StrokeState::Idle => StrokeModel::Idle,
            StrokeState::Open { start, samples, last, left, right } => StrokeModel::Open {
                start: start as nat,
                samples: samples as nat,
                last,
                left,
                right,
            },
        }
    }
}

/// Quads held by a stroke of `samples` samples: one per sample after the
/// first.
pub open spec fn quads_of(samples: nat) -> nat {
    if samples == 0 { 0 } else { (samples - 1) as nat }
}

/// The state fits the buffer: an open stroke's quads are exactly the
/// buffer's tail from `start`, and its points are in range.
pub open spec fn stroke_fits(s: StrokeModel, buf: Seq<Vertex>) -> bool {
    match s {
        StrokeModel::Idle => true,
        StrokeModel::Open { start, samples, last, left, right } => {
            &&& buf.len() == start + 6 * quads_of(samples)
            &&& last.in_bounds(POS_LIMIT as int)
            &&& left.in_bounds(COORD_LIMIT as int)
            &&& right.in_bounds(COORD_LIMIT as int)
        },
    }
}

/// One sample at `pos` with half-extent `hw` and color `c`. While idle
/// nothing changes. The first sample of a stroke records its position and
/// placeholder edges and emits nothing. Every later sample emits one quad
/// from the previous edge to this sample's edge, both taken perpendicular
/// to the direction from the previous sample; for the second sample the
/// previous edge is recomputed with that direction.
pub open spec fn stroke_step(s: StrokeModel, buf: Seq<Vertex>, pos: NormPoint, hw: Extent, c: Rgb) -> (
    StrokeModel,
    Seq<Vertex>,
) {
    match s {
        StrokeModel::Idle => (s, buf),
        StrokeModel::Open { start, samples, last, left, right } => {
            if samples == 0 {
                let e = edge_points(pos, 0, 0, hw);
                (StrokeModel::Open { start, samples: 1, last: pos, left: e.0, right: e.1 }, buf)
            } else {
                let dx = pos.x - last.x;
                let dy = pos.y - last.y;
                let e = edge_points(pos, dx, dy, hw);
                let p = if samples == 1 {
                    edge_points(last, dx, dy, hw)
                } else {
                    (left, right)
                };
                (
                    StrokeModel::Open {
                        start,
                        samples: samples + 1,
                        last: pos,
                        left: e.0,
                        right: e.1,
                    },
                    buf + quad(p.0, p.1, e.0, e.1, c),
                )
            }
        },
    }
}

/// Takes one sample; see `stroke_step`.
pub fn tessellate_sample(state: &mut StrokeState, buf: &mut Vec<Vertex>, pos: NormPoint, hw: Extent, c: Rgb)
    requires
        stroke_fits(old(state)@, old(buf)@),
        all_bounded(old(buf)@),
        pos.in_bounds(POS_LIMIT as int),
        0 <= hw.w <= HALF_WIDTH_LIMIT,
        0 <= hw.h <= HALF_WIDTH_LIMIT,
    ensures
        (final(state)@, final(buf)@) == stroke_step(old(state)@, old(buf)@, pos, hw, c),
        stroke_fits(final(state)@, final(buf)@),
        all_bounded(final(buf)@),
{
    match *state {
        StrokeState::Idle => {},
        StrokeState::Open { start, samples, last, left, right } => {
            if samples == 0 {
                let e = edge_points_of(pos, 0, 0, hw);
                *state = StrokeState::Open { start, samples: 1, last: pos, left: e.0, right: e.1 };
            } else {
                let dx = pos.x - last.x;
                let dy = pos.y - last.y;
                let e = edge_points_of(pos, dx, dy, hw);
                let p = if samples == 1 {
                    edge_points_of(last, dx, dy, hw)
                } else {
                    (left, right)
                };
                let ghost before = buf@;
                push_quad(buf, p.0, p.1, e.0, e.1, c);
                let grown = buf.len();
                assert(grown == start + 6 * (samples as int));
                assert forall|i: int| 0 <= i < buf@.len() implies (#[trigger] buf@[i]).bounded() by {
                    if i >= before.len() {
                        assert(buf@[i] == quad(p.0, p.1, e.0, e.1, c)[i - before.len()]);
                    } else {
                        assert(buf@[i] == before[i]);
                    }
                }
                *state = StrokeState::Open {
                    start,
                    samples: samples + 1,
                    last: pos,
                    left: e.0,
                    right: e.1,
                };
            }
        },
    }
}

} // verus!
