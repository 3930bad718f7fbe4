//! The line smoother: a moving average over a finished stroke's edges.
//!
//! A region of the stroke buffer is a run of whole quads, six vertices each,
//! laid out as `quad` writes them. Segment `j`'s starting edge is its vertex
//! `6j` (left) and `6j + 5` (right); each edge shared by two segments is
//! stored six times, and a pass rewrites all six copies.
use vstd::prelude::*;
use crate::fixed::{floor_div, lemma_div_scaled_bound};
use crate::geometry::{all_bounded, NormPoint, Vertex, COORD_LIMIT};

verus! {

/// The starting edge points, on one side, of each whole segment of `s`.
pub open spec fn start_edges(s: Seq<Vertex>, right: bool) -> Seq<NormPoint> {
    Seq::new((s.len() / 6) as nat, |j: int| if right { s[6 * j + 5].pos } else { s[6 * j].pos })
}

/// Sum of the x coordinates of `ps[lo..hi]`.
pub open spec fn sum_x(ps: Seq<NormPoint>, lo: int, hi: int) -> int
    decreases hi - lo,
{
    if hi <= lo { 0 } else { sum_x(ps, lo, hi - 1) + ps[hi - 1].x }
}

/// Sum of the y coordinates of `ps[lo..hi]`.
pub open spec fn sum_y(ps: Seq<NormPoint>, lo: int, hi: int) -> int
    decreases hi - lo,
{
    if hi <= lo { 0 } else { sum_y(ps, lo, hi - 1) + ps[hi - 1].y }
}

/// The mean of `ps[lo..hi]`, each coordinate rounded down.
pub open spec fn mean_of(ps: Seq<NormPoint>, lo: int, hi: int) -> NormPoint {
    NormPoint {
        x: (sum_x(ps, lo, hi) / (hi - lo)) as i64,
        y: (sum_y(ps, lo, hi) / (hi - lo)) as i64,
    }
}

/// First segment of the window `[i - r, i + r)`, clamped at zero.
pub open spec fn window_lo(i: int, r: int) -> int {
    if i >= r { i - r } else { 0 }
}

/// End of the window `[i - r, i + r)`, clamped at `segs`.
pub open spec fn window_hi(i: int, r: int, segs: int) -> int {
    if i + r < segs { i + r } else { segs }
}

/// The edge that vertex slot `k` of a region holds.
pub open spec fn slot_edge(k: int) -> int {
    let o = k % 6;
    if o == 0 || o == 3 || o == 5 { k / 6 } else { k / 6 + 1 }
}

/// Whether vertex slot `k` holds a right edge point.
pub open spec fn slot_is_right(k: int) -> bool {
    let o = k % 6;
    o == 1 || o == 4 || o == 5
}

/// Edge `e` is rewritten by a pass of radius `r` over `segs` segments: it
/// starts an interior segment (neither the first nor the last).
pub open spec fn is_smoothed(e: int, r: int, segs: int) -> bool {
    r > 0 && 1 <= e <= segs - 2
}

/// The new position of edge `e` on one side: the mean of the raw starting
/// edges of the segments in its window.
pub open spec fn smoothed_edge(s: Seq<Vertex>, e: int, r: int, right: bool) -> NormPoint {
    mean_of(start_edges(s, right), window_lo(e, r), window_hi(e, r, (s.len() / 6) as int))
}

/// One pass of radius `r` over a region: every copy of every interior edge
/// moves to the mean of the raw edges in its window; colors stay.
pub open spec fn smooth_pass(s: Seq<Vertex>, r: int) -> Seq<Vertex> {
    Seq::new(
        s.len(),
        |k: int|
            if is_smoothed(slot_edge(k), r, (s.len() / 6) as int) {
                Vertex { pos: smoothed_edge(s, slot_edge(k), r, slot_is_right(k)), color: s[k].color }
            } else {
                s[k]
            },
    )
}

/// `n` passes of radius `r`.
pub open spec fn smooth_passes(s: Seq<Vertex>, r: int, n: nat) -> Seq<Vertex>
    decreases n,
{
    if n == 0 { s } else { smooth_pass(smooth_passes(s, r, (n - 1) as nat), r) }
}

/// The mean of `ps[lo..hi]`.
fn window_mean(ps: &Vec<NormPoint>, lo: usize, hi: usize) -> (m: NormPoint)
    requires
        lo < hi <= ps@.len(),
        forall|j: int| 0 <= j < ps@.len() ==> (#[trigger] ps@[j]).in_bounds(COORD_LIMIT as int),
    ensures
        m == mean_of(ps@, lo as int, hi as int),
        m.in_bounds(COORD_LIMIT as int),
{
    let mut sx: i128 = 0;
    let mut sy: i128 = 0;
    let mut j: usize = lo;
    while j < hi
        invariant
            lo <= j <= hi <= ps@.len(),
            forall|j: int| 0 <= j < ps@.len() ==> (#[trigger] ps@[j]).in_bounds(COORD_LIMIT as int),
            sx == sum_x(ps@, lo as int, j as int),
            sy == sum_y(ps@, lo as int, j as int),
            -(j - lo) * (COORD_LIMIT as int) <= sx <= (j - lo) * (COORD_LIMIT as int),
            -(j - lo) * (COORD_LIMIT as int) <= sy <= (j - lo) * (COORD_LIMIT as int),
        decreases hi - j,
    {
        let p = ps[j];
        sx = sx + p.x as i128;
        sy = sy + p.y as i128;
        j = j + 1;
    }
    let n = (hi - lo) as i128;
    proof {
        lemma_div_scaled_bound(sx as int, n as int, COORD_LIMIT as int);
        lemma_div_scaled_bound(sy as int, n as int, COORD_LIMIT as int);
    }
    NormPoint { x: floor_div(sx, n) as i64, y: floor_div(sy, n) as i64 }
}

/// Moves vertex `k` to `p`, keeping its color.
fn set_pos(buf: &mut Vec<Vertex>, k: usize, p: NormPoint)
    requires
        k < old(buf)@.len(),
    ensures
        final(buf)@ == old(buf)@.update(k as int, Vertex { pos: p, color: old(buf)@[k as int].color }),
{
    let c = buf[k].color;
    buf[k] = Vertex { pos: p, color: c };
}

/// `s` with the three left copies of the edge whose first copy sits at `b`
/// moved to `ml` and the three right copies moved to `mr`.
pub open spec fn with_edge(s: Seq<Vertex>, b: int, ml: NormPoint, mr: NormPoint) -> Seq<Vertex> {
    Seq::new(
        s.len(),
        |k: int|
            if k == b - 4 || k == b || k == b + 3 {
                Vertex { pos: ml, color: s[k].color }
            } else if k == b - 5 || k == b - 2 || k == b + 5 {
                Vertex { pos: mr, color: s[k].color }
            } else {
                s[k]
            },
    )
}

fn rewrite_edge(buf: &mut Vec<Vertex>, b: usize, ml: NormPoint, mr: NormPoint)
    requires
        5 <= b,
        b + 5 < old(buf)@.len(),
    ensures
        final(buf)@ == with_edge(old(buf)@, b as int, ml, mr),
{
    proof {
        vstd::std_specs::vec::axiom_spec_len(&*buf);
    }
    set_pos(buf, b - 4, ml);
    set_pos(buf, b, ml);
    set_pos(buf, b + 3, ml);
    set_pos(buf, b - 5, mr);
    set_pos(buf, b - 2, mr);
    set_pos(buf, b + 5, mr);
    assert(buf@ =~= with_edge(old(buf)@, b as int, ml, mr));
}

proof fn lemma_rewrite_step(
    before: Seq<Vertex>,
    after: Seq<Vertex>,
    start: int,
    i: int,
    raw: Seq<Vertex>,
    r: int,
    ml: NormPoint,
    mr: NormPoint,
)
    requires
        0 <= start,
        before.len() == start + raw.len(),
        raw.len() % 6 == 0,
        1 <= i <= raw.len() / 6 - 2,
        r > 0,
        ml == smoothed_edge(raw, i, r, false),
        mr == smoothed_edge(raw, i, r, true),
        after == with_edge(before, start + 6 * i, ml, mr),
        forall|k: int|
            start <= k < before.len() ==> #[trigger] before[k] == if slot_edge(k - start) < i {
                smooth_pass(raw, r)[k - start]
            } else {
                raw[k - start]
            },
    ensures
        forall|k: int| 0 <= k < start ==> after[k] == before[k],
        forall|k: int|
            start <= k < after.len() ==> #[trigger] after[k] == if slot_edge(k - start) < i + 1 {
                smooth_pass(raw, r)[k - start]
            } else {
                raw[k - start]
            },
{
    let e = i;
    let base = start + 6 * i;
    lemma_slot(6 * e - 4, e - 1, 2);
    lemma_slot(6 * e, e, 0);
    lemma_slot(6 * e + 3, e, 3);
    lemma_slot(6 * e - 5, e - 1, 1);
    lemma_slot(6 * e - 2, e - 1, 4);
    lemma_slot(6 * e + 5, e, 5);
    assert forall|k: int| start <= k < after.len() implies #[trigger] after[k] == if slot_edge(k - start)
        < i + 1 {
        smooth_pass(raw, r)[k - start]
    } else {
        raw[k - start]
    } by {
        let q = k - start;
        if slot_edge(q) == e {
            lemma_edge_slots(q, e);
            assert(is_smoothed(e, r, (raw.len() / 6) as int));
            assert(before[k] == raw[q]);
        } else {
            if k == base - 4 || k == base || k == base + 3 || k == base - 5 || k == base - 2 || k
                == base + 5 {
                assert(slot_edge(q) == e);
            }
            assert(after[k] == before[k]);
        }
    }
}

proof fn lemma_slot(k: int, j: int, o: int)
    requires
        k == 6 * j + o,
        0 <= o < 6,
    ensures
        k / 6 == j,
        k % 6 == o,
{
    vstd::arithmetic::div_mod::lemma_fundamental_div_mod_converse(k, 6, j, o);
}

/// The six slots holding edge `e` are `6e - 5`, `6e - 4`, `6e - 2`, `6e`,
/// `6e + 3` and `6e + 5`.
proof fn lemma_edge_slots(k: int, e: int)
    requires
        k >= 0,
        slot_edge(k) == e,
    ensures
        k == 6 * e - 5 || k == 6 * e - 4 || k == 6 * e - 2 || k == 6 * e || k == 6 * e + 3 || k
            == 6 * e + 5,
{
    vstd::arithmetic::div_mod::lemma_fundamental_div_mod(k, 6);
}

/// One smoothing pass of radius `radius` over the region from `start` to
/// the end of `buf`.
pub fn smooth_region(buf: &mut Vec<Vertex>, start: usize, radius: usize)
    requires
        start <= old(buf)@.len(),
        (old(buf)@.len() - start) % 6 == 0,
        all_bounded(old(buf)@),
    ensures
        final(buf)@ == old(buf)@.subrange(0, start as int) + smooth_pass(
            old(buf)@.subrange(start as int, old(buf)@.len() as int),
            radius as int,
        ),
        all_bounded(final(buf)@),
{
    let len = buf.len();
    let ghost raw = old(buf)@.subrange(start as int, len as int);
    let ghost target = smooth_pass(raw, radius as int);
    let segs = (len - start) / 6;
    if radius == 0 || segs < 3 {
        assert(old(buf)@ =~= old(buf)@.subrange(0, start as int) + target);
        return;
    }
    let mut lefts: Vec<NormPoint> = Vec::new();
    let mut rights: Vec<NormPoint> = Vec::new();
    let mut j: usize = 0;
    while j < segs
        invariant
            buf@ == old(buf)@,
            len == buf@.len(),
            start + 6 * segs == len,
            raw == buf@.subrange(start as int, len as int),
            j <= segs,
            lefts@ == start_edges(raw, false).subrange(0, j as int),
            rights@ == start_edges(raw, true).subrange(0, j as int),
        decreases segs - j,
    {
        lefts.push(buf[start + 6 * j].pos);
        rights.push(buf[start + 6 * j + 5].pos);
        j = j + 1;
        assert(lefts@ =~= start_edges(raw, false).subrange(0, j as int));
        assert(rights@ =~= start_edges(raw, true).subrange(0, j as int));
    }
    assert(lefts@ =~= start_edges(raw, false));
    assert(rights@ =~= start_edges(raw, true));
    assert(raw.len() / 6 == segs);
    assert forall|q: int| 0 <= q < lefts@.len() implies (#[trigger] lefts@[q]).in_bounds(
        COORD_LIMIT as int,
    ) by {
        assert(old(buf)@[start + 6 * q].bounded());
    }
    assert forall|q: int| 0 <= q < rights@.len() implies (#[trigger] rights@[q]).in_bounds(
        COORD_LIMIT as int,
    ) by {
        assert(old(buf)@[start + 6 * q + 5].bounded());
    }
    let mut i: usize = 1;
    while i < segs - 1
        invariant
            1 <= i <= segs - 1,
            radius > 0,
            segs >= 3,
            len == buf@.len(),
            start + 6 * segs == len,
            raw == old(buf)@.subrange(start as int, len as int),
            target == smooth_pass(raw, radius as int),
            lefts@ == start_edges(raw, false),
            rights@ == start_edges(raw, true),
            lefts@.len() == segs,
            rights@.len() == segs,
            old(buf)@.len() == len,
            forall|q: int| 0 <= q < lefts@.len() ==> (#[trigger] lefts@[q]).in_bounds(COORD_LIMIT as int),
            forall|q: int| 0 <= q < rights@.len() ==> (#[trigger] rights@[q]).in_bounds(COORD_LIMIT as int),
            forall|k: int| 0 <= k < start ==> buf@[k] == old(buf)@[k],
            forall|k: int|
                start <= k < len ==> #[trigger] buf@[k] == if slot_edge(k - start) < i {
                    target[k - start]
                } else {
                    raw[k - start]
                },
        decreases segs - 1 - i,
    {
        let lo = if i >= radius { i - radius } else { 0 };
        let hi = if radius < segs - i { i + radius } else { segs };
        let ml = window_mean(&lefts, lo, hi);
        let mr = window_mean(&rights, lo, hi);
        let ghost before = buf@;
        rewrite_edge(buf, start + 6 * i, ml, mr);
        proof {
            lemma_rewrite_step(before, buf@, start as int, i as int, raw, radius as int, ml, mr);
        }
        i = i + 1;
    }
    proof {
        assert forall|k: int| start <= k < len implies #[trigger] buf@[k] == target[k - start] by {
            let r = k - start;
            if slot_edge(r) >= i {
                assert(!is_smoothed(slot_edge(r), radius as int, segs as int));
                assert(raw.len() / 6 == segs);
            }
        }
        assert(buf@ =~= old(buf)@.subrange(0, start as int) + target);
        assert forall|k: int| 0 <= k < buf@.len() implies (#[trigger] buf@[k]).bounded() by {
            if k >= start {
                let r = k - start;
                if is_smoothed(slot_edge(r), radius as int, segs as int) {
                    let e = slot_edge(r);
                    assert(raw.len() / 6 == segs);
                    let m = smoothed_edge(raw, e, radius as int, slot_is_right(r));
                    assert(m.in_bounds(COORD_LIMIT as int)) by {
                        lemma_mean_bounded(
                            start_edges(raw, slot_is_right(r)),
                            window_lo(e, radius as int),
                            window_hi(e, radius as int, segs as int),
                        );
                    }
                } else {
                    assert(old(buf)@[k].bounded());
                }
            } else {
                assert(old(buf)@[k].bounded());
            }
        }
    }
}

/// Smoothing keeps the region's length.
pub proof fn lemma_smooth_passes_len(s: Seq<Vertex>, r: int, n: nat)
    ensures
        smooth_passes(s, r, n).len() == s.len(),
    decreases n,
{
    if n > 0 {
        lemma_smooth_passes_len(s, r, (n - 1) as nat);
    }
}

/// `passes` smoothing passes of radius `radius` over the region from
/// `start` to the end of `buf`.
pub fn smooth_stroke(buf: &mut Vec<Vertex>, start: usize, radius: usize, passes: usize)
    requires
        start <= old(buf)@.len(),
        (old(buf)@.len() - start) % 6 == 0,
        all_bounded(old(buf)@),
    ensures
        final(buf)@ == old(buf)@.subrange(0, start as int) + smooth_passes(
            old(buf)@.subrange(start as int, old(buf)@.len() as int),
            radius as int,
            passes as nat,
        ),
        all_bounded(final(buf)@),
{
    let len = buf.len();
    let ghost prefix = old(buf)@.subrange(0, start as int);
    let ghost raw = old(buf)@.subrange(start as int, len as int);
    let mut p: usize = 0;
    assert(buf@ =~= prefix + smooth_passes(raw, radius as int, 0));
    while p < passes
        invariant
            p <= passes,
            start <= len,
            (len - start) % 6 == 0,
            buf@.len() == len,
            prefix.len() == start,
            buf@ == prefix + smooth_passes(raw, radius as int, p as nat),
            all_bounded(buf@),
        decreases passes - p,
    {
        let ghost before = buf@;
        assert(before.subrange(0, start as int) =~= prefix);
        assert(before.subrange(start as int, len as int) =~= smooth_passes(raw, radius as int, p as nat));
        smooth_region(buf, start, radius);
        p = p + 1;
    }
}

/// A stroke whose left edge copies all sit at one point and whose right
/// edge copies all sit at another (a stroke that never moved) is left as it
/// is by any number of smoothing passes of any radius.
pub proof fn lemma_smoothing_keeps_still_stroke(s: Seq<Vertex>, r: int, n: nat)
    requires
        s.len() % 6 == 0,
        forall|k: int|
            0 <= k < s.len() ==> (#[trigger] s[k]).pos == (if slot_is_right(k) {
                s[5].pos
            } else {
                s[0].pos
            }),
    ensures
        smooth_passes(s, r, n) == s,
    decreases n,
{
    if n > 0 {
        lemma_smoothing_keeps_still_stroke(s, r, (n - 1) as nat);
        lemma_still_pass(s, r);
    }
}

/// All left edge copies of `s` share one y, and all right edge copies share
/// another: `s` is a horizontal straight stroke (when `vertical`, the same
/// with x: a vertical one).
pub open spec fn on_axis_lines(s: Seq<Vertex>, vertical: bool) -> bool {
    forall|k: int|
        0 <= k < s.len() ==> #[trigger] axis_coord(s[k].pos, vertical) == (if slot_is_right(k) {
            axis_coord(s[5].pos, vertical)
        } else {
            axis_coord(s[0].pos, vertical)
        })
}

/// The coordinate across a horizontal line (y), or across a vertical one (x).
pub open spec fn axis_coord(p: NormPoint, vertical: bool) -> int {
    if vertical { p.x as int } else { p.y as int }
}

/// A horizontal (or vertical) straight stroke stays on its two edge lines
/// through any number of smoothing passes of any radius; only the positions
/// along the lines move.
pub proof fn lemma_smoothing_keeps_axis_lines(s: Seq<Vertex>, r: int, n: nat, vertical: bool)
    requires
        s.len() % 6 == 0,
        s.len() >= 6,
        on_axis_lines(s, vertical),
    ensures
        on_axis_lines(smooth_passes(s, r, n), vertical),
        smooth_passes(s, r, n)[0] == s[0],
        smooth_passes(s, r, n)[5] == s[5],
    decreases n,
{
    if n > 0 {
        let prev = smooth_passes(s, r, (n - 1) as nat);
        lemma_smoothing_keeps_axis_lines(s, r, (n - 1) as nat, vertical);
        lemma_smooth_passes_len(s, r, (n - 1) as nat);
        lemma_axis_pass(prev, r, vertical);
    }
}

proof fn lemma_axis_pass(s: Seq<Vertex>, r: int, vertical: bool)
    requires
        s.len() % 6 == 0,
        s.len() >= 6,
        on_axis_lines(s, vertical),
    ensures
        on_axis_lines(smooth_pass(s, r), vertical),
        smooth_pass(s, r)[0] == s[0],
        smooth_pass(s, r)[5] == s[5],
{
    let segs = (s.len() / 6) as int;
    let t = smooth_pass(s, r);
    lemma_slot(0, 0, 0);
    lemma_slot(5, 0, 5);
    assert forall|j: int| 0 <= j < segs implies axis_coord(#[trigger] start_edges(s, false)[j], vertical)
        == axis_coord(s[0].pos, vertical) && axis_coord(start_edges(s, true)[j], vertical)
        == axis_coord(s[5].pos, vertical) by {
        lemma_slot(6 * j, j, 0);
        lemma_slot(6 * j + 5, j, 5);
        assert(axis_coord(s[6 * j].pos, vertical) == axis_coord(s[0].pos, vertical));
        assert(axis_coord(s[6 * j + 5].pos, vertical) == axis_coord(s[5].pos, vertical));
    }
    assert forall|k: int| 0 <= k < t.len() implies #[trigger] axis_coord(t[k].pos, vertical) == (if slot_is_right(
        k,
    ) {
        axis_coord(t[5].pos, vertical)
    } else {
        axis_coord(t[0].pos, vertical)
    }) by {
        let e = slot_edge(k);
        if is_smoothed(e, r, segs) {
            let lo = window_lo(e, r);
            let hi = window_hi(e, r, segs);
            lemma_axis_mean(start_edges(s, false), lo, hi, axis_coord(s[0].pos, vertical), vertical);
            lemma_axis_mean(start_edges(s, true), lo, hi, axis_coord(s[5].pos, vertical), vertical);
        }
    }
}

proof fn lemma_axis_mean(ps: Seq<NormPoint>, lo: int, hi: int, c: int, vertical: bool)
    requires
        0 <= lo < hi <= ps.len(),
        forall|j: int| 0 <= j < ps.len() ==> axis_coord(#[trigger] ps[j], vertical) == c,
    ensures
        axis_coord(mean_of(ps, lo, hi), vertical) == c,
{
    lemma_axis_sum(ps, lo, hi, c, vertical);
    vstd::arithmetic::div_mod::lemma_div_multiples_vanish(c, hi - lo);
}

proof fn lemma_axis_sum(ps: Seq<NormPoint>, lo: int, hi: int, c: int, vertical: bool)
    requires
        0 <= lo <= hi <= ps.len(),
        forall|j: int| 0 <= j < ps.len() ==> axis_coord(#[trigger] ps[j], vertical) == c,
    ensures
        (if vertical { sum_x(ps, lo, hi) } else { sum_y(ps, lo, hi) }) == (hi - lo) * c,
    decreases hi - lo,
{
    if hi > lo {
        lemma_axis_sum(ps, lo, hi - 1, c, vertical);
        assert(axis_coord(ps[hi - 1], vertical) == c);
        assert((hi - 1 - lo) * c + c == (hi - lo) * c) by (nonlinear_arith);
    } else {
        assert((hi - lo) * c == 0) by (nonlinear_arith)
            requires
                hi == lo,
        ;
    }
}

/// How far `p` lies off the line `a·x + b·y = c`, scaled by the line's
/// coefficients.
pub open spec fn line_offset(p: NormPoint, a: int, b: int, c: int) -> int {
    a * p.x + b * p.y - c
}

/// Every left edge copy of `s` lies within `e` of the line `a·x + b·y = cl`
/// and every right edge copy within `e` of `a·x + b·y = cr`, in the scaled
/// measure of `line_offset`.
pub open spec fn near_lines(s: Seq<Vertex>, a: int, b: int, cl: int, cr: int, e: int) -> bool {
    forall|k: int|
        0 <= k < s.len() ==> -e <= line_offset(
            (#[trigger] s[k]).pos,
            a,
            b,
            if slot_is_right(k) { cr } else { cl },
        ) <= e
}

pub open spec fn abs_int(a: int) -> int {
    if a < 0 { -a } else { a }
}

/// A straight stroke, whose edge copies lie on two parallel lines, stays on
/// them through smoothing up to rounding: after `n` passes every copy lies
/// within `n · (|a| + |b|)` of its line `a·x + b·y = c`, since each pass
/// rounds each mean down by less than one unit per coordinate.
pub proof fn lemma_smoothing_keeps_straight_stroke(
    s: Seq<Vertex>,
    r: int,
    n: nat,
    a: int,
    b: int,
    cl: int,
    cr: int,
)
    requires
        s.len() % 6 == 0,
        all_bounded(s),
        near_lines(s, a, b, cl, cr, 0),
    ensures
        near_lines(smooth_passes(s, r, n), a, b, cl, cr, n * (abs_int(a) + abs_int(b))),
    decreases n,
{
    if n > 0 {
        let prev = smooth_passes(s, r, (n - 1) as nat);
        lemma_smoothing_keeps_straight_stroke(s, r, (n - 1) as nat, a, b, cl, cr);
        lemma_smooth_passes_len(s, r, (n - 1) as nat);
        lemma_passes_bounded(s, r, (n - 1) as nat);
        let e = (n - 1) * (abs_int(a) + abs_int(b));
        assert(e >= 0) by (nonlinear_arith)
            requires
                e == (n - 1) * (abs_int(a) + abs_int(b)),
                n >= 1,
                abs_int(a) >= 0,
                abs_int(b) >= 0,
        ;
        assert(e + abs_int(a) + abs_int(b) == n * (abs_int(a) + abs_int(b))) by (nonlinear_arith)
            requires
                e == (n - 1) * (abs_int(a) + abs_int(b)),
        ;
        lemma_line_pass(prev, r, a, b, cl, cr, e);
    }
}

proof fn lemma_passes_bounded(s: Seq<Vertex>, r: int, n: nat)
    requires
        s.len() % 6 == 0,
        all_bounded(s),
    ensures
        all_bounded(smooth_passes(s, r, n)),
    decreases n,
{
    if n > 0 {
        lemma_passes_bounded(s, r, (n - 1) as nat);
        lemma_smooth_passes_len(s, r, (n - 1) as nat);
        lemma_pass_bounded(smooth_passes(s, r, (n - 1) as nat), r);
    }
}

proof fn lemma_pass_bounded(s: Seq<Vertex>, r: int)
    requires
        s.len() % 6 == 0,
        all_bounded(s),
    ensures
        all_bounded(smooth_pass(s, r)),
{
    let segs = (s.len() / 6) as int;
    lemma_edges_bounded(s);
    assert forall|k: int| 0 <= k < smooth_pass(s, r).len() implies (#[trigger] smooth_pass(
        s,
        r,
    )[k]).bounded() by {
        let e = slot_edge(k);
        if is_smoothed(e, r, segs) {
            lemma_mean_bounded(
                start_edges(s, slot_is_right(k)),
                window_lo(e, r),
                window_hi(e, r, segs),
            );
        }
    }
}

proof fn lemma_edges_bounded(s: Seq<Vertex>)
    requires
        s.len() % 6 == 0,
        all_bounded(s),
    ensures
        forall|j: int|
            0 <= j < s.len() / 6 ==> (#[trigger] start_edges(s, false)[j]).in_bounds(
                COORD_LIMIT as int,
            ),
        forall|j: int|
            0 <= j < s.len() / 6 ==> (#[trigger] start_edges(s, true)[j]).in_bounds(
                COORD_LIMIT as int,
            ),
{
    assert forall|j: int| 0 <= j < s.len() / 6 implies (#[trigger] start_edges(s, false)[j]).in_bounds(
        COORD_LIMIT as int,
    ) by {
        assert(s[6 * j].bounded());
    }
    assert forall|j: int| 0 <= j < s.len() / 6 implies (#[trigger] start_edges(s, true)[j]).in_bounds(
        COORD_LIMIT as int,
    ) by {
        assert(s[6 * j + 5].bounded());
    }
}

proof fn lemma_line_pass(s: Seq<Vertex>, r: int, a: int, b: int, cl: int, cr: int, e: int)
    requires
        s.len() % 6 == 0,
        all_bounded(s),
        e >= 0,
        near_lines(s, a, b, cl, cr, e),
    ensures
        near_lines(smooth_pass(s, r), a, b, cl, cr, e + abs_int(a) + abs_int(b)),
{
    let segs = (s.len() / 6) as int;
    let t = smooth_pass(s, r);
    lemma_edges_bounded(s);
    assert forall|j: int| 0 <= j < segs implies -e <= #[trigger] line_offset(
        start_edges(s, false)[j],
        a,
        b,
        cl,
    ) <= e && -e <= line_offset(start_edges(s, true)[j], a, b, cr) <= e by {
        lemma_slot(6 * j, j, 0);
        lemma_slot(6 * j + 5, j, 5);
        assert(-e <= line_offset(s[6 * j].pos, a, b, cl) <= e);
        assert(-e <= line_offset(s[6 * j + 5].pos, a, b, cr) <= e);
    }
    assert forall|k: int| 0 <= k < t.len() implies -(e + abs_int(a) + abs_int(b)) <= line_offset(
        (#[trigger] t[k]).pos,
        a,
        b,
        if slot_is_right(k) { cr } else { cl },
    ) <= e + abs_int(a) + abs_int(b) by {
        let q = slot_edge(k);
        let c = if slot_is_right(k) { cr } else { cl };
        if is_smoothed(q, r, segs) {
            let ps = start_edges(s, slot_is_right(k));
            assert forall|j: int| 0 <= j < ps.len() implies -e <= #[trigger] line_offset(ps[j], a, b, c)
                <= e by {
                assert(-e <= line_offset(start_edges(s, false)[j], a, b, cl) <= e);
            }
            lemma_line_mean(ps, window_lo(q, r), window_hi(q, r, segs), a, b, c, e);
        } else {
            assert(-e <= line_offset(s[k].pos, a, b, c) <= e);
        }
    }
}

proof fn lemma_line_sum(ps: Seq<NormPoint>, lo: int, hi: int, a: int, b: int, c: int, e: int)
    requires
        0 <= lo <= hi <= ps.len(),
        forall|j: int| 0 <= j < ps.len() ==> -e <= #[trigger] line_offset(ps[j], a, b, c) <= e,
    ensures
        -((hi - lo) * e) <= a * sum_x(ps, lo, hi) + b * sum_y(ps, lo, hi) - (hi - lo) * c <= (hi
            - lo) * e,
    decreases hi - lo,
{
    if hi > lo {
        lemma_line_sum(ps, lo, hi - 1, a, b, c, e);
        let p = ps[hi - 1];
        assert(-e <= line_offset(p, a, b, c) <= e);
        let sx = sum_x(ps, lo, hi - 1);
        let sy = sum_y(ps, lo, hi - 1);
        assert(a * (sx + p.x) + b * (sy + p.y) - (hi - lo) * c == (a * sx + b * sy - (hi - 1 - lo)
            * c) + (a * p.x + b * p.y - c)) by (nonlinear_arith);
        assert((hi - 1 - lo) * e + e == (hi - lo) * e) by (nonlinear_arith);
        assert(sum_x(ps, lo, hi) == sx + p.x);
        assert(sum_y(ps, lo, hi) == sy + p.y);
        assert(-((hi - 1 - lo) * e) <= a * sx + b * sy - (hi - 1 - lo) * c <= (hi - 1 - lo) * e);
        assert(a * sum_x(ps, lo, hi) + b * sum_y(ps, lo, hi) - (hi - lo) * c == (a * sx + b * sy - (
        hi - 1 - lo) * c) + line_offset(p, a, b, c));
    } else {
        assert(sum_x(ps, lo, hi) == 0 && sum_y(ps, lo, hi) == 0);
        assert((hi - lo) * e == 0 && (hi - lo) * c == 0 && a * 0 == 0 && b * 0 == 0)
            by (nonlinear_arith)
            requires
                hi == lo,
        ;
    }
}

proof fn lemma_line_mean(ps: Seq<NormPoint>, lo: int, hi: int, a: int, b: int, c: int, e: int)
    requires
        0 <= lo < hi <= ps.len(),
        e >= 0,
        forall|j: int| 0 <= j < ps.len() ==> (#[trigger] ps[j]).in_bounds(COORD_LIMIT as int),
        forall|j: int| 0 <= j < ps.len() ==> -e <= #[trigger] line_offset(ps[j], a, b, c) <= e,
    ensures
        -(e + abs_int(a) + abs_int(b)) <= line_offset(mean_of(ps, lo, hi), a, b, c) <= e + abs_int(
            a,
        ) + abs_int(b),
{
    let k = hi - lo;
    let sx = sum_x(ps, lo, hi);
    let sy = sum_y(ps, lo, hi);
    lemma_line_sum(ps, lo, hi, a, b, c, e);
    lemma_sums_bounded(ps, lo, hi);
    lemma_div_scaled_bound(sx, k, COORD_LIMIT as int);
    lemma_div_scaled_bound(sy, k, COORD_LIMIT as int);
    let x = sx / k;
    let y = sy / k;
    let rx = sx % k;
    let ry = sy % k;
    vstd::arithmetic::div_mod::lemma_fundamental_div_mod(sx, k);
    vstd::arithmetic::div_mod::lemma_fundamental_div_mod(sy, k);
    vstd::arithmetic::div_mod::lemma_mod_bound(sx, k);
    vstd::arithmetic::div_mod::lemma_mod_bound(sy, k);
    let m = mean_of(ps, lo, hi);
    assert(m.x == x && m.y == y);
    let d = a * x + b * y - c;
    let big = a * sx + b * sy - k * c;
    assert(k * d == big - a * rx - b * ry) by (nonlinear_arith)
        requires
            sx == k * x + rx,
            sy == k * y + ry,
            d == a * x + b * y - c,
            big == a * sx + b * sy - k * c,
    ;
    assert(-(k * abs_int(a)) <= a * rx <= k * abs_int(a)) by (nonlinear_arith)
        requires
            0 <= rx < k,
            abs_int(a) == (if a < 0 { -a } else { a }),
    ;
    assert(-(k * abs_int(b)) <= b * ry <= k * abs_int(b)) by (nonlinear_arith)
        requires
            0 <= ry < k,
            abs_int(b) == (if b < 0 { -b } else { b }),
    ;
    let bound = e + abs_int(a) + abs_int(b);
    assert(-(k * bound) <= k * d <= k * bound) by (nonlinear_arith)
        requires
            k * d == big - a * rx - b * ry,
            -(k * e) <= big <= k * e,
            -(k * abs_int(a)) <= a * rx <= k * abs_int(a),
            -(k * abs_int(b)) <= b * ry <= k * abs_int(b),
            bound == e + abs_int(a) + abs_int(b),
    ;
    assert(-bound <= d <= bound) by (nonlinear_arith)
        requires
            k >= 1,
            -(k * bound) <= k * d <= k * bound,
    ;
}

proof fn lemma_still_pass(s: Seq<Vertex>, r: int)
    requires
        s.len() % 6 == 0,
        forall|k: int|
            0 <= k < s.len() ==> (#[trigger] s[k]).pos == (if slot_is_right(k) {
                s[5].pos
            } else {
                s[0].pos
            }),
    ensures
        smooth_pass(s, r) == s,
{
    let segs = (s.len() / 6) as int;
    assert forall|j: int| 0 <= j < segs implies #[trigger] start_edges(s, false)[j] == s[0].pos
        && start_edges(s, true)[j] == s[5].pos by {
        lemma_slot(6 * j, j, 0);
        lemma_slot(6 * j + 5, j, 5);
        assert(s[6 * j].pos == s[0].pos);
        assert(s[6 * j + 5].pos == s[5].pos);
    }
    assert forall|k: int| 0 <= k < s.len() implies #[trigger] smooth_pass(s, r)[k] == s[k] by {
        let e = slot_edge(k);
        if is_smoothed(e, r, segs) {
            let lo = window_lo(e, r);
            let hi = window_hi(e, r, segs);
            lemma_mean_of_constant(start_edges(s, false), lo, hi, s[0].pos);
            lemma_mean_of_constant(start_edges(s, true), lo, hi, s[5].pos);
        }
    }
    assert(smooth_pass(s, r) =~= s);
}

proof fn lemma_mean_of_constant(ps: Seq<NormPoint>, lo: int, hi: int, c: NormPoint)
    requires
        0 <= lo < hi <= ps.len(),
        forall|j: int| 0 <= j < ps.len() ==> #[trigger] ps[j] == c,
    ensures
        mean_of(ps, lo, hi) == c,
{
    lemma_sum_of_constant(ps, lo, hi, c);
    vstd::arithmetic::div_mod::lemma_div_multiples_vanish(c.x as int, hi - lo);
    vstd::arithmetic::div_mod::lemma_div_multiples_vanish(c.y as int, hi - lo);
}

proof fn lemma_sum_of_constant(ps: Seq<NormPoint>, lo: int, hi: int, c: NormPoint)
    requires
        0 <= lo <= hi <= ps.len(),
        forall|j: int| 0 <= j < ps.len() ==> #[trigger] ps[j] == c,
    ensures
        sum_x(ps, lo, hi) == (hi - lo) * c.x,
        sum_y(ps, lo, hi) == (hi - lo) * c.y,
    decreases hi - lo,
{
    if hi > lo {
        lemma_sum_of_constant(ps, lo, hi - 1, c);
        assert(ps[hi - 1] == c);
        assert((hi - 1 - lo) * c.x + c.x == (hi - lo) * c.x) by (nonlinear_arith);
        assert((hi - 1 - lo) * c.y + c.y == (hi - lo) * c.y) by (nonlinear_arith);
    } else {
        assert((hi - lo) * c.x == 0 && (hi - lo) * c.y == 0) by (nonlinear_arith)
            requires
                hi == lo,
        ;
    }
}

proof fn lemma_sums_bounded(ps: Seq<NormPoint>, lo: int, hi: int)
    requires
        0 <= lo <= hi <= ps.len(),
        forall|j: int| 0 <= j < ps.len() ==> (#[trigger] ps[j]).in_bounds(COORD_LIMIT as int),
    ensures
        -(hi - lo) * (COORD_LIMIT as int) <= sum_x(ps, lo, hi) <= (hi - lo) * (COORD_LIMIT as int),
        -(hi - lo) * (COORD_LIMIT as int) <= sum_y(ps, lo, hi) <= (hi - lo) * (COORD_LIMIT as int),
    decreases hi - lo,
{
    if hi > lo {
        lemma_sums_bounded(ps, lo, hi - 1);
        assert(ps[hi - 1].in_bounds(COORD_LIMIT as int));
    }
}

proof fn lemma_mean_bounded(ps: Seq<NormPoint>, lo: int, hi: int)
    requires
        0 <= lo < hi <= ps.len(),
        forall|j: int| 0 <= j < ps.len() ==> (#[trigger] ps[j]).in_bounds(COORD_LIMIT as int),
    ensures
        mean_of(ps, lo, hi).in_bounds(COORD_LIMIT as int),
{
    lemma_sums_bounded(ps, lo, hi);
    lemma_div_scaled_bound(sum_x(ps, lo, hi), hi - lo, COORD_LIMIT as int);
    lemma_div_scaled_bound(sum_y(ps, lo, hi), hi - lo, COORD_LIMIT as int);
}

} // verus!
