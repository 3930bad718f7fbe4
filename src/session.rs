//! The drawing session: stroke buffer, undo checkpoints, open stroke and
//! brush, driven by input commands.
use vstd::prelude::*;
use crate::fixed::ONE;
use crate::geometry::{all_bounded, NormPoint, Rgb, Vertex};
use crate::mapper::{norm_extent, norm_x, norm_y, OverlayRect};
use crate::reticle::{cursor_reticle, reticle};
use crate::smoother::{lemma_smooth_passes_len, smooth_passes, smooth_stroke};
use crate::style::LineStyle;
use crate::tessellator::{quads_of, stroke_fits, stroke_step, tessellate_sample, StrokeModel, StrokeState};

verus! {

/// Presses that follow a release within this many milliseconds continue
/// the released stroke's undo unit.
pub const DEFAULT_DEBOUNCE_MS: u64 = 200;

/// A session as a mathematical value.
pub ghost struct SessionModel {
    pub rect: OverlayRect,
    pub style: LineStyle,
    pub buffer: Seq<Vertex>,
    pub checkpoints: Seq<usize>,
    pub stroke: StrokeModel,
    pub last_release: Option<u64>,
    pub debounce_ms: u64,
}

/// The origin, a placeholder for a stroke that has no sample yet.
pub open spec fn origin() -> NormPoint {
    NormPoint { x: 0, y: 0 }
}

impl SessionModel {
    /// The checkpoints are ascending, on quad boundaries and within the
    /// buffer; the buffer holds whole quads of bounded points; the open
    /// stroke, if any, fits the buffer.
    pub open spec fn wf(self) -> bool {
        &&& self.rect.wf()
        &&& all_bounded(self.buffer)
        &&& self.buffer.len() % 6 == 0
        &&& self.buffer.len() <= usize::MAX
        &&& forall|i: int, j: int|
            0 <= i <= j < self.checkpoints.len() ==> self.checkpoints[i] <= self.checkpoints[j]
        &&& forall|i: int|
            0 <= i < self.checkpoints.len() ==> #[trigger] self.checkpoints[i] <= self.buffer.len()
                && self.checkpoints[i] % 6 == 0
        &&& stroke_fits(self.stroke, self.buffer)
    }

    pub open spec fn is_open(self) -> bool {
        self.stroke is Open
    }

    /// A press at `now` starts a new undo unit: nothing was released yet,
    /// or the last release lies more than the debounce window back.
    pub open spec fn starts_undo_unit(self, now: u64) -> bool {
        match self.last_release {
            None => true,
            Some(t) => now > t + self.debounce_ms,
        }
    }

    /// A press at `now`. While a stroke is open nothing changes. Otherwise a
    /// stroke opens at the buffer's end, and a checkpoint at the buffer's
    /// length is recorded where the press starts a new undo unit.
    pub open spec fn begin_stroke(self, now: u64) -> SessionModel {
        if self.is_open() {
            self
        } else {
            SessionModel {
                checkpoints: if self.starts_undo_unit(now) {
                    self.checkpoints.push(self.buffer.len() as usize)
                } else {
                    self.checkpoints
                },
                stroke: StrokeModel::Open {
                    start: self.buffer.len(),
                    samples: 0,
                    last: origin(),
                    left: origin(),
                    right: origin(),
                },
                ..self
            }
        }
    }

    /// A pointer sample at pixel `(px, py)` with `pressure` in units of
    /// `1 / ONE`: the tessellator's step, at the normalized position, with
    /// the half-extent of `width * pressure` pixels, in the brush color.
    pub open spec fn feed_sample(self, px: i32, py: i32, pressure: u32) -> SessionModel {
        let pos = NormPoint {
            x: norm_x(self.rect, px as int) as i64,
            y: norm_y(self.rect, py as int) as i64,
        };
        let hw = norm_extent(self.rect, self.style.width * pressure);
        let r = stroke_step(self.stroke, self.buffer, pos, hw, self.style.color);
        SessionModel { stroke: r.0, buffer: r.1, ..self }
    }

    /// Samples fed in order.
    pub open spec fn feed_all(self, samples: Seq<(i32, i32, u32)>) -> SessionModel
        decreases samples.len(),
    {
        if samples.len() == 0 {
            self
        } else {
            let s = samples.last();
            self.feed_all(samples.drop_last()).feed_sample(s.0, s.1, s.2)
        }
    }

    /// A release at `now`. While idle nothing changes. Otherwise the open
    /// stroke's region of the buffer is smoothed with the brush's radius
    /// and number of passes, the stroke closes, and the release time is
    /// kept.
    pub open spec fn end_stroke(self, now: u64) -> SessionModel {
        match self.stroke {
            StrokeModel::Idle => self,
            StrokeModel::Open { start, .. } => SessionModel {
                buffer: self.buffer.subrange(0, start as int) + smooth_passes(
                    self.buffer.subrange(start as int, self.buffer.len() as int),
                    self.style.smoothing_radius as int,
                    self.style.smoothing_passes as nat,
                ),
                stroke: StrokeModel::Idle,
                last_release: Some(now),
                ..self
            },
        }
    }

    /// Undo: with no checkpoint nothing changes; otherwise the last
    /// checkpoint is removed, the buffer is cut back to it, and any open
    /// stroke is dropped.
    pub open spec fn undo(self) -> SessionModel {
        if self.checkpoints.len() == 0 {
            self
        } else {
            SessionModel {
                buffer: self.buffer.subrange(0, self.checkpoints.last() as int),
                checkpoints: self.checkpoints.drop_last(),
                stroke: StrokeModel::Idle,
                ..self
            }
        }
    }

    /// Clear: the buffer and the checkpoints are emptied and any open
    /// stroke is dropped.
    pub open spec fn clear_all(self) -> SessionModel {
        SessionModel {
            buffer: Seq::empty(),
            checkpoints: Seq::empty(),
            stroke: StrokeModel::Idle,
            ..self
        }
    }
}

/// A drawing session over one overlay rectangle.
pub struct DrawingSession {
    rect: OverlayRect,
    style: LineStyle,
    vertices: Vec<Vertex>,
    checkpoints: Vec<usize>,
    stroke: StrokeState,
    last_release: Option<u64>,
    debounce_ms: u64,
}

impl View for DrawingSession {
    type V = SessionModel;

    closed spec fn view(&self) -> SessionModel {
        SessionModel {
            rect: self.rect,
            style: self.style,
            buffer: self.vertices@,
            checkpoints: self.checkpoints@,
            stroke: self.stroke@,
            last_release: self.last_release,
            debounce_ms: self.debounce_ms,
        }
    }
}

impl DrawingSession {
    /// A session with an empty buffer, no checkpoint and no open stroke.
    pub fn new(rect: OverlayRect, style: LineStyle, debounce_ms: u64) -> (s: DrawingSession)
        requires
            rect.wf(),
        ensures
            s@ == (SessionModel {
                rect,
                style,
                buffer: Seq::empty(),
                checkpoints: Seq::empty(),
                stroke: StrokeModel::Idle,
                last_release: None,
                debounce_ms,
            }),
            s@.wf(),
    {
        let s = DrawingSession {
            rect,
            style,
            vertices: Vec::new(),
            checkpoints: Vec::new(),
            stroke: StrokeState::Idle,
            last_release: None,
            debounce_ms,
        };
        assert(s@.buffer =~= Seq::empty());
        assert(s@.checkpoints =~= Seq::empty());
        s
    }

    /// Pointer pressed at `now_ms`; see `SessionModel::begin_stroke`.
    pub fn begin_stroke(&mut self, now_ms: u64)
        requires
            old(self)@.wf(),
        ensures
            final(self)@ == old(self)@.begin_stroke(now_ms),
            final(self)@.wf(),
    {
        if let StrokeState::Open { .. } = self.stroke {
            return;
        }
        let new_unit = match self.last_release {
            None => true,
            Some(t) => now_ms > t && now_ms - t > self.debounce_ms,
        };
        let len = self.vertices.len();
        if new_unit {
            self.checkpoints.push(len);
        }
        let o = NormPoint { x: 0, y: 0 };
        self.stroke = StrokeState::Open { start: len, samples: 0, last: o, left: o, right: o };
        assert(final(self)@.checkpoints == old(self)@.begin_stroke(now_ms).checkpoints);
        assert(final(self)@.stroke == old(self)@.begin_stroke(now_ms).stroke);
    }

    /// A pointer sample at pixel `(px, py)` with `pressure` in units of
    /// `1 / ONE`; see `SessionModel::feed_sample`. Ignored while idle.
    pub fn feed_sample(&mut self, px: i32, py: i32, pressure: u32)
        requires
            old(self)@.wf(),
            pressure <= ONE,
        ensures
            final(self)@ == old(self)@.feed_sample(px, py, pressure),
            final(self)@.wf(),
    {
        let pos = self.rect.to_normalized_point(px, py);
        assert(self.style.width * pressure <= 0x1_0000_0000 * 0x10_0000) by (nonlinear_arith)
            requires
                self.style.width <= u32::MAX,
                pressure <= ONE,
        ;
        let hw = self.rect.to_normalized_extent(self.style.width as u64 * pressure as u64);
        let ghost before = self.vertices@;
        tessellate_sample(&mut self.stroke, &mut self.vertices, pos, hw, self.style.color);
        proof {
            assert(self.vertices@.len() >= before.len());
            assert(self.vertices@.subrange(0, before.len() as int) == before) by {
                lemma_step_keeps_prefix(old(self)@.stroke, before, pos, hw, self.style.color);
            }
            assert forall|i: int| 0 <= i < self.checkpoints@.len() implies #[trigger] self.checkpoints@[i]
                <= self.vertices@.len() by {
                assert(old(self)@.checkpoints[i] <= before.len());
            }
            lemma_step_keeps_whole_quads(old(self)@.stroke, before, pos, hw, self.style.color);
        }
        proof {
            vstd::std_specs::vec::axiom_spec_len(&self.vertices);
        }
    }

    /// Pointer released at `now_ms`; see `SessionModel::end_stroke`.
    pub fn end_stroke(&mut self, now_ms: u64)
        requires
            old(self)@.wf(),
        ensures
            final(self)@ == old(self)@.end_stroke(now_ms),
            final(self)@.wf(),
    {
        match self.stroke {
            StrokeState::Idle => {},
            StrokeState::Open { start, .. } => {
                smooth_stroke(
                    &mut self.vertices,
                    start,
                    self.style.smoothing_radius,
                    self.style.smoothing_passes,
                );
                self.stroke = StrokeState::Idle;
                self.last_release = Some(now_ms);
                proof {
                    let b = old(self)@.buffer;
                    lemma_smooth_passes_len(
                        b.subrange(start as int, b.len() as int),
                        self.style.smoothing_radius as int,
                        self.style.smoothing_passes as nat,
                    );
                }
                assert(self.vertices@.len() == old(self)@.buffer.len());
                assert forall|i: int| 0 <= i < self.checkpoints@.len() implies #[trigger] self.checkpoints@[i]
                    <= self.vertices@.len() by {
                    assert(old(self)@.checkpoints[i] <= old(self)@.buffer.len());
                }
            },
        }
    }

    /// Undo; see `SessionModel::undo`.
    pub fn undo(&mut self)
        requires
            old(self)@.wf(),
        ensures
            final(self)@ == old(self)@.undo(),
            final(self)@.wf(),
    {
        match self.checkpoints.pop() {
            None => {},
            Some(c) => {
                self.vertices.truncate(c);
                self.stroke = StrokeState::Idle;
                proof {
                    let m = old(self)@;
                    assert(c == m.checkpoints[m.checkpoints.len() - 1]);
                    assert(self.checkpoints@ =~= m.checkpoints.drop_last());
                    assert forall|i: int| 0 <= i < self.checkpoints@.len() implies #[trigger] self.checkpoints@[i]
                        <= self.vertices@.len() && self.checkpoints@[i] % 6 == 0 by {
                        assert(m.checkpoints[i] <= m.checkpoints[m.checkpoints.len() - 1]);
                        assert(m.checkpoints[i] % 6 == 0);
                    }
                    assert forall|i: int| 0 <= i < self.vertices@.len() implies (
                    #[trigger] self.vertices@[i]).bounded() by {
                        assert(m.buffer[i].bounded());
                    }
                }
            },
        }
    }

    /// Clear; see `SessionModel::clear_all`.
    pub fn clear_all(&mut self)
        requires
            old(self)@.wf(),
        ensures
            final(self)@ == old(self)@.clear_all(),
            final(self)@.wf(),
    {
        self.vertices.clear();
        self.checkpoints.clear();
        self.stroke = StrokeState::Idle;
        assert(self@.buffer =~= Seq::empty());
        assert(self@.checkpoints =~= Seq::empty());
    }

    /// Replaces the brush.
    pub fn set_style(&mut self, color: Rgb, width: u32, smoothing_radius: usize, smoothing_passes: usize)
        requires
            old(self)@.wf(),
        ensures
            final(self)@ == (SessionModel {
                style: LineStyle { color, width, smoothing_radius, smoothing_passes },
                ..old(self)@
            }),
            final(self)@.wf(),
    {
        self.style = LineStyle::new(color, width, smoothing_radius, smoothing_passes);
    }

    /// The brush.
    pub fn style(&self) -> (s: LineStyle)
        ensures
            s == self@.style,
    {
        self.style
    }

    /// The overlay rectangle.
    pub fn rect(&self) -> (r: OverlayRect)
        ensures
            r == self@.rect,
    {
        self.rect
    }

    /// Whether a stroke is open.
    pub fn is_stroke_open(&self) -> (b: bool)
        ensures
            b == self@.is_open(),
    {
        match self.stroke {
            StrokeState::Idle => false,
            StrokeState::Open { .. } => true,
        }
    }

    /// Number of vertices in the stroke buffer.
    pub fn vertex_count(&self) -> (n: usize)
        ensures
            n == self@.buffer.len(),
    {
        self.vertices.len()
    }

    /// The undo checkpoints, oldest first.
    pub fn checkpoints(&self) -> (c: Vec<usize>)
        ensures
            c@ == self@.checkpoints,
    {
        let mut c: Vec<usize> = Vec::new();
        let mut i: usize = 0;
        while i < self.checkpoints.len()
            invariant
                i <= self.checkpoints@.len(),
                c@ == self.checkpoints@.subrange(0, i as int),
            decreases self.checkpoints@.len() - i,
        {
            c.push(self.checkpoints[i]);
            i = i + 1;
            assert(c@ =~= self.checkpoints@.subrange(0, i as int));
        }
        assert(c@ =~= self.checkpoints@);
        c
    }

    /// A copy of the stroke buffer, in draw order.
    pub fn snapshot_vertex_buffer(&self) -> (v: Vec<Vertex>)
        ensures
            v@ == self@.buffer,
    {
        let mut v: Vec<Vertex> = Vec::new();
        let mut i: usize = 0;
        while i < self.vertices.len()
            invariant
                i <= self.vertices@.len(),
                v@ == self.vertices@.subrange(0, i as int),
            decreases self.vertices@.len() - i,
        {
            v.push(self.vertices[i]);
            i = i + 1;
            assert(v@ =~= self.vertices@.subrange(0, i as int));
        }
        assert(v@ =~= self.vertices@);
        v
    }

    /// The cursor reticle at pixel `(px, py)` for the current brush.
    pub fn cursor_reticle_vertices(&self, px: i32, py: i32) -> (v: Vec<Vertex>)
        requires
            self@.wf(),
        ensures
            v@ == reticle(
                self@.rect,
                NormPoint {
                    x: norm_x(self@.rect, px as int) as i64,
                    y: norm_y(self@.rect, py as int) as i64,
                },
                self@.style.width as int,
                self@.style.color,
            ),
    {
        let center = self.rect.to_normalized_point(px, py);
        cursor_reticle(&self.rect, center, self.style.width, self.style.color)
    }
}

/// Feeding samples to an open stroke keeps everything but the stroke and
/// the buffer, keeps the buffer's prefix, counts the samples and grows the
/// buffer by one quad per sample after the stroke's first.
proof fn lemma_feed_all_open(m: SessionModel, samples: Seq<(i32, i32, u32)>)
    requires
        m.stroke is Open,
    ensures
        ({
            let r = m.feed_all(samples);
            &&& r.stroke is Open
            &&& r.stroke->start == m.stroke->start
            &&& r.stroke->samples == m.stroke->samples + samples.len()
            &&& r.buffer.len() == m.buffer.len() + 6 * quads_of(m.stroke->samples + samples.len()) - 6
                * quads_of(m.stroke->samples)
            &&& r.buffer.subrange(0, m.buffer.len() as int) == m.buffer
            &&& r.checkpoints == m.checkpoints
            &&& r.last_release == m.last_release
            &&& r.debounce_ms == m.debounce_ms
            &&& r.style == m.style
            &&& r.rect == m.rect
        }),
    decreases samples.len(),
{
    if samples.len() > 0 {
        let prev = m.feed_all(samples.drop_last());
        lemma_feed_all_open(m, samples.drop_last());
        let s = samples.last();
        let r = prev.feed_sample(s.0, s.1, s.2);
        assert(r == m.feed_all(samples));
        assert(r.buffer.subrange(0, prev.buffer.len() as int) =~= prev.buffer);
        assert(r.buffer.subrange(0, m.buffer.len() as int) =~= prev.buffer.subrange(
            0,
            m.buffer.len() as int,
        ));
    }
}

/// A stroke of `n >= 1` samples, from the press that opens it, grows the
/// buffer by exactly `6 * (n - 1)` vertices: one quad per sample after the
/// first, whatever the positions and pressures.
pub proof fn lemma_stroke_vertex_count(m: SessionModel, now: u64, samples: Seq<(i32, i32, u32)>)
    requires
        !m.is_open(),
        samples.len() >= 1,
    ensures
        m.begin_stroke(now).feed_all(samples).buffer.len() == m.buffer.len() + 6 * (samples.len()
            - 1),
{
    lemma_feed_all_open(m.begin_stroke(now), samples);
}

/// Undo right after a stroke that started its own undo unit, whether the
/// stroke was released or is still open, restores the buffer and the
/// checkpoints as they were before the press.
pub proof fn lemma_undo_restores(
    m: SessionModel,
    press: u64,
    samples: Seq<(i32, i32, u32)>,
    release: u64,
)
    requires
        m.wf(),
        !m.is_open(),
        m.starts_undo_unit(press),
    ensures
        m.begin_stroke(press).feed_all(samples).undo().buffer == m.buffer,
        m.begin_stroke(press).feed_all(samples).undo().checkpoints == m.checkpoints,
        m.begin_stroke(press).feed_all(samples).end_stroke(release).undo().buffer == m.buffer,
        m.begin_stroke(press).feed_all(samples).end_stroke(release).undo().checkpoints
            == m.checkpoints,
{
    let opened = m.begin_stroke(press);
    let fed = opened.feed_all(samples);
    lemma_feed_all_open(opened, samples);
    assert(fed.checkpoints.last() == m.buffer.len());
    assert(fed.checkpoints.drop_last() =~= m.checkpoints);
    let ended = fed.end_stroke(release);
    let start = m.buffer.len() as int;
    let region = fed.buffer.subrange(start, fed.buffer.len() as int);
    lemma_smooth_passes_len(
        region,
        fed.style.smoothing_radius as int,
        fed.style.smoothing_passes as nat,
    );
    assert(ended.buffer.subrange(0, start) =~= fed.buffer.subrange(0, start));
}

/// Undo with no checkpoint changes nothing.
pub proof fn lemma_undo_without_checkpoint(m: SessionModel)
    requires
        m.checkpoints.len() == 0,
    ensures
        m.undo() == m,
{
}

/// Undo right after a clear changes nothing.
pub proof fn lemma_clear_then_undo(m: SessionModel)
    ensures
        m.clear_all().undo() == m.clear_all(),
{
}

/// A press within the debounce window after a release continues the
/// released stroke's undo unit; a later press records a new checkpoint at
/// the buffer's length.
pub proof fn lemma_debounce(m: SessionModel, release: u64, press: u64)
    requires
        m.is_open(),
    ensures
        press <= release + m.debounce_ms ==> m.end_stroke(release).begin_stroke(press).checkpoints
            == m.checkpoints,
        press > release + m.debounce_ms ==> m.end_stroke(release).begin_stroke(press).checkpoints
            == m.checkpoints.push(m.end_stroke(release).buffer.len() as usize),
{
}

proof fn lemma_step_keeps_prefix(
    s: StrokeModel,
    buf: Seq<Vertex>,
    pos: NormPoint,
    hw: crate::geometry::Extent,
    c: Rgb,
)
    ensures
        stroke_step(s, buf, pos, hw, c).1.len() >= buf.len(),
        stroke_step(s, buf, pos, hw, c).1.subrange(0, buf.len() as int) == buf,
{
    assert(stroke_step(s, buf, pos, hw, c).1.subrange(0, buf.len() as int) =~= buf);
}

proof fn lemma_step_keeps_whole_quads(
    s: StrokeModel,
    buf: Seq<Vertex>,
    pos: NormPoint,
    hw: crate::geometry::Extent,
    c: Rgb,
)
    requires
        buf.len() % 6 == 0,
    ensures
        stroke_step(s, buf, pos, hw, c).1.len() % 6 == 0,
{
}

} // verus!
