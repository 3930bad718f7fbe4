use inke::fixed::ONE;
use inke::geometry::{NormPoint, Rgb, Vertex};
use inke::mapper::OverlayRect;
use inke::session::{DrawingSession, DEFAULT_DEBOUNCE_MS};
use inke::style::LineStyle;

const FULL: u32 = ONE as u32;

fn white() -> Rgb {
    Rgb { r: 255, g: 255, b: 255 }
}

fn session(radius: usize, passes: usize) -> DrawingSession {
    let rect = OverlayRect::new(0, 0, 1000, 500).unwrap();
    DrawingSession::new(rect, LineStyle::new(white(), 3, radius, passes), DEFAULT_DEBOUNCE_MS)
}

fn p(x: i64, y: i64) -> NormPoint {
    NormPoint { x, y }
}

#[test]
fn press_move_release_then_undo() {
    let mut s = session(1, 1);
    let reticle_before = s.cursor_reticle_vertices(600, 250);
    s.begin_stroke(1000);
    s.feed_sample(500, 250, FULL);
    s.feed_sample(600, 250, FULL);
    s.end_stroke(1100);
    assert_eq!(s.vertex_count() * 6, 36);
    assert_eq!(s.checkpoints(), vec![0]);
    assert_eq!(s.cursor_reticle_vertices(600, 250), reticle_before);
    let c = white();
    let l0 = p(0, -12582);
    let r0 = p(0, 12582);
    let l1 = p(209715, -12582);
    let r1 = p(209715, 12582);
    let expected: Vec<Vertex> = [l0, r1, l1, l0, r1, r0]
        .iter()
        .map(|&pos| Vertex { pos, color: c })
        .collect();
    assert_eq!(s.snapshot_vertex_buffer(), expected);
    s.undo();
    assert_eq!(s.vertex_count(), 0);
    assert!(s.checkpoints().is_empty());
}

#[test]
fn stroke_of_n_samples_adds_n_minus_one_quads() {
    for n in 1..8usize {
        let mut s = session(1, 1);
        s.begin_stroke(0);
        for i in 0..n {
            s.feed_sample(100 + 7 * i as i32, 100 + 3 * (i as i32 % 2), FULL);
        }
        assert_eq!(s.vertex_count(), 6 * (n - 1));
        s.end_stroke(10);
        assert_eq!(s.vertex_count(), 6 * (n - 1));
    }
}

#[test]
fn second_stroke_appends_after_first() {
    let mut s = session(0, 0);
    s.begin_stroke(0);
    s.feed_sample(10, 10, FULL);
    s.feed_sample(20, 10, FULL);
    s.feed_sample(30, 10, FULL);
    s.end_stroke(10);
    assert_eq!(s.vertex_count(), 12);
    s.begin_stroke(1000);
    s.feed_sample(10, 50, FULL);
    s.feed_sample(10, 60, FULL);
    assert_eq!(s.vertex_count(), 18);
    assert_eq!(s.checkpoints(), vec![0, 12]);
}

#[test]
fn single_sample_draws_nothing() {
    let mut s = session(1, 1);
    s.begin_stroke(0);
    s.feed_sample(300, 300, FULL);
    s.end_stroke(5);
    assert_eq!(s.vertex_count(), 0);
    assert_eq!(s.checkpoints(), vec![0]);
}

#[test]
fn undo_restores_pre_stroke_buffer() {
    let mut s = session(2, 3);
    s.begin_stroke(0);
    for i in 0..6 {
        s.feed_sample(100 + 20 * i, 200 + 5 * i * i, FULL);
    }
    s.end_stroke(50);
    let before = s.snapshot_vertex_buffer();
    s.begin_stroke(2000);
    for i in 0..9 {
        s.feed_sample(400 - 15 * i, 100 + 11 * i, FULL / 2);
    }
    s.end_stroke(2100);
    assert_eq!(s.vertex_count(), before.len() + 48);
    s.undo();
    assert_eq!(s.snapshot_vertex_buffer(), before);
    assert_eq!(s.checkpoints(), vec![0]);
}

#[test]
fn undo_mid_stroke_drops_open_stroke() {
    let mut s = session(1, 1);
    s.begin_stroke(0);
    s.feed_sample(10, 10, FULL);
    s.feed_sample(40, 10, FULL);
    s.undo();
    assert_eq!(s.vertex_count(), 0);
    assert!(!s.is_stroke_open());
    s.feed_sample(80, 10, FULL);
    assert_eq!(s.vertex_count(), 0);
}

#[test]
fn undo_on_empty_stack_is_noop() {
    let mut s = session(1, 1);
    s.undo();
    assert_eq!(s.vertex_count(), 0);
    assert!(s.checkpoints().is_empty());
    s.begin_stroke(0);
    s.feed_sample(10, 10, FULL);
    s.feed_sample(20, 20, FULL);
    s.end_stroke(1);
    s.undo();
    let buf = s.snapshot_vertex_buffer();
    s.undo();
    assert_eq!(s.snapshot_vertex_buffer(), buf);
    assert!(s.checkpoints().is_empty());
}

#[test]
fn clear_then_undo_is_noop() {
    let mut s = session(1, 1);
    s.begin_stroke(0);
    s.feed_sample(10, 10, FULL);
    s.feed_sample(20, 20, FULL);
    s.end_stroke(1);
    s.clear_all();
    assert_eq!(s.vertex_count(), 0);
    assert!(s.checkpoints().is_empty());
    s.undo();
    assert_eq!(s.vertex_count(), 0);
    assert!(s.checkpoints().is_empty());
}

#[test]
fn quick_repress_merges_undo_unit() {
    let mut s = session(1, 1);
    s.begin_stroke(1000);
    s.feed_sample(10, 10, FULL);
    s.feed_sample(20, 10, FULL);
    s.end_stroke(1100);
    s.begin_stroke(1150);
    s.feed_sample(10, 30, FULL);
    s.feed_sample(20, 30, FULL);
    s.end_stroke(1200);
    assert_eq!(s.checkpoints(), vec![0]);
    s.undo();
    assert_eq!(s.vertex_count(), 0);
}

#[test]
fn slow_repress_starts_new_undo_unit() {
    let mut s = session(1, 1);
    s.begin_stroke(1000);
    s.feed_sample(10, 10, FULL);
    s.feed_sample(20, 10, FULL);
    s.end_stroke(1100);
    s.begin_stroke(1600);
    s.feed_sample(10, 30, FULL);
    s.feed_sample(20, 30, FULL);
    s.end_stroke(1700);
    assert_eq!(s.checkpoints(), vec![0, 6]);
    s.undo();
    assert_eq!(s.vertex_count(), 6);
}

#[test]
fn repress_at_debounce_boundary_merges() {
    let mut s = session(1, 1);
    s.begin_stroke(0);
    s.end_stroke(100);
    s.begin_stroke(300);
    s.end_stroke(310);
    assert_eq!(s.checkpoints(), vec![0]);
    s.begin_stroke(511);
    assert_eq!(s.checkpoints(), vec![0, 0]);
}

#[test]
fn feed_while_idle_is_ignored() {
    let mut s = session(1, 1);
    s.feed_sample(10, 10, FULL);
    s.feed_sample(20, 20, FULL);
    assert_eq!(s.vertex_count(), 0);
    assert!(!s.is_stroke_open());
    s.end_stroke(5);
    assert!(s.checkpoints().is_empty());
}

#[test]
fn press_while_open_is_ignored() {
    let mut s = session(1, 1);
    s.begin_stroke(0);
    s.feed_sample(10, 10, FULL);
    s.begin_stroke(1000);
    s.feed_sample(20, 10, FULL);
    assert_eq!(s.vertex_count(), 6);
    assert_eq!(s.checkpoints(), vec![0]);
}

#[test]
fn still_stroke_survives_smoothing() {
    let mut s = session(2, 3);
    s.begin_stroke(0);
    for _ in 0..7 {
        s.feed_sample(250, 125, FULL);
    }
    let raw = s.snapshot_vertex_buffer();
    assert_eq!(raw.len(), 36);
    s.end_stroke(10);
    assert_eq!(s.snapshot_vertex_buffer(), raw);
    assert_eq!(raw[0].pos, p(-524288, 524288 - 12582));
    assert_eq!(raw[5].pos, p(-524288, 524288 + 12582));
}

#[test]
fn set_style_changes_color_and_width() {
    let mut s = session(1, 1);
    let red = Rgb { r: 255, g: 50, b: 50 };
    s.set_style(red, 10, 2, 4);
    assert_eq!(s.style(), LineStyle::new(red, 10, 2, 4));
    s.begin_stroke(0);
    s.feed_sample(500, 250, FULL);
    s.feed_sample(500, 350, FULL);
    let buf = s.snapshot_vertex_buffer();
    assert!(buf.iter().all(|v| v.color == red));
    // Downward on screen is -y in normalized space: dx = 0, dy < 0, so the
    // left edge lies at -x.
    assert_eq!(buf[0].pos, p(-20971, 0));
    assert_eq!(buf[5].pos, p(20971, 0));
}

#[test]
fn pressure_scales_width() {
    let mut s = session(0, 0);
    s.begin_stroke(0);
    s.feed_sample(500, 250, FULL / 2);
    s.feed_sample(600, 250, FULL / 2);
    let buf = s.snapshot_vertex_buffer();
    assert_eq!(buf[0].pos, p(0, -6291));
    assert_eq!(buf[5].pos, p(0, 6291));
}

#[test]
fn straight_stroke_stays_on_its_lines() {
    let mut s = session(1, 3);
    s.begin_stroke(0);
    for i in 0..8 {
        s.feed_sample(100 + 37 * i * i, 250, FULL);
    }
    s.end_stroke(10);
    let buf = s.snapshot_vertex_buffer();
    assert_eq!(buf.len(), 42);
    for (k, v) in buf.iter().enumerate() {
        let right = matches!(k % 6, 1 | 4 | 5);
        assert_eq!(v.pos.y, if right { 12582 } else { -12582 }, "slot {}", k);
    }
}
