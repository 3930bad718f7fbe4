use inke::fixed::{floor_div, isqrt_u128, ONE};
use inke::geometry::{Extent, NormPoint, Rgb, Vertex};
use inke::mapper::{overlay_rect_of, MonitorArea, OverlayRect};
use inke::reticle::{cursor_reticle, RING_POINTS};
use inke::smoother::{smooth_region, smooth_stroke};
use inke::style::LineStyle;
use inke::tessellator::{edge_points_of, tessellate_sample, StrokeState};

fn p(x: i64, y: i64) -> NormPoint {
    NormPoint { x, y }
}

fn gray() -> Rgb {
    Rgb { r: 128, g: 128, b: 128 }
}

#[test]
fn floor_div_rounds_down() {
    assert_eq!(floor_div(7, 2), 3);
    assert_eq!(floor_div(-7, 2), -4);
    assert_eq!(floor_div(-6, 3), -2);
    assert_eq!(floor_div(0, 5), 0);
    assert_eq!(floor_div(-1, 1000), -1);
}

#[test]
fn integer_square_root() {
    assert_eq!(isqrt_u128(0), 0);
    assert_eq!(isqrt_u128(1), 1);
    assert_eq!(isqrt_u128(15), 3);
    assert_eq!(isqrt_u128(16), 4);
    assert_eq!(isqrt_u128(u128::MAX), u64::MAX);
    assert_eq!(isqrt_u128(1u128 << 108), 1u64 << 54);
}

#[test]
fn rect_rejects_zero_size() {
    assert!(OverlayRect::new(0, 0, 0, 10).is_none());
    assert!(OverlayRect::new(0, 0, 10, 0).is_none());
    assert_eq!(
        OverlayRect::new(-5, 3, 10, 20),
        Some(OverlayRect { x: -5, y: 3, width: 10, height: 20 })
    );
}

#[test]
fn overlay_rect_spans_all_monitors() {
    let ms = vec![
        MonitorArea { x: 0, y: 0, width: 1920, height: 1080 },
        MonitorArea { x: 1920, y: -200, width: 1280, height: 1024 },
        MonitorArea { x: -1024, y: 100, width: 1024, height: 768 },
    ];
    assert_eq!(
        overlay_rect_of(&ms),
        Some(OverlayRect { x: -1024, y: -200, width: 4224, height: 1280 })
    );
    assert_eq!(overlay_rect_of(&Vec::new()), None);
}

#[test]
fn overlay_rect_away_from_origin() {
    let one = vec![MonitorArea { x: 100, y: 100, width: 800, height: 600 }];
    assert_eq!(
        overlay_rect_of(&one),
        Some(OverlayRect { x: 100, y: 100, width: 800, height: 600 })
    );
    let two = vec![
        MonitorArea { x: 2000, y: 300, width: 1000, height: 500 },
        MonitorArea { x: 3000, y: 100, width: 600, height: 400 },
    ];
    assert_eq!(
        overlay_rect_of(&two),
        Some(OverlayRect { x: 2000, y: 100, width: 1600, height: 700 })
    );
    let negative = vec![MonitorArea { x: -1920, y: -1080, width: 1920, height: 1080 }];
    assert_eq!(
        overlay_rect_of(&negative),
        Some(OverlayRect { x: -1920, y: -1080, width: 1920, height: 1080 })
    );
    let flat = vec![MonitorArea { x: 50, y: 50, width: 0, height: 700 }];
    assert_eq!(overlay_rect_of(&flat), None);
}

#[test]
fn normalized_point_corners_and_center() {
    let r = OverlayRect::new(0, 0, 1000, 500).unwrap();
    assert_eq!(r.to_normalized_point(0, 0), p(-ONE, ONE));
    assert_eq!(r.to_normalized_point(1000, 500), p(ONE, -ONE));
    assert_eq!(r.to_normalized_point(500, 250), p(0, 0));
    assert_eq!(r.to_normalized_point(1, 1), p(2097 - ONE, ONE - 4194));
}

#[test]
fn normalized_point_round_trip() {
    let r = OverlayRect::new(0, 0, 1920, 1080).unwrap();
    for px in [0, 1, 2, 17, 959, 960, 1333, 1919, 1920] {
        for py in [0, 1, 7, 539, 540, 1079, 1080] {
            let n = r.to_normalized_point(px, py);
            assert_eq!(r.to_pixel_point(n), (px as i128, py as i128));
        }
    }
    let n = r.to_normalized_point(-40, 2000);
    assert_eq!(r.to_pixel_point(n), (-40, 2000));
}

#[test]
fn normalized_point_is_linear_within_rounding() {
    let r = OverlayRect::new(0, 0, 1366, 768).unwrap();
    for px in 0..1366 {
        let exact = px as f64 / 1366.0 * 2.0 - 1.0;
        let got = r.to_normalized_point(px, 0).x as f64 / ONE as f64;
        assert!(got <= exact + 1e-12 && exact - got < 1.0 / ONE as f64 + 1e-12);
    }
}

#[test]
fn normalized_extent_per_axis() {
    let r = OverlayRect::new(0, 0, 1000, 500).unwrap();
    assert_eq!(r.to_normalized_extent(3 * ONE as u64), Extent { w: 6291, h: 12582 });
    assert_eq!(r.to_normalized_extent(500 * ONE as u64), Extent { w: ONE, h: 2 * ONE });
    assert_eq!(r.to_normalized_extent(0), Extent { w: 0, h: 0 });
}

#[test]
fn edge_points_follow_direction() {
    let hw = Extent { w: 100, h: 50 };
    let c = p(1000, 1000);
    assert_eq!(edge_points_of(c, 10, 0, hw), (p(1000, 950), p(1000, 1050)));
    assert_eq!(edge_points_of(c, 0, 10, hw), (p(1100, 1000), p(900, 1000)));
    assert_eq!(edge_points_of(c, 0, 0, hw), (p(1000, 950), p(1000, 1050)));
    assert_eq!(edge_points_of(c, 3, 4, hw), (p(1080, 970), p(920, 1030)));
    assert_eq!(edge_points_of(c, -3, -4, hw), (p(920, 1030), p(1080, 970)));
}

#[test]
fn tessellator_defers_first_quad() {
    let hw = Extent { w: 10, h: 10 };
    let mut st = StrokeState::Open { start: 0, samples: 0, last: p(0, 0), left: p(0, 0), right: p(0, 0) };
    let mut buf: Vec<Vertex> = Vec::new();
    tessellate_sample(&mut st, &mut buf, p(0, 0), hw, gray());
    assert!(buf.is_empty());
    tessellate_sample(&mut st, &mut buf, p(100, 0), hw, gray());
    let pos: Vec<NormPoint> = buf.iter().map(|v| v.pos).collect();
    assert_eq!(pos, vec![p(0, -10), p(100, 10), p(100, -10), p(0, -10), p(100, 10), p(0, 10)]);
    tessellate_sample(&mut st, &mut buf, p(100, 100), hw, gray());
    let pos: Vec<NormPoint> = buf[6..].iter().map(|v| v.pos).collect();
    assert_eq!(pos, vec![p(100, -10), p(90, 100), p(110, 100), p(100, -10), p(90, 100), p(100, 10)]);
    match st {
        StrokeState::Open { samples, last, left, right, .. } => {
            assert_eq!(samples, 3);
            assert_eq!(last, p(100, 100));
            assert_eq!((left, right), (p(110, 100), p(90, 100)));
        }
        StrokeState::Idle => panic!("stroke closed"),
    }
}

#[test]
fn tessellator_idle_ignores_samples() {
    let mut st = StrokeState::Idle;
    let mut buf: Vec<Vertex> = Vec::new();
    tessellate_sample(&mut st, &mut buf, p(5, 5), Extent { w: 1, h: 1 }, gray());
    tessellate_sample(&mut st, &mut buf, p(9, 5), Extent { w: 1, h: 1 }, gray());
    assert!(buf.is_empty());
    assert_eq!(st, StrokeState::Idle);
}

fn straight_stroke(segs: i64) -> Vec<Vertex> {
    let mut buf = Vec::new();
    for j in 0..segs {
        let l0 = p(10 * j, 0);
        let r0 = p(10 * j, 100);
        let l1 = p(10 * (j + 1), 0);
        let r1 = p(10 * (j + 1), 100);
        for pos in [l0, r1, l1, l0, r1, r0] {
            buf.push(Vertex { pos, color: gray() });
        }
    }
    buf
}

#[test]
fn smoothing_averages_interior_edges() {
    let mut buf = straight_stroke(4);
    smooth_region(&mut buf, 0, 1);
    let mut want = straight_stroke(4);
    for k in [2, 6, 9] {
        want[k].pos = p(5, 0);
    }
    for k in [1, 4, 11] {
        want[k].pos = p(5, 100);
    }
    for k in [8, 12, 15] {
        want[k].pos = p(15, 0);
    }
    for k in [7, 10, 17] {
        want[k].pos = p(15, 100);
    }
    assert_eq!(buf, want);
}

#[test]
fn smoothing_window_clamps_to_region() {
    let mut buf = straight_stroke(4);
    smooth_region(&mut buf, 0, 10);
    for k in [2, 6, 9, 8, 12, 15] {
        assert_eq!(buf[k].pos, p(15, 0));
    }
    for k in [1, 4, 11, 7, 10, 17] {
        assert_eq!(buf[k].pos, p(15, 100));
    }
    assert_eq!(buf[18].pos, p(30, 0));
    assert_eq!(buf[20].pos, p(40, 0));
}

#[test]
fn smoothing_skips_short_strokes_and_zero_radius() {
    let mut two = straight_stroke(2);
    smooth_region(&mut two, 0, 3);
    assert_eq!(two, straight_stroke(2));
    let mut four = straight_stroke(4);
    smooth_stroke(&mut four, 0, 0, 5);
    assert_eq!(four, straight_stroke(4));
}

#[test]
fn smoothing_leaves_prefix_and_colors() {
    let mut buf = straight_stroke(2);
    let red = Rgb { r: 255, g: 0, b: 0 };
    for v in straight_stroke(5) {
        buf.push(Vertex { pos: v.pos, color: red });
    }
    smooth_stroke(&mut buf, 12, 1, 2);
    assert_eq!(buf[..12].to_vec(), straight_stroke(2));
    assert!(buf[12..].iter().all(|v| v.color == red));
    assert_eq!(buf[12 + 6].pos, p(2, 0));
}

#[test]
fn reticle_rings() {
    let r = OverlayRect::new(0, 0, 1000, 500).unwrap();
    let c = Rgb { r: 25, g: 75, b: 255 };
    let v = cursor_reticle(&r, p(0, 0), 3, c);
    assert_eq!(v.len(), 2 * RING_POINTS);
    assert_eq!(v[0], Vertex { pos: p(6291, 0), color: c });
    assert_eq!(v[8], Vertex { pos: p(0, 12582), color: c });
    assert_eq!(v[16], Vertex { pos: p(-6291, 0), color: c });
    assert_eq!(v[24], Vertex { pos: p(0, -12582), color: c });
    assert_eq!(v[32], Vertex { pos: p(8388, 0), color: Rgb { r: 0, g: 0, b: 0 } });
    for (i, vert) in v.iter().enumerate() {
        let k = i % RING_POINTS;
        let size = if i < RING_POINTS { 3.0 } else { 4.0 };
        let a = k as f64 / RING_POINTS as f64 * std::f64::consts::PI * 2.0;
        let ex = a.cos() * size / 1000.0 * 2.0;
        let ey = a.sin() * size / 500.0 * 2.0;
        let gx = vert.pos.x as f64 / ONE as f64;
        let gy = vert.pos.y as f64 / ONE as f64;
        assert!((gx - ex).abs() < 1e-5 && (gy - ey).abs() < 1e-5, "point {}", i);
    }
}

#[test]
fn scrolling_width_clamps_at_one() {
    let s = LineStyle::new(gray(), 3, 1, 1);
    assert_eq!(s.with_width_scrolled(1).width, 2);
    assert_eq!(s.with_width_scrolled(-4).width, 7);
    assert_eq!(s.with_width_scrolled(10).width, 1);
    assert_eq!(s.with_width(30).width, 30);
    assert_eq!(s.with_color(Rgb { r: 1, g: 2, b: 3 }).color, Rgb { r: 1, g: 2, b: 3 });
    let wide = LineStyle::new(gray(), u32::MAX, 1, 1);
    assert_eq!(wide.with_width_scrolled(-1).width, u32::MAX);
}

#[test]
fn slanted_stroke_stays_near_its_lines() {
    let mut buf = Vec::new();
    for j in 0..9i64 {
        let l0 = p(10 * j, 3 * j);
        let r0 = p(10 * j, 3 * j + 100);
        let l1 = p(10 * (j + 1), 3 * (j + 1));
        let r1 = p(10 * (j + 1), 3 * (j + 1) + 100);
        for pos in [l0, r1, l1, l0, r1, r0] {
            buf.push(Vertex { pos, color: gray() });
        }
    }
    let raw = buf.clone();
    let passes = 3;
    smooth_stroke(&mut buf, 0, 2, passes);
    assert_ne!(buf, raw);
    for (k, v) in buf.iter().enumerate() {
        let c = if matches!(k % 6, 1 | 4 | 5) { -1000 } else { 0 };
        let off = 3 * v.pos.x - 10 * v.pos.y - c;
        assert!(off.abs() <= passes as i64 * 13, "slot {} off {}", k, off);
    }
}
