use dwrender::canvas::{Canvas, Rgb, TraceCanvas};
use dwrender::geom::{GeometryMatrix, Point};
use dwrender::raster::{draw_line, draw_line_degrees, draw_scanline, render_edge_matrix,
    render_ndc_edges_n1to1, render_polygon_matrix, GfxError};

fn pt(x: i64, y: i64, z: i64) -> Point {
    Point { x, y, z }
}

fn pixel_positions(c: &TraceCanvas) -> Vec<(i64, i64)> {
    let mut v: Vec<(i64, i64)> = c.recorded().iter().map(|e| (e.x, e.y)).collect();
    v.sort();
    v.dedup();
    v
}

#[test]
fn test_render_polygon_triangle() {
    let p0 = pt(10_000, 10_000, 10_000);
    let p1 = pt(100_000, 100_000, 100_000);
    let p2 = pt(0, 50_000, 10_000);

    let (h, w) = (500, 500);
    let mut img_ln = TraceCanvas::new(w, h);
    let mut img_polygon = TraceCanvas::new(w, h);

    let mut m = GeometryMatrix::new_polygon_matrix();
    m.append_polygon(p0, p1, p2);

    render_polygon_matrix(&mut img_polygon, &m).unwrap();
    draw_line(&mut img_ln, p0, p1);
    draw_line(&mut img_ln, p1, p2);
    draw_line(&mut img_ln, p2, p0);

    assert_ne!(
        img_ln.recorded(),
        img_polygon.recorded(),
        "Expect equivalent images by adding lines vs. drawing polygon"
    );
}

#[test]
fn test_scanline_special() {
    let mut m = GeometryMatrix::new_polygon_matrix();
    m.append_polygon(pt(150_000, 400_000, 0), pt(100_000, 100_000, 0), pt(300_000, 100_000, 0));
    m.append_polygon(
        pt(250_000, 400_000, 10_000),
        pt(50_000, 50_000, -10_000),
        pt(400_000, 400_000, 10_000),
    );
    let mut img = TraceCanvas::new(500, 500);
    render_polygon_matrix(&mut img, &m).unwrap();
}

#[test]
fn test_scanline_regression_streaks() {
    let mut m = GeometryMatrix::new_polygon_matrix();
    // these triangles have caused long streaks in the scanline fill
    m.append_polygon(
        pt(206_698, 375_000, 149_999),
        pt(174_174, 353_874, 153_168),
        pt(198_442, 353_884, 162_940),
    );
    m.append_polygon(
        pt(347_398, 318_699, 160_604),
        pt(343_125, 307_769, 167_303),
        pt(368_795, 307_902, 150_116),
    );
    m.append_polygon(
        pt(334_510, 410_152, 84_907),
        pt(337_119, 381_947, 122_474),
        pt(356_974, 382_055, 105_440),
    );
    let mut img = TraceCanvas::new(500, 500);
    render_polygon_matrix(&mut img, &m).unwrap();
}

#[test]
fn line_pixel_set_is_direction_symmetric() {
    let cases = [
        (pt(0, 0, 0), pt(10_000, 4_000, 0)),
        (pt(10_000, 4_000, 0), pt(0, 0, 0)),
        (pt(0, 0, 0), pt(4_000, 10_000, 2_000)),
        (pt(0, 0, 0), pt(-7_000, 3_000, 0)),
        (pt(2_000, 9_000, 0), pt(2_000, -5_000, 0)),
        (pt(3_000, 4_000, 0), pt(3_000, 4_000, 0)),
    ];
    for (a, b) in cases {
        let mut fwd = TraceCanvas::new(500, 500);
        let mut bwd = TraceCanvas::new(500, 500);
        draw_line(&mut fwd, a, b);
        draw_line(&mut bwd, b, a);
        assert_eq!(pixel_positions(&fwd), pixel_positions(&bwd));
    }
}

#[test]
fn line_tracks_ideal_equation_in_rising_octants() {
    // shallow: slope 2/5; steep: slope 5/2
    let shallow = (pt(0, 0, 0), pt(10_000, 4_000, 0));
    let steep = (pt(0, 0, 0), pt(4_000, 10_000, 0));

    let mut c = TraceCanvas::new(500, 500);
    draw_line(&mut c, shallow.0, shallow.1);
    let evs = c.recorded();
    assert_eq!(evs.len(), 11);
    let (dx, dy) = (10i64, 4i64);
    for (i, e) in evs.iter().enumerate() {
        assert_eq!(e.x, i as i64);
        assert!(2 * (dy * e.x - dx * e.y).abs() <= dx);
    }

    let mut c2 = TraceCanvas::new(500, 500);
    draw_line(&mut c2, steep.0, steep.1);
    let evs2 = c2.recorded();
    assert_eq!(evs2.len(), 11);
    let (dx2, dy2) = (4i64, 10i64);
    for (i, e) in evs2.iter().enumerate() {
        assert_eq!(e.y, i as i64);
        assert!(2 * (dx2 * e.y - dy2 * e.x).abs() <= dy2);
    }
}

#[test]
fn triangle_boundary_matches_direct_edges() {
    let p0 = pt(10_000, 10_000, 10_000);
    let p1 = pt(100_000, 100_000, 100_000);
    let p2 = pt(0, 50_000, 10_000);

    let mut direct = TraceCanvas::new(500, 500);
    direct.set_fg_color(Rgb::new(255, 255, 255));
    draw_line(&mut direct, p0, p1);
    draw_line(&mut direct, p1, p2);
    draw_line(&mut direct, p2, p0);

    let mut m = GeometryMatrix::new_polygon_matrix();
    m.append_polygon(p0, p1, p2);
    let mut rendered = TraceCanvas::new(500, 500);
    render_polygon_matrix(&mut rendered, &m).unwrap();

    let n = direct.recorded().len();
    assert!(rendered.recorded().len() >= n);
    assert_eq!(&rendered.recorded()[..n], &direct.recorded()[..]);
    // the fill that follows uses a fresh color, never the white of the edges
    assert!(rendered.recorded().len() > n);
    for e in rendered.recorded()[n..].iter() {
        assert!(e.color.r < 255 && e.color.g < 255 && e.color.b < 255);
    }
}

#[test]
fn backface_culling_by_normal_sign() {
    // positive normal z: kept
    let mut m = GeometryMatrix::new_polygon_matrix();
    m.append_polygon(pt(0, 0, 0), pt(10_000, 0, 0), pt(0, 10_000, 0));
    let mut img = TraceCanvas::new(500, 500);
    render_polygon_matrix(&mut img, &m).unwrap();
    assert!(!img.recorded().is_empty());

    // zero normal z (degenerate, collinear): discarded
    let mut mz = GeometryMatrix::new_polygon_matrix();
    mz.append_polygon(pt(0, 0, 0), pt(5_000, 5_000, 0), pt(10_000, 10_000, 0));
    let mut imgz = TraceCanvas::new(500, 500);
    render_polygon_matrix(&mut imgz, &mz).unwrap();
    assert!(imgz.recorded().is_empty());

    // negative normal z (clockwise winding): discarded
    let mut mn = GeometryMatrix::new_polygon_matrix();
    mn.append_polygon(pt(0, 0, 0), pt(0, 10_000, 0), pt(10_000, 0, 0));
    let mut imgn = TraceCanvas::new(500, 500);
    render_polygon_matrix(&mut imgn, &mn).unwrap();
    assert!(imgn.recorded().is_empty());
}

#[test]
fn odd_edge_matrix_is_rejected() {
    let mut m = GeometryMatrix::new_edge_matrix();
    m.push_point(pt(0, 0, 0));
    m.push_point(pt(10_000, 0, 0));
    m.push_point(pt(20_000, 0, 0));
    let mut img = TraceCanvas::new(500, 500);
    let r = render_edge_matrix(&mut img, &m);
    assert_eq!(r, Err(GfxError::EdgeCountNotEven));
    // the complete pair was still drawn before the fault was reported
    assert!(!img.recorded().is_empty());
}

#[test]
fn incomplete_polygon_triple_is_rejected() {
    let mut m = GeometryMatrix::new_polygon_matrix();
    m.append_polygon(pt(0, 0, 0), pt(10_000, 0, 0), pt(0, 10_000, 0));
    m.push_point(pt(0, 0, 0));
    let mut img = TraceCanvas::new(500, 500);
    let r = render_polygon_matrix(&mut img, &m);
    assert_eq!(r, Err(GfxError::PolygonCountNotTriples));
}

#[test]
fn scanline_interpolates_depth_left_to_right() {
    let mut img = TraceCanvas::new(500, 500);
    draw_scanline(&mut img, pt(10_000, 5_000, 0), pt(0, 5_000, 10_000));
    let evs = img.recorded();
    assert_eq!(evs.len(), 11);
    // normalized left to right; z falls by dz/dx = 1000 per pixel
    for (i, e) in evs.iter().enumerate() {
        assert_eq!((e.x, e.y), (i as i64, 5));
        assert_eq!(e.z, 10_000 - 1_000 * i as i64);
    }
}

#[test]
fn line_degrees_returns_endpoint_on_same_plane() {
    let mut img = TraceCanvas::new(500, 500);
    let end = draw_line_degrees(&mut img, pt(0, 0, 7_000), 0, 5_000);
    assert_eq!((end.x, end.y, end.z), (5_000, 0, 7_000));
    assert_eq!(img.recorded().len(), 6);

    let mut img2 = TraceCanvas::new(500, 500);
    let end2 = draw_line_degrees(&mut img2, pt(0, 0, 0), 90_000, 5_000);
    assert_eq!((end2.x, end2.y, end2.z), (0, 5_000, 0));
}

#[test]
fn ndc_edges_map_into_pixel_space() {
    let mut img = TraceCanvas::new(100, 100);
    let mut m = GeometryMatrix::new_edge_matrix();
    // the full diagonal of the logical square, at unit depth
    m.append_edge(pt(-1_000, -1_000, 1_000), pt(1_000, 1_000, 1_000));
    render_ndc_edges_n1to1(&mut img, &m).unwrap();
    let evs = img.recorded();
    // x is mirrored: (-1, -1) lands at pixel (100, 0), (1, 1) at (0, 100)
    assert_eq!(evs.len(), 101);
    assert!(evs.iter().any(|e| (e.x, e.y) == (100, 0)));
    assert!(evs.iter().any(|e| (e.x, e.y) == (0, 100)));
    // reciprocal depth of 1.0 is 1.0
    assert!(evs.iter().all(|e| e.z == 1_000));
}

#[test]
fn ndc_zero_depth_is_refused() {
    let mut img = TraceCanvas::new(100, 100);
    let mut m = GeometryMatrix::new_edge_matrix();
    m.append_edge(pt(0, 0, 0), pt(1_000, 1_000, 1_000));
    let r = render_ndc_edges_n1to1(&mut img, &m);
    assert_eq!(r, Err(GfxError::NdcUnmappable));
    assert!(img.recorded().is_empty());
}

#[test]
fn falling_lines_trail_the_ideal_equation_within_their_bands() {
    // shallow falling: slope -2/5; the walk may trail the ideal line by up
    // to half a pixel plus two slope steps, and does: at x = 3 the ideal row
    // of the line toward (4, -2) is -1.5 but row 0 is plotted
    let mut c = TraceCanvas::new(500, 500);
    draw_line(&mut c, pt(0, 0, 0), pt(4_000, -2_000, 0));
    let evs = c.recorded();
    assert_eq!(evs.len(), 5);
    let (dx, dya) = (4i64, 2i64);
    for (i, e) in evs.iter().enumerate() {
        assert_eq!(e.x, i as i64);
        let err = 2 * (dya * e.x - dx * (0 - e.y));
        assert!(-dx <= err && err <= dx + 4 * dya);
    }
    assert_eq!((evs[3].x, evs[3].y), (3, 0));

    // steep falling: slope -5/2; the walk climbs from the right endpoint
    let mut c2 = TraceCanvas::new(500, 500);
    draw_line(&mut c2, pt(0, 0, 0), pt(4_000, -10_000, 0));
    let evs2 = c2.recorded();
    assert_eq!(evs2.len(), 11);
    let (dx2, dya2) = (4i64, 10i64);
    for (i, e) in evs2.iter().enumerate() {
        assert_eq!(e.y, -10 + i as i64);
        let err = 2 * (dx2 * (e.y + 10) - dya2 * (4 - e.x));
        assert!(-3 * dya2 <= err && err <= dya2);
    }
}
