//! Laws of the rasterizer, proved from the drawing routines' exact event
//! contracts: direction symmetry of lines, the incremental walk's agreement
//! with the ideal line equation, the triangle boundary decomposition, and
//! back-face culling.
use vstd::prelude::*;

verus! {

use crate::canvas::{PlotEvent, Rgb};
use crate::fx::{sabs, px_of};
use crate::geom::Point;
use crate::raster::{
    PXB, ev, hrun_events, vrun_events, shallow_events, steep_events, line_events,
    triangle_events, tri_fill_events, polygon_render_rel, normal_z_s, sort3_s, white_s,
};

/// Whether some plot event in the record writes the pixel (x, y).
pub open spec fn plots_pixel(evs: Seq<PlotEvent>, x: i64, y: i64) -> bool {
    exists|i: int| 0 <= i < evs.len() && (#[trigger] evs[i]).x == x && evs[i].y == y
}

/// The set of pixel positions a record writes, depths and colors set aside.
pub open spec fn pixel_set(evs: Seq<PlotEvent>) -> Set<(i64, i64)> {
    Set::new(|p: (i64, i64)| plots_pixel(evs, p.0, p.1))
}

/// The pixels of a vertical run are exactly its column over its row range.
proof fn lemma_vrun_contains(c: Rgb, y: int, y1: int, x: int, z: int, zinc: int, px: i64, py: i64)
    requires
        -3 * PXB as int <= y,
        y1 <= 3 * PXB as int,
        -3 * PXB as int <= x <= 3 * PXB as int,
    ensures
        plots_pixel(vrun_events(c, y, y1, x, z, zinc), px, py) <==> (px as int == x && y
            <= py as int <= y1),
    decreases y1 - y + 1,
{
    let evs = vrun_events(c, y, y1, x, z, zinc);
    if y > y1 {
        assert(!plots_pixel(evs, px, py));
    } else {
        let rest = vrun_events(c, y + 1, y1, x, z + zinc, zinc);
        lemma_vrun_contains(c, y + 1, y1, x, z + zinc, zinc, px, py);
        assert(evs[0] == ev(x, y, z, c));
        if px as int == x && y <= py as int <= y1 {
            if py as int == y {
                assert(evs[0].x == px && evs[0].y == py);
                assert(plots_pixel(evs, px, py));
            } else {
                assert(plots_pixel(rest, px, py));
                let i = choose|i: int|
                    0 <= i < rest.len() && (#[trigger] rest[i]).x == px && rest[i].y == py;
                assert(evs[i + 1] == rest[i]);
                assert(plots_pixel(evs, px, py));
            }
        }
        if plots_pixel(evs, px, py) {
            let i = choose|i: int|
                0 <= i < evs.len() && (#[trigger] evs[i]).x == px && evs[i].y == py;
            if i == 0 {
                assert(px as int == x && py as int == y);
            } else {
                assert(evs[i] == rest[i - 1]);
                assert(plots_pixel(rest, px, py));
            }
        }
    }
}

/// Law: a line drawn in either direction covers the same pixels. The two
/// event records differ at most in their depth interpolation order; the set
/// of written pixel positions is identical.
pub proof fn lemma_line_pixels_symmetric(c: Rgb, p0: Point, p1: Point)
    requires
        crate::geom::pt_in_range(p0),
        crate::geom::pt_in_range(p1),
    ensures
        pixel_set(line_events(c, p0, p1)) == pixel_set(line_events(c, p1, p0)),
{
    if p0.x != p1.x {
        assert(line_events(c, p0, p1) == line_events(c, p1, p0));
        assert(pixel_set(line_events(c, p0, p1)) =~= pixel_set(line_events(c, p1, p0)));
    } else {
        let fwd = line_events(c, p0, p1);
        let bwd = line_events(c, p1, p0);
        let x0 = px_of(p0.x as int);
        let ya = px_of(p0.y as int);
        let yb = px_of(p1.y as int);
        crate::fx::lemma_px_mag(p0.x as int);
        crate::fx::lemma_px_mag(p0.y as int);
        crate::fx::lemma_px_mag(p1.y as int);
        if ya == yb {
            assert(fwd == hrun_events(c, x0, x0, ya, p0.z as int, 0));
            assert(bwd == hrun_events(c, x0, x0, ya, p1.z as int, 0));
            assert(hrun_events(c, x0 + 1, x0, ya, p0.z as int + 0, 0)
                == Seq::<PlotEvent>::empty());
            assert(hrun_events(c, x0 + 1, x0, ya, p1.z as int + 0, 0)
                == Seq::<PlotEvent>::empty());
            assert(fwd =~= seq![ev(x0, ya, p0.z as int, c)]);
            assert(bwd =~= seq![ev(x0, ya, p1.z as int, c)]);
            assert forall|p: (i64, i64)|
                pixel_set(fwd).contains(p) <==> pixel_set(bwd).contains(p) by {
                if plots_pixel(fwd, p.0, p.1) {
                    assert(fwd[0].x == p.0 && fwd[0].y == p.1);
                    assert(bwd[0].x == p.0 && bwd[0].y == p.1);
                    assert(plots_pixel(bwd, p.0, p.1));
                }
                if plots_pixel(bwd, p.0, p.1) {
                    assert(bwd[0].x == p.0 && bwd[0].y == p.1);
                    assert(fwd[0].x == p.0 && fwd[0].y == p.1);
                    assert(plots_pixel(fwd, p.0, p.1));
                }
            }
            assert(pixel_set(fwd) =~= pixel_set(bwd));
        } else {
            let ys = if ya < yb {
                ya
            } else {
                yb
            };
            let ye = if ya < yb {
                yb
            } else {
                ya
            };
            assert(fwd == vrun_events(c, ys, ye, x0, p0.z as int, crate::fx::tdiv(
                p1.z - p0.z,
                yb - ya,
            )));
            assert(bwd == vrun_events(c, ys, ye, x0, p1.z as int, crate::fx::tdiv(
                p0.z - p1.z,
                ya - yb,
            )));
            assert forall|p: (i64, i64)|
                pixel_set(fwd).contains(p) <==> pixel_set(bwd).contains(p) by {
                lemma_vrun_contains(c, ys, ye, x0, p0.z as int, crate::fx::tdiv(
                    p1.z - p0.z,
                    yb - ya,
                ), p.0, p.1);
                lemma_vrun_contains(c, ys, ye, x0, p1.z as int, crate::fx::tdiv(
                    p0.z - p1.z,
                    ya - yb,
                ), p.0, p.1);
            }
            assert(pixel_set(fwd) =~= pixel_set(bwd));
        }
    }
}

/// The pixels of a horizontal run: one per column, all on its row.
proof fn lemma_hrun_walk(c: Rgb, x: int, x1: int, y: int, z: int, zinc: int)
    requires
        -3 * PXB as int <= x,
        x1 <= 3 * PXB as int,
        -3 * PXB as int <= y <= 3 * PXB as int,
    ensures
        ({
            let evs = hrun_events(c, x, x1, y, z, zinc);
            &&& evs.len() == if x > x1 {
                0int
            } else {
                x1 - x + 1
            }
            &&& forall|i: int|
                0 <= i < evs.len() ==> (#[trigger] evs[i]).x as int == x + i && evs[i].y as int
                    == y
        }),
    decreases x1 - x + 1,
{
    if x > x1 {
    } else {
        lemma_hrun_walk(c, x + 1, x1, y, z + zinc, zinc);
        let evs = hrun_events(c, x, x1, y, z, zinc);
        let rest = hrun_events(c, x + 1, x1, y, z + zinc, zinc);
        assert forall|i: int|
            0 <= i < evs.len() implies (#[trigger] evs[i]).x as int == x + i && evs[i].y as int
            == y by {
            if i == 0 {
                assert(evs[0] == ev(x, y, z, c));
            } else {
                assert(evs[i] == rest[i - 1]);
            }
        }
    }
}

/// The shallow walk, rising octant: each column is visited once, and the row
/// chosen for it stays within half a step of the ideal line through the
/// start with slope dy/dx.
proof fn lemma_shallow_walk_up(
    c: Rgb,
    x: int,
    x1: int,
    y: int,
    d: int,
    dy: int,
    dx: int,
    x0: int,
    y0: int,
    z: int,
    zinc: int,
)
    requires
        0 < dy <= dx,
        d == 2 * dy * (x - x0 + 1) - dx * (2 * (y - y0) + 1),
        -dx <= 2 * (dy * (x - x0) - dx * (y - y0)),
        2 * (dy * (x - x0) - dx * (y - y0)) <= dx,
        -(PXB as int) <= x0,
        x0 <= x,
        x1 <= PXB as int,
        -(PXB as int) <= y0 <= PXB as int,
        y0 <= y,
        y - y0 <= x - x0,
    ensures
        ({
            let evs = shallow_events(c, x, x1, y, d, 1, 2 * dy, -2 * dx, z, zinc);
            &&& evs.len() == if x > x1 {
                0int
            } else {
                x1 - x + 1
            }
            &&& forall|i: int|
                0 <= i < evs.len() ==> {
                    let e = #[trigger] evs[i];
                    &&& e.x as int == x + i
                    &&& -dx <= 2 * (dy * (e.x - x0) - dx * (e.y - y0))
                    &&& 2 * (dy * (e.x - x0) - dx * (e.y - y0)) <= dx
                }
        }),
    decreases x1 - x + 1,
{
    if x > x1 {
    } else {
        let e0 = ev(x, y, z, c);
        let ecur = 2 * (dy * (x - x0) - dx * (y - y0));
        assert(d == ecur + 2 * dy - dx) by (nonlinear_arith)
            requires
                d == 2 * dy * (x - x0 + 1) - dx * (2 * (y - y0) + 1),
                ecur == 2 * (dy * (x - x0) - dx * (y - y0)),
        ;
        assert(2 * dy * (x + 1 - x0 + 1) == 2 * dy * (x - x0 + 1) + 2 * dy) by (nonlinear_arith);
        assert(dx * (2 * (y + 1 - y0) + 1) == dx * (2 * (y - y0) + 1) + 2 * dx)
            by (nonlinear_arith);
        assert(2 * (dy * (x + 1 - x0) - dx * (y - y0)) == ecur + 2 * dy) by (nonlinear_arith)
            requires
                ecur == 2 * (dy * (x - x0) - dx * (y - y0)),
        ;
        assert(2 * (dy * (x + 1 - x0) - dx * (y + 1 - y0)) == ecur + 2 * dy - 2 * dx)
            by (nonlinear_arith)
            requires
                ecur == 2 * (dy * (x - x0) - dx * (y - y0)),
        ;
        let evs = shallow_events(c, x, x1, y, d, 1, 2 * dy, -2 * dx, z, zinc);
        if d > 0 {
            lemma_shallow_walk_up(
                c,
                x + 1,
                x1,
                y + 1,
                d + (-2 * dx) + 2 * dy,
                dy,
                dx,
                x0,
                y0,
                z + zinc,
                zinc,
            );
            let rest = shallow_events(
                c,
                x + 1,
                x1,
                y + 1,
                d + (-2 * dx) + 2 * dy,
                1,
                2 * dy,
                -2 * dx,
                z + zinc,
                zinc,
            );
            assert forall|i: int|
                0 <= i < evs.len() implies {
                let e = #[trigger] evs[i];
                &&& e.x as int == x + i
                &&& -dx <= 2 * (dy * (e.x - x0) - dx * (e.y - y0))
                &&& 2 * (dy * (e.x - x0) - dx * (e.y - y0)) <= dx
            } by {
                if i == 0 {
                    assert(evs[0] == e0);
                    assert(e0.x as int == x && e0.y as int == y);
                } else {
                    assert(evs[i] == rest[i - 1]);
                }
            }
        } else {
            lemma_shallow_walk_up(c, x + 1, x1, y, d + 2 * dy, dy, dx, x0, y0, z + zinc, zinc);
            let rest = shallow_events(c, x + 1, x1, y, d + 2 * dy, 1, 2 * dy, -2 * dx, z + zinc, zinc);
            assert forall|i: int|
                0 <= i < evs.len() implies {
                let e = #[trigger] evs[i];
                &&& e.x as int == x + i
                &&& -dx <= 2 * (dy * (e.x - x0) - dx * (e.y - y0))
                &&& 2 * (dy * (e.x - x0) - dx * (e.y - y0)) <= dx
            } by {
                if i == 0 {
                    assert(evs[0] == e0);
                    assert(e0.x as int == x && e0.y as int == y);
                } else {
                    assert(evs[i] == rest[i - 1]);
                }
            }
        }
    }
}

/// The steep walk, rising octant: each row is visited once, and the column
/// chosen for it stays within half a step of the ideal line.
proof fn lemma_steep_walk_up(
    c: Rgb,
    y: int,
    y1: int,
    x: int,
    d: int,
    dy: int,
    dx: int,
    x0: int,
    y0: int,
    z: int,
    zinc: int,
)
    requires
        0 < dx <= dy,
        d == 2 * dx * (y - y0 + 1) - dy * (2 * (x - x0) + 1),
        -dy <= 2 * (dx * (y - y0) - dy * (x - x0)),
        2 * (dx * (y - y0) - dy * (x - x0)) <= dy,
        -(PXB as int) <= y0,
        y0 <= y,
        y1 <= PXB as int,
        -(PXB as int) <= x0 <= PXB as int,
        x0 <= x,
        x - x0 <= y - y0,
    ensures
        ({
            let evs = steep_events(c, y, y1, x, d, 1, 2 * dy, -2 * dx, z, zinc);
            &&& evs.len() == if y > y1 {
                0int
            } else {
                y1 - y + 1
            }
            &&& forall|i: int|
                0 <= i < evs.len() ==> {
                    let e = #[trigger] evs[i];
                    &&& e.y as int == y + i
                    &&& -dy <= 2 * (dx * (e.y - y0) - dy * (e.x - x0))
                    &&& 2 * (dx * (e.y - y0) - dy * (e.x - x0)) <= dy
                }
        }),
    decreases y1 - y + 1,
{
    if y > y1 {
    } else {
        let e0 = ev(x, y, z, c);
        let ecur = 2 * (dx * (y - y0) - dy * (x - x0));
        assert(d == ecur + 2 * dx - dy) by (nonlinear_arith)
            requires
                d == 2 * dx * (y - y0 + 1) - dy * (2 * (x - x0) + 1),
                ecur == 2 * (dx * (y - y0) - dy * (x - x0)),
        ;
        assert(2 * dx * (y + 1 - y0 + 1) == 2 * dx * (y - y0 + 1) + 2 * dx) by (nonlinear_arith);
        assert(dy * (2 * (x + 1 - x0) + 1) == dy * (2 * (x - x0) + 1) + 2 * dy)
            by (nonlinear_arith);
        assert(2 * (dx * (y + 1 - y0) - dy * (x - x0)) == ecur + 2 * dx) by (nonlinear_arith)
            requires
                ecur == 2 * (dx * (y - y0) - dy * (x - x0)),
        ;
        assert(2 * (dx * (y + 1 - y0) - dy * (x + 1 - x0)) == ecur + 2 * dx - 2 * dy)
            by (nonlinear_arith)
            requires
                ecur == 2 * (dx * (y - y0) - dy * (x - x0)),
        ;
        let evs = steep_events(c, y, y1, x, d, 1, 2 * dy, -2 * dx, z, zinc);
        if d > 0 {
            lemma_steep_walk_up(
                c,
                y + 1,
                y1,
                x + 1,
                d - 2 * dy - (-2 * dx),
                dy,
                dx,
                x0,
                y0,
                z + zinc,
                zinc,
            );
            let rest = steep_events(
                c,
                y + 1,
                y1,
                x + 1,
                d - 2 * dy - (-2 * dx),
                1,
                2 * dy,
                -2 * dx,
                z + zinc,
                zinc,
            );
            assert forall|i: int|
                0 <= i < evs.len() implies {
                let e = #[trigger] evs[i];
                &&& e.y as int == y + i
                &&& -dy <= 2 * (dx * (e.y - y0) - dy * (e.x - x0))
                &&& 2 * (dx * (e.y - y0) - dy * (e.x - x0)) <= dy
            } by {
                if i == 0 {
                    assert(evs[0] == e0);
                    assert(e0.x as int == x && e0.y as int == y);
                } else {
                    assert(evs[i] == rest[i - 1]);
                }
            }
        } else {
            lemma_steep_walk_up(c, y + 1, y1, x, d - (-2 * dx), dy, dx, x0, y0, z + zinc, zinc);
            let rest = steep_events(
                c,
                y + 1,
                y1,
                x,
                d - (-2 * dx),
                1,
                2 * dy,
                -2 * dx,
                z + zinc,
                zinc,
            );
            assert forall|i: int|
                0 <= i < evs.len() implies {
                let e = #[trigger] evs[i];
                &&& e.y as int == y + i
                &&& -dy <= 2 * (dx * (e.y - y0) - dy * (e.x - x0))
                &&& 2 * (dx * (e.y - y0) - dy * (e.x - x0)) <= dy
            } by {
                if i == 0 {
                    assert(evs[0] == e0);
                    assert(e0.x as int == x && e0.y as int == y);
                } else {
                    assert(evs[i] == rest[i - 1]);
                }
            }
        }
    }
}

/// Law: in the shallow rising octants (slope in [0, 1)), the incremental
/// walk visits each column exactly once and its chosen row differs from the
/// ideal line, evaluated at that column, by at most half a pixel:
/// |dy * (x - x0) - dx * (y - y0)| * 2 <= dx for every plotted pixel.
pub proof fn lemma_line_accuracy_shallow(c: Rgb, p0: Point, p1: Point)
    requires
        crate::geom::pt_in_range(p0),
        crate::geom::pt_in_range(p1),
        p0.x <= p1.x,
        0 <= px_of(p1.y as int) - px_of(p0.y as int),
        px_of(p1.y as int) - px_of(p0.y as int) < px_of(p1.x as int) - px_of(p0.x as int),
    ensures
        ({
            let evs = line_events(c, p0, p1);
            let x0 = px_of(p0.x as int);
            let y0 = px_of(p0.y as int);
            let dx = px_of(p1.x as int) - x0;
            let dy = px_of(p1.y as int) - y0;
            &&& evs.len() == dx + 1
            &&& forall|i: int|
                0 <= i < evs.len() ==> {
                    let e = #[trigger] evs[i];
                    &&& e.x as int == x0 + i
                    &&& 2 * sabs(dy * (e.x - x0) - dx * (e.y - y0)) <= dx
                }
        }),
{
    let x0 = px_of(p0.x as int);
    let y0 = px_of(p0.y as int);
    let x1 = px_of(p1.x as int);
    let y1 = px_of(p1.y as int);
    let dx = x1 - x0;
    let dy = y1 - y0;
    crate::fx::lemma_px_mag(p0.x as int);
    crate::fx::lemma_px_mag(p0.y as int);
    crate::fx::lemma_px_mag(p1.x as int);
    crate::fx::lemma_px_mag(p1.y as int);
    let evs = line_events(c, p0, p1);
    if dy == 0 {
        assert(evs == hrun_events(c, x0, x1, y0, p0.z as int, crate::fx::tdiv(p1.z - p0.z, dx)));
        lemma_hrun_walk(c, x0, x1, y0, p0.z as int, crate::fx::tdiv(p1.z - p0.z, dx));
        assert forall|i: int|
            0 <= i < evs.len() implies {
            let e = #[trigger] evs[i];
            &&& e.x as int == x0 + i
            &&& 2 * sabs(dy * (e.x - x0) - dx * (e.y - y0)) <= dx
        } by {
            let e = evs[i];
            assert(dy * (e.x - x0) == 0) by (nonlinear_arith)
                requires
                    dy == 0,
            ;
            assert(dx * (e.y - y0) == 0) by (nonlinear_arith)
                requires
                    e.y as int == y0,
            ;
        }
    } else {
        assert(evs == shallow_events(
            c,
            x0,
            x1,
            y0,
            2 * dy + (-dx),
            1,
            2 * dy,
            -2 * dx,
            p0.z as int,
            crate::fx::tdiv(p1.z - p0.z, dx),
        ));
        assert(2 * dy * (x0 - x0 + 1) - dx * (2 * (y0 - y0) + 1) == 2 * dy - dx)
            by (nonlinear_arith);
        assert(2 * (dy * (x0 - x0) - dx * (y0 - y0)) == 0) by (nonlinear_arith);
        lemma_shallow_walk_up(
            c,
            x0,
            x1,
            y0,
            2 * dy + (-dx),
            dy,
            dx,
            x0,
            y0,
            p0.z as int,
            crate::fx::tdiv(p1.z - p0.z, dx),
        );
    }
}

/// Law: in the steep rising octants (slope at least 1), the incremental walk
/// visits each row exactly once and its chosen column differs from the ideal
/// line, evaluated at that row, by at most half a pixel.
pub proof fn lemma_line_accuracy_steep(c: Rgb, p0: Point, p1: Point)
    requires
        crate::geom::pt_in_range(p0),
        crate::geom::pt_in_range(p1),
        p0.x <= p1.x,
        0 < px_of(p1.x as int) - px_of(p0.x as int),
        px_of(p1.x as int) - px_of(p0.x as int) <= px_of(p1.y as int) - px_of(p0.y as int),
    ensures
        ({
            let evs = line_events(c, p0, p1);
            let x0 = px_of(p0.x as int);
            let y0 = px_of(p0.y as int);
            let dx = px_of(p1.x as int) - x0;
            let dy = px_of(p1.y as int) - y0;
            &&& evs.len() == dy + 1
            &&& forall|i: int|
                0 <= i < evs.len() ==> {
                    let e = #[trigger] evs[i];
                    &&& e.y as int == y0 + i
                    &&& 2 * sabs(dx * (e.y - y0) - dy * (e.x - x0)) <= dy
                }
        }),
{
    let x0 = px_of(p0.x as int);
    let y0 = px_of(p0.y as int);
    let x1 = px_of(p1.x as int);
    let y1 = px_of(p1.y as int);
    let dx = x1 - x0;
    let dy = y1 - y0;
    crate::fx::lemma_px_mag(p0.x as int);
    crate::fx::lemma_px_mag(p0.y as int);
    crate::fx::lemma_px_mag(p1.x as int);
    crate::fx::lemma_px_mag(p1.y as int);
    let evs = line_events(c, p0, p1);
    assert(evs == steep_events(
        c,
        y0,
        y1,
        x0,
        -2 * (-dx) - dy,
        1,
        2 * dy,
        2 * (-dx),
        p0.z as int,
        crate::fx::tdiv(p1.z - p0.z, dy),
    ));
    assert(2 * dx * (y0 - y0 + 1) - dy * (2 * (x0 - x0) + 1) == 2 * dx - dy) by (nonlinear_arith);
    assert(2 * (dx * (y0 - y0) - dy * (x0 - x0)) == 0) by (nonlinear_arith);
    lemma_steep_walk_up(
        c,
        y0,
        y1,
        x0,
        2 * dx - dy,
        dy,
        dx,
        x0,
        y0,
        p0.z as int,
        crate::fx::tdiv(p1.z - p0.z, dy),
    );
}

/// Law: the boundary portion of a surviving triangle's render is exactly the
/// three lines a caller would draw directly between its vertices in the edge
/// color; the fill follows after.
pub proof fn lemma_triangle_boundary(cf: Rgb, p0: Point, p1: Point, p2: Point)
    ensures
        ({
            let edges = line_events(white_s(), p0, p1) + line_events(white_s(), p1, p2)
                + line_events(white_s(), p2, p0);
            let evs = triangle_events(cf, p0, p1, p2);
            &&& evs.len() >= edges.len()
            &&& evs.take(edges.len() as int) == edges
            &&& evs.skip(edges.len() as int) == tri_fill_events(
                cf,
                sort3_s(p0, p1, p2).0,
                sort3_s(p0, p1, p2).1,
                sort3_s(p0, p1, p2).2,
            )
        }),
{
    let edges = line_events(white_s(), p0, p1) + line_events(white_s(), p1, p2) + line_events(
        white_s(),
        p2,
        p0,
    );
    let fill = tri_fill_events(cf, sort3_s(p0, p1, p2).0, sort3_s(p0, p1, p2).1, sort3_s(p0, p1, p2).2);
    let evs = triangle_events(cf, p0, p1, p2);
    assert(evs =~= edges + fill);
    assert(evs.take(edges.len() as int) =~= edges);
    assert(evs.skip(edges.len() as int) =~= fill);
}

/// Law: back-face culling on a single triangle. A triangle whose computed
/// normal z component is zero is discarded, as is one whose z component is
/// negative: nothing at all is plotted. One with a positive z component is
/// kept and contributes exactly its boundary and fill.
pub proof fn lemma_backface_culling(pts: Seq<Point>, out: Seq<PlotEvent>)
    requires
        pts.len() == 3,
        polygon_render_rel(pts, out),
    ensures
        normal_z_s(pts[0], pts[1], pts[2]) == 0 ==> out == Seq::<PlotEvent>::empty(),
        normal_z_s(pts[0], pts[1], pts[2]) < 0 ==> out == Seq::<PlotEvent>::empty(),
        normal_z_s(pts[0], pts[1], pts[2]) > 0 ==> exists|cf: Rgb|
            out == triangle_events(cf, pts[0], pts[1], pts[2]),
{
    if normal_z_s(pts[0], pts[1], pts[2]) <= 0 {
        assert(polygon_render_rel(pts.skip(3), out));
        assert(pts.skip(3).len() == 0);
        assert(out == Seq::<PlotEvent>::empty());
    } else {
        let (cf, rest) = choose|cf: Rgb, rest: Seq<PlotEvent>|
            {
                &&& cf.r < 255 && cf.g < 255 && cf.b < 255
                &&& out == triangle_events(cf, pts[0], pts[1], pts[2]) + rest
                &&& polygon_render_rel(pts.skip(3), rest)
            };
        assert(rest == Seq::<PlotEvent>::empty());
        assert(out =~= triangle_events(cf, pts[0], pts[1], pts[2]));
    }
}


/// The pixels of a vertical run, indexed: one per row, all on its column.
proof fn lemma_vrun_walk(c: Rgb, y: int, y1: int, x: int, z: int, zinc: int)
    requires
        -3 * PXB as int <= y,
        y1 <= 3 * PXB as int,
        -3 * PXB as int <= x <= 3 * PXB as int,
    ensures
        ({
            let evs = vrun_events(c, y, y1, x, z, zinc);
            &&& evs.len() == if y > y1 {
                0int
            } else {
                y1 - y + 1
            }
            &&& forall|i: int|
                0 <= i < evs.len() ==> (#[trigger] evs[i]).y as int == y + i && evs[i].x as int
                    == x
        }),
    decreases y1 - y + 1,
{
    if y > y1 {
    } else {
        lemma_vrun_walk(c, y + 1, y1, x, z + zinc, zinc);
        let evs = vrun_events(c, y, y1, x, z, zinc);
        let rest = vrun_events(c, y + 1, y1, x, z + zinc, zinc);
        assert forall|i: int|
            0 <= i < evs.len() implies (#[trigger] evs[i]).y as int == y + i && evs[i].x as int
            == x by {
            if i == 0 {
                assert(evs[0] == ev(x, y, z, c));
            } else {
                assert(evs[i] == rest[i - 1]);
            }
        }
    }
}

/// Law: a line whose endpoints round to the same column is drawn as that
/// exact column, one pixel per row from the lower to the higher endpoint.
pub proof fn lemma_line_vertical_exact(c: Rgb, p0: Point, p1: Point)
    requires
        crate::geom::pt_in_range(p0),
        crate::geom::pt_in_range(p1),
        px_of(p0.x as int) == px_of(p1.x as int),
        px_of(p0.y as int) != px_of(p1.y as int),
    ensures
        ({
            let evs = line_events(c, p0, p1);
            let x0 = px_of(p0.x as int);
            let ya = px_of(p0.y as int);
            let yb = px_of(p1.y as int);
            let ys = if ya < yb {
                ya
            } else {
                yb
            };
            let ye = if ya < yb {
                yb
            } else {
                ya
            };
            &&& evs.len() == ye - ys + 1
            &&& forall|i: int|
                0 <= i < evs.len() ==> (#[trigger] evs[i]).y as int == ys + i && evs[i].x as int
                    == x0
        }),
{
    crate::fx::lemma_px_mag(p0.x as int);
    crate::fx::lemma_px_mag(p1.x as int);
    crate::fx::lemma_px_mag(p0.y as int);
    crate::fx::lemma_px_mag(p1.y as int);
    let a = if p0.x > p1.x {
        p1
    } else {
        p0
    };
    let b = if p0.x > p1.x {
        p0
    } else {
        p1
    };
    let x0 = px_of(a.x as int);
    let y0 = px_of(a.y as int);
    let y1 = px_of(b.y as int);
    let ys = if y0 < y1 {
        y0
    } else {
        y1
    };
    let ye = if y0 < y1 {
        y1
    } else {
        y0
    };
    assert(line_events(c, p0, p1) == vrun_events(
        c,
        ys,
        ye,
        x0,
        a.z as int,
        crate::fx::tdiv(b.z - a.z, y1 - y0),
    ));
    lemma_vrun_walk(c, ys, ye, x0, a.z as int, crate::fx::tdiv(b.z - a.z, y1 - y0));
}

/// The shallow walk, falling octant: each column is visited once. The seed
/// constant of this octant sits two whole steps below the midpoint seed, so
/// the chosen row can trail the ideal line by up to two extra rows; the
/// band proved here is exact.
proof fn lemma_shallow_walk_down(
    c: Rgb,
    x: int,
    x1: int,
    y: int,
    d: int,
    dya: int,
    dx: int,
    x0: int,
    y0: int,
    z: int,
    zinc: int,
)
    requires
        0 < dya,
        dya < dx,
        d == 2 * dya * (x - x0 + 1) - dx * (2 * (y0 - y) + 1) - 4 * dya,
        -dx <= 2 * (dya * (x - x0) - dx * (y0 - y)),
        2 * (dya * (x - x0) - dx * (y0 - y)) <= dx + 4 * dya,
        -(PXB as int) <= x0,
        x0 <= x,
        x1 <= PXB as int,
        -(PXB as int) <= y0 <= PXB as int,
        y <= y0,
        y0 - y <= x - x0,
    ensures
        ({
            let evs = shallow_events(c, x, x1, y, d, -1, 2 * dya, -2 * dx, z, zinc);
            &&& evs.len() == if x > x1 {
                0int
            } else {
                x1 - x + 1
            }
            &&& forall|i: int|
                0 <= i < evs.len() ==> {
                    let e = #[trigger] evs[i];
                    &&& e.x as int == x + i
                    &&& -dx <= 2 * (dya * (e.x - x0) - dx * (y0 - e.y))
                    &&& 2 * (dya * (e.x - x0) - dx * (y0 - e.y)) <= dx + 4 * dya
                }
        }),
    decreases x1 - x + 1,
{
    if x > x1 {
    } else {
        let e0 = ev(x, y, z, c);
        let ecur = 2 * (dya * (x - x0) - dx * (y0 - y));
        assert(d == ecur - 2 * dya - dx) by (nonlinear_arith)
            requires
                d == 2 * dya * (x - x0 + 1) - dx * (2 * (y0 - y) + 1) - 4 * dya,
                ecur == 2 * (dya * (x - x0) - dx * (y0 - y)),
        ;
        assert(2 * dya * (x + 1 - x0 + 1) == 2 * dya * (x - x0 + 1) + 2 * dya) by (nonlinear_arith);
        assert(dx * (2 * (y0 - (y - 1)) + 1) == dx * (2 * (y0 - y) + 1) + 2 * dx)
            by (nonlinear_arith);
        assert(2 * (dya * (x + 1 - x0) - dx * (y0 - y)) == ecur + 2 * dya) by (nonlinear_arith)
            requires
                ecur == 2 * (dya * (x - x0) - dx * (y0 - y)),
        ;
        assert(2 * (dya * (x + 1 - x0) - dx * (y0 - (y - 1))) == ecur + 2 * dya - 2 * dx)
            by (nonlinear_arith)
            requires
                ecur == 2 * (dya * (x - x0) - dx * (y0 - y)),
        ;
        let evs = shallow_events(c, x, x1, y, d, -1, 2 * dya, -2 * dx, z, zinc);
        if d > 0 {
            lemma_shallow_walk_down(
                c,
                x + 1,
                x1,
                y + -1,
                d + (-2 * dx) + 2 * dya,
                dya,
                dx,
                x0,
                y0,
                z + zinc,
                zinc,
            );
            let rest = shallow_events(
                c,
                x + 1,
                x1,
                y + -1,
                d + (-2 * dx) + 2 * dya,
                -1,
                2 * dya,
                -2 * dx,
                z + zinc,
                zinc,
            );
            assert forall|i: int|
                0 <= i < evs.len() implies {
                let e = #[trigger] evs[i];
                &&& e.x as int == x + i
                &&& -dx <= 2 * (dya * (e.x - x0) - dx * (y0 - e.y))
                &&& 2 * (dya * (e.x - x0) - dx * (y0 - e.y)) <= dx + 4 * dya
            } by {
                if i == 0 {
                    assert(evs[0] == e0);
                    assert(e0.x as int == x && e0.y as int == y);
                } else {
                    assert(evs[i] == rest[i - 1]);
                }
            }
        } else {
            lemma_shallow_walk_down(c, x + 1, x1, y, d + 2 * dya, dya, dx, x0, y0, z + zinc, zinc);
            let rest = shallow_events(
                c,
                x + 1,
                x1,
                y,
                d + 2 * dya,
                -1,
                2 * dya,
                -2 * dx,
                z + zinc,
                zinc,
            );
            assert forall|i: int|
                0 <= i < evs.len() implies {
                let e = #[trigger] evs[i];
                &&& e.x as int == x + i
                &&& -dx <= 2 * (dya * (e.x - x0) - dx * (y0 - e.y))
                &&& 2 * (dya * (e.x - x0) - dx * (y0 - e.y)) <= dx + 4 * dya
            } by {
                if i == 0 {
                    assert(evs[0] == e0);
                    assert(e0.x as int == x && e0.y as int == y);
                } else {
                    assert(evs[i] == rest[i - 1]);
                }
            }
        }
    }
}

/// Law: in the shallow falling octants (slope in (-1, 0)), the walk visits
/// each column exactly once and the chosen row sits within half a pixel
/// above, or half a pixel plus two slope steps below, the ideal line: the
/// exact error band this octant's seed constant yields. Half-pixel accuracy,
/// as in the rising octants, does not hold here: from (0, 0, 0) toward
/// (4, -2, 0) the walk plots column 3 at row 0 while the ideal row is -1.5.
pub proof fn lemma_line_accuracy_shallow_falling(c: Rgb, p0: Point, p1: Point)
    requires
        crate::geom::pt_in_range(p0),
        crate::geom::pt_in_range(p1),
        p0.x <= p1.x,
        px_of(p1.y as int) < px_of(p0.y as int),
        px_of(p0.y as int) - px_of(p1.y as int) < px_of(p1.x as int) - px_of(p0.x as int),
    ensures
        ({
            let evs = line_events(c, p0, p1);
            let x0 = px_of(p0.x as int);
            let y0 = px_of(p0.y as int);
            let dx = px_of(p1.x as int) - x0;
            let dya = y0 - px_of(p1.y as int);
            &&& evs.len() == dx + 1
            &&& forall|i: int|
                0 <= i < evs.len() ==> {
                    let e = #[trigger] evs[i];
                    &&& e.x as int == x0 + i
                    &&& -dx <= 2 * (dya * (e.x - x0) - dx * (y0 - e.y))
                    &&& 2 * (dya * (e.x - x0) - dx * (y0 - e.y)) <= dx + 4 * dya
                }
        }),
{
    let x0 = px_of(p0.x as int);
    let y0 = px_of(p0.y as int);
    let x1 = px_of(p1.x as int);
    let y1 = px_of(p1.y as int);
    let dx = x1 - x0;
    let dy = y1 - y0;
    let dya = -dy;
    crate::fx::lemma_px_mag(p0.x as int);
    crate::fx::lemma_px_mag(p0.y as int);
    crate::fx::lemma_px_mag(p1.x as int);
    crate::fx::lemma_px_mag(p1.y as int);
    let evs = line_events(c, p0, p1);
    assert(evs == shallow_events(
        c,
        x0,
        x1,
        y0,
        2 * dy + (-dx),
        -1,
        2 * dya,
        -2 * dx,
        p0.z as int,
        crate::fx::tdiv(p1.z - p0.z, dx),
    ));
    assert(2 * dya * (x0 - x0 + 1) - dx * (2 * (y0 - y0) + 1) - 4 * dya == -2 * dya - dx)
        by (nonlinear_arith);
    assert(2 * (dya * (x0 - x0) - dx * (y0 - y0)) == 0) by (nonlinear_arith);
    lemma_shallow_walk_down(
        c,
        x0,
        x1,
        y0,
        2 * dy + (-dx),
        dya,
        dx,
        x0,
        y0,
        p0.z as int,
        crate::fx::tdiv(p1.z - p0.z, dx),
    );
}

/// The steep walk, falling octant: the reflected walk rises through the
/// rows from the far endpoint while the column steps back. The seed of this
/// octant sits one slope step above the midpoint seed, so the chosen column
/// can run ahead of the ideal line by up to one and a half steps; the band
/// proved here is exact.
proof fn lemma_steep_walk_down(
    c: Rgb,
    y: int,
    ye: int,
    x: int,
    d: int,
    dya: int,
    dx: int,
    xs: int,
    ys: int,
    z: int,
    zinc: int,
)
    requires
        0 < dx <= dya,
        d == 2 * dx * (y - ys + 1) - dya * (2 * (xs - x) + 1) + 2 * dya,
        -3 * dya <= 2 * (dx * (y - ys) - dya * (xs - x)),
        2 * (dx * (y - ys) - dya * (xs - x)) <= dya,
        -(PXB as int) <= ys,
        ys <= y,
        ye <= PXB as int,
        -(PXB as int) <= xs <= PXB as int,
        x <= xs,
        xs - x <= y - ys,
    ensures
        ({
            let evs = steep_events(c, y, ye, x, d, -1, 2 * dya, -2 * dx, z, zinc);
            &&& evs.len() == if y > ye {
                0int
            } else {
                ye - y + 1
            }
            &&& forall|i: int|
                0 <= i < evs.len() ==> {
                    let e = #[trigger] evs[i];
                    &&& e.y as int == y + i
                    &&& -3 * dya <= 2 * (dx * (e.y - ys) - dya * (xs - e.x))
                    &&& 2 * (dx * (e.y - ys) - dya * (xs - e.x)) <= dya
                }
        }),
    decreases ye - y + 1,
{
    if y > ye {
    } else {
        let e0 = ev(x, y, z, c);
        let ecur = 2 * (dx * (y - ys) - dya * (xs - x));
        assert(d == ecur + 2 * dx + dya) by (nonlinear_arith)
            requires
                d == 2 * dx * (y - ys + 1) - dya * (2 * (xs - x) + 1) + 2 * dya,
                ecur == 2 * (dx * (y - ys) - dya * (xs - x)),
        ;
        assert(2 * dx * (y + 1 - ys + 1) == 2 * dx * (y - ys + 1) + 2 * dx) by (nonlinear_arith);
        assert(dya * (2 * (xs - (x - 1)) + 1) == dya * (2 * (xs - x) + 1) + 2 * dya)
            by (nonlinear_arith);
        assert(2 * (dx * (y + 1 - ys) - dya * (xs - x)) == ecur + 2 * dx) by (nonlinear_arith)
            requires
                ecur == 2 * (dx * (y - ys) - dya * (xs - x)),
        ;
        assert(2 * (dx * (y + 1 - ys) - dya * (xs - (x - 1))) == ecur + 2 * dx - 2 * dya)
            by (nonlinear_arith)
            requires
                ecur == 2 * (dx * (y - ys) - dya * (xs - x)),
        ;
        let evs = steep_events(c, y, ye, x, d, -1, 2 * dya, -2 * dx, z, zinc);
        if d > 0 {
            lemma_steep_walk_down(
                c,
                y + 1,
                ye,
                x + -1,
                d - 2 * dya - (-2 * dx),
                dya,
                dx,
                xs,
                ys,
                z + zinc,
                zinc,
            );
            let rest = steep_events(
                c,
                y + 1,
                ye,
                x + -1,
                d - 2 * dya - (-2 * dx),
                -1,
                2 * dya,
                -2 * dx,
                z + zinc,
                zinc,
            );
            assert forall|i: int|
                0 <= i < evs.len() implies {
                let e = #[trigger] evs[i];
                &&& e.y as int == y + i
                &&& -3 * dya <= 2 * (dx * (e.y - ys) - dya * (xs - e.x))
                &&& 2 * (dx * (e.y - ys) - dya * (xs - e.x)) <= dya
            } by {
                if i == 0 {
                    assert(evs[0] == e0);
                    assert(e0.x as int == x && e0.y as int == y);
                } else {
                    assert(evs[i] == rest[i - 1]);
                }
            }
        } else {
            lemma_steep_walk_down(c, y + 1, ye, x, d - (-2 * dx), dya, dx, xs, ys, z + zinc, zinc);
            let rest = steep_events(
                c,
                y + 1,
                ye,
                x,
                d - (-2 * dx),
                -1,
                2 * dya,
                -2 * dx,
                z + zinc,
                zinc,
            );
            assert forall|i: int|
                0 <= i < evs.len() implies {
                let e = #[trigger] evs[i];
                &&& e.y as int == y + i
                &&& -3 * dya <= 2 * (dx * (e.y - ys) - dya * (xs - e.x))
                &&& 2 * (dx * (e.y - ys) - dya * (xs - e.x)) <= dya
            } by {
                if i == 0 {
                    assert(evs[0] == e0);
                    assert(e0.x as int == x && e0.y as int == y);
                } else {
                    assert(evs[i] == rest[i - 1]);
                }
            }
        }
    }
}

/// Law: in the steep falling octants (slope at most -1), the walk visits
/// each row exactly once, climbing from the right endpoint, and its chosen
/// column sits within half a step left of, or one and a half steps right
/// of, the ideal line through the endpoints: the exact band this octant's
/// seed constant yields. Half-pixel accuracy does not hold here.
pub proof fn lemma_line_accuracy_steep_falling(c: Rgb, p0: Point, p1: Point)
    requires
        crate::geom::pt_in_range(p0),
        crate::geom::pt_in_range(p1),
        p0.x <= p1.x,
        0 < px_of(p1.x as int) - px_of(p0.x as int),
        px_of(p1.x as int) - px_of(p0.x as int) <= px_of(p0.y as int) - px_of(p1.y as int),
    ensures
        ({
            let evs = line_events(c, p0, p1);
            let x1 = px_of(p1.x as int);
            let y1 = px_of(p1.y as int);
            let dx = x1 - px_of(p0.x as int);
            let dya = px_of(p0.y as int) - y1;
            &&& evs.len() == dya + 1
            &&& forall|i: int|
                0 <= i < evs.len() ==> {
                    let e = #[trigger] evs[i];
                    &&& e.y as int == y1 + i
                    &&& -3 * dya <= 2 * (dx * (e.y - y1) - dya * (x1 - e.x))
                    &&& 2 * (dx * (e.y - y1) - dya * (x1 - e.x)) <= dya
                }
        }),
{
    let x0 = px_of(p0.x as int);
    let y0 = px_of(p0.y as int);
    let x1 = px_of(p1.x as int);
    let y1 = px_of(p1.y as int);
    let dx = x1 - x0;
    let dy = y1 - y0;
    let dya = -dy;
    crate::fx::lemma_px_mag(p0.x as int);
    crate::fx::lemma_px_mag(p0.y as int);
    crate::fx::lemma_px_mag(p1.x as int);
    crate::fx::lemma_px_mag(p1.y as int);
    let evs = line_events(c, p0, p1);
    assert(evs == steep_events(
        c,
        y1,
        y0,
        x0 - (-dx),
        -2 * (-dx) - dy,
        -1,
        2 * dya,
        2 * (-dx),
        p0.z as int,
        crate::fx::tdiv(p1.z - p0.z, dy),
    ));
    assert(2 * dx * (y1 - y1 + 1) - dya * (2 * (x1 - x1) + 1) + 2 * dya == 2 * dx + dya)
        by (nonlinear_arith);
    assert(2 * (dx * (y1 - y1) - dya * (x1 - x1)) == 0) by (nonlinear_arith);
    lemma_steep_walk_down(
        c,
        y1,
        y0,
        x1,
        2 * dx + dya,
        dya,
        dx,
        x1,
        y1,
        p0.z as int,
        crate::fx::tdiv(p1.z - p0.z, dy),
    );
}

} // verus!
