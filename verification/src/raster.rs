//! Scan conversion: Bresenham-style line drawing with depth interpolation,
//! horizontal scanlines, and the edge- and polygon-matrix renderers, all
//! written against the abstract `Canvas` capability set.
//!
//! Each drawing routine's contract gives the exact ordered sequence of plot
//! calls it makes, as a spec-level recurrence mirroring the incremental
//! algorithm of the design; the laws about pixel sets are proved from those
//! recurrences.
use vstd::prelude::*;

use rand::Rng;

verus! {

use crate::canvas::{Canvas, PlotEvent, Rgb};
use crate::fx::{tdiv, tdiv64, tdiv128, fx_mul, fx_mul_s, fx_div, fx_div_s, sabs, px_of, round_px, cos_milli, sin_milli, cos_milli_s, sin_milli_s, COORD_LIM};
use crate::geom::{GeometryMatrix, MatMode, Point, apply_fits_s, apply_pt_s, transformed_pts_s, gm_in_range, pt_in_range};
use crate::stack::{MStack, stack_wf};

/// The largest pixel coordinate a rounded in-range coordinate can reach.
pub const PXB: i64 = 4_000_000;

/// Scanline endpoints may drift well past the coordinate range as the fill
/// interpolants accumulate; they are accepted up to this wider bound.
pub const SPAN_LIM: i64 = 0x100_0000_0000_0000;

/// The largest pixel coordinate a rounded scanline endpoint can reach.
pub const SPXB: i64 = 72_057_594_037_928;

/// What a render call can fail on: a malformed geometry matrix is a fatal
/// input error, and a point the fixed-point range cannot carry is refused.
#[derive(Clone, Copy, PartialEq, Eq, Structural, Debug)]
pub enum GfxError {
    /// An edge matrix whose point count is not a multiple of two.
    EdgeCountNotEven,
    /// A polygon matrix whose point count is not a multiple of three.
    PolygonCountNotTriples,
    /// A point that maps outside the representable coordinate range, or a
    /// zero depth whose reciprocal is not defined.
    NdcUnmappable,
    /// A transform took a coordinate outside the representable range.
    CoordOverflow,
}

/// A single plot record, from spec-level integers.
pub open spec fn ev(x: int, y: int, z: int, c: Rgb) -> PlotEvent {
    PlotEvent { x: x as i64, y: y as i64, z: z as i64, color: c }
}

/// The plot calls of a horizontal run from x to x1 at row y, depth starting
/// at z and stepping by zinc.
pub open spec fn hrun_events(c: Rgb, x: int, x1: int, y: int, z: int, zinc: int) -> Seq<PlotEvent>
    decreases x1 - x + 1,
{
    if x > x1 {
        Seq::empty()
    } else {
        seq![ev(x, y, z, c)] + hrun_events(c, x + 1, x1, y, z + zinc, zinc)
    }
}

/// The plot calls of a vertical run from y to y1 at column x.
pub open spec fn vrun_events(c: Rgb, y: int, y1: int, x: int, z: int, zinc: int) -> Seq<PlotEvent>
    decreases y1 - y + 1,
{
    if y > y1 {
        Seq::empty()
    } else {
        seq![ev(x, y, z, c)] + vrun_events(c, y + 1, y1, x, z + zinc, zinc)
    }
}

/// The plot calls of the shallow-octant incremental walk: x steps every
/// iteration, y conditionally by yinc when the decision variable d is
/// positive; d gains dy2 every step and additionally ndx2 on a y step.
pub open spec fn shallow_events(
    c: Rgb,
    x: int,
    x1: int,
    y: int,
    d: int,
    yinc: int,
    dy2: int,
    ndx2: int,
    z: int,
    zinc: int,
) -> Seq<PlotEvent>
    decreases x1 - x + 1,
{
    if x > x1 {
        Seq::empty()
    } else if d > 0 {
        seq![ev(x, y, z, c)] + shallow_events(
            c,
            x + 1,
            x1,
            y + yinc,
            d + ndx2 + dy2,
            yinc,
            dy2,
            ndx2,
            z + zinc,
            zinc,
        )
    } else {
        seq![ev(x, y, z, c)] + shallow_events(
            c,
            x + 1,
            x1,
            y,
            d + dy2,
            yinc,
            dy2,
            ndx2,
            z + zinc,
            zinc,
        )
    }
}

/// The plot calls of the steep-octant incremental walk: y steps every
/// iteration, x conditionally by xinc; d loses ndx2 every step and
/// additionally dy2 on an x step.
pub open spec fn steep_events(
    c: Rgb,
    y: int,
    y1: int,
    x: int,
    d: int,
    xinc: int,
    dy2: int,
    ndx2: int,
    z: int,
    zinc: int,
) -> Seq<PlotEvent>
    decreases y1 - y + 1,
{
    if y > y1 {
        Seq::empty()
    } else if d > 0 {
        seq![ev(x, y, z, c)] + steep_events(
            c,
            y + 1,
            y1,
            x + xinc,
            d - dy2 - ndx2,
            xinc,
            dy2,
            ndx2,
            z + zinc,
            zinc,
        )
    } else {
        seq![ev(x, y, z, c)] + steep_events(
            c,
            y + 1,
            y1,
            x,
            d - ndx2,
            xinc,
            dy2,
            ndx2,
            z + zinc,
            zinc,
        )
    }
}

/// One loop step preserves "plotted so far plus remainder equals the total".
proof fn lemma_run_step(
    done_old: Seq<PlotEvent>,
    done_new: Seq<PlotEvent>,
    rem_old: Seq<PlotEvent>,
    rem_new: Seq<PlotEvent>,
    total: Seq<PlotEvent>,
    e: PlotEvent,
)
    requires
        done_old + rem_old == total,
        done_new == done_old.push(e),
        rem_old == seq![e] + rem_new,
    ensures
        done_new + rem_new == total,
{
    assert(done_new + rem_new =~= done_old + rem_old);
}

/// When the remainder is empty, what was plotted is the total.
proof fn lemma_run_finish(done: Seq<PlotEvent>, rem: Seq<PlotEvent>, total: Seq<PlotEvent>)
    requires
        done + rem == total,
        rem == Seq::<PlotEvent>::empty(),
    ensures
        done == total,
{
    assert(done + rem =~= done);
}

/// The plot calls of a horizontal scanline between two points of equal y:
/// left to right, with depth interpolated linearly across x.
pub open spec fn scanline_events(c: Rgb, p0: Point, p1: Point) -> Seq<PlotEvent> {
    let a = if p0.x > p1.x {
        p1
    } else {
        p0
    };
    let b = if p0.x > p1.x {
        p0
    } else {
        p1
    };
    let x0 = px_of(a.x as int);
    let y0 = px_of(a.y as int);
    let x1 = px_of(b.x as int);
    let dx = x1 - x0;
    let zinc = if dx == 0 {
        0
    } else {
        tdiv(b.z - a.z, dx)
    };
    hrun_events(c, x0, x1, y0, a.z as int, zinc)
}

/// The plot calls of a line from p0 to p1: endpoints normalized left to
/// right, coordinates rounded to pixels, depth interpolated linearly, and the
/// walk chosen by octant as the incremental-error design prescribes.
pub open spec fn line_events(c: Rgb, p0: Point, p1: Point) -> Seq<PlotEvent> {
    let a = if p0.x > p1.x {
        p1
    } else {
        p0
    };
    let b = if p0.x > p1.x {
        p0
    } else {
        p1
    };
    let x0 = px_of(a.x as int);
    let y0 = px_of(a.y as int);
    let z0 = a.z as int;
    let x1 = px_of(b.x as int);
    let y1 = px_of(b.y as int);
    let z1 = b.z as int;
    let dy = y1 - y0;
    let ndx = -(x1 - x0);
    let dz = z1 - z0;
    if dy == 0 {
        let zinc = if ndx == 0 {
            0
        } else {
            tdiv(dz, -ndx)
        };
        hrun_events(c, x0, x1, y0, z0, zinc)
    } else if ndx == 0 {
        let ys = if y0 < y1 {
            y0
        } else {
            y1
        };
        let ye = if y0 < y1 {
            y1
        } else {
            y0
        };
        vrun_events(c, ys, ye, x0, z0, tdiv(dz, dy))
    } else if sabs(dy) < sabs(ndx) {
        let yinc: int = if dy > 0 {
            1
        } else {
            -1
        };
        let dya = if dy > 0 {
            dy
        } else {
            -dy
        };
        shallow_events(c, x0, x1, y0, 2 * dy + ndx, yinc, 2 * dya, 2 * ndx, z0, tdiv(dz, -ndx))
    } else {
        let dya = if dy > 0 {
            dy
        } else {
            -dy
        };
        let xinc: int = if dy > 0 {
            1
        } else {
            -1
        };
        let xs = if dy > 0 {
            x0
        } else {
            x0 - ndx
        };
        let ys = if dy > 0 {
            y0
        } else {
            y1
        };
        let ye = if dy > 0 {
            y1
        } else {
            y0
        };
        steep_events(c, ys, ye, xs, -2 * ndx - dy, xinc, 2 * dya, 2 * ndx, z0, tdiv(dz, dy))
    }
}

/// Draw a line between two points: one pixel per step of the octant walk,
/// endpoints included, with depth interpolated along the 2D path.
pub fn draw_line<C: Canvas>(c: &mut C, p0: Point, p1: Point)
    requires
        pt_in_range(p0),
        pt_in_range(p1),
    ensures
        final(c).events() == old(c).events() + line_events(old(c).fg(), p0, p1),
        final(c).fg() == old(c).fg(),
        final(c).bg() == old(c).bg(),
        final(c).dim_w() == old(c).dim_w(),
        final(c).dim_h() == old(c).dim_h(),
{
    let ghost total = old(c).events() + line_events(old(c).fg(), p0, p1);
    let ghost fg = old(c).fg();
    let (a, b) = if p0.x > p1.x {
        (p1, p0)
    } else {
        (p0, p1)
    };
    let x0: i64 = round_px(a.x);
    let y0: i64 = round_px(a.y);
    let z0: i64 = a.z;
    let x1: i64 = round_px(b.x);
    let y1: i64 = round_px(b.y);
    let z1: i64 = b.z;
    proof {
        lemma_px_in_range(a.x as int);
        lemma_px_in_range(a.y as int);
        lemma_px_in_range(b.x as int);
        lemma_px_in_range(b.y as int);
    }
    let dy: i64 = y1 - y0;
    let ndx: i64 = -(x1 - x0);
    let dz: i64 = z1 - z0;
    proof {
        assert(-8_000_000 <= dy <= 8_000_000);
        assert(-8_000_000 <= ndx <= 8_000_000);
    }
    if dy == 0 {
        let zinc: i64 = if ndx == 0 {
            0
        } else {
            tdiv64(dz, -ndx)
        };
        let mut x: i64 = x0;
        let mut z: i64 = z0;
        while x <= x1
            invariant
                c.fg() == fg,
                c.bg() == old(c).bg(),
                c.dim_w() == old(c).dim_w(),
                c.dim_h() == old(c).dim_h(),
                x0 <= x <= x1 + 1,
                -PXB <= x0 && x1 <= PXB && -PXB <= y0 <= PXB,
                sabs(zinc as int) <= 8_000_000_001,
                sabs(z as int) <= COORD_LIM as int + (x - x0) * 8_000_000_001,
                c.events() + hrun_events(fg, x as int, x1 as int, y0 as int, z as int, zinc as int)
                    == total,
            decreases x1 + 1 - x,
        {
            let ghost done_old = c.events();
            let ghost rem_old = hrun_events(
                fg,
                x as int,
                x1 as int,
                y0 as int,
                z as int,
                zinc as int,
            );
            c.plot(x, y0, z);
            proof {
                lemma_run_step(
                    done_old,
                    c.events(),
                    rem_old,
                    hrun_events(
                        fg,
                        x as int + 1,
                        x1 as int,
                        y0 as int,
                        z as int + zinc as int,
                        zinc as int,
                    ),
                    total,
                    ev(x as int, y0 as int, z as int, fg),
                );
            }
            x = x + 1;
            z = z + zinc;
        }
        proof {
            lemma_run_finish(
                c.events(),
                hrun_events(fg, x as int, x1 as int, y0 as int, z as int, zinc as int),
                total,
            );
        }
        return ;
    }
    if ndx == 0 {
        let zinc: i64 = tdiv64(dz, dy);
        let ys: i64 = if y0 < y1 {
            y0
        } else {
            y1
        };
        let ye: i64 = if y0 < y1 {
            y1
        } else {
            y0
        };
        let mut y: i64 = ys;
        let mut z: i64 = z0;
        while y <= ye
            invariant
                c.fg() == fg,
                c.bg() == old(c).bg(),
                c.dim_w() == old(c).dim_w(),
                c.dim_h() == old(c).dim_h(),
                ys <= y <= ye + 1,
                -PXB <= ys && ye <= PXB && -PXB <= x0 <= PXB,
                sabs(zinc as int) <= 8_000_000_001,
                sabs(z as int) <= COORD_LIM as int + (y - ys) * 8_000_000_001,
                c.events() + vrun_events(fg, y as int, ye as int, x0 as int, z as int, zinc as int)
                    == total,
            decreases ye + 1 - y,
        {
            let ghost done_old = c.events();
            let ghost rem_old = vrun_events(
                fg,
                y as int,
                ye as int,
                x0 as int,
                z as int,
                zinc as int,
            );
            c.plot(x0, y, z);
            proof {
                lemma_run_step(
                    done_old,
                    c.events(),
                    rem_old,
                    vrun_events(
                        fg,
                        y as int + 1,
                        ye as int,
                        x0 as int,
                        z as int + zinc as int,
                        zinc as int,
                    ),
                    total,
                    ev(x0 as int, y as int, z as int, fg),
                );
            }
            y = y + 1;
            z = z + zinc;
        }
        proof {
            lemma_run_finish(
                c.events(),
                vrun_events(fg, y as int, ye as int, x0 as int, z as int, zinc as int),
                total,
            );
        }
        return ;
    }
    let ady: i64 = if dy < 0 {
        -dy
    } else {
        dy
    };
    let andx: i64 = if ndx < 0 {
        -ndx
    } else {
        ndx
    };
    if ady < andx {
        let zinc: i64 = tdiv64(dz, -ndx);
        let yinc: i64 = if dy > 0 {
            1
        } else {
            -1
        };
        let dy2: i64 = if dy > 0 {
            2 * dy
        } else {
            -2 * dy
        };
        let ndx2: i64 = 2 * ndx;
        let mut x: i64 = x0;
        let mut y: i64 = y0;
        let mut d: i64 = 2 * dy + ndx;
        let mut z: i64 = z0;
        while x <= x1
            invariant
                c.fg() == fg,
                c.bg() == old(c).bg(),
                c.dim_w() == old(c).dim_w(),
                c.dim_h() == old(c).dim_h(),
                x0 <= x <= x1 + 1,
                -PXB <= x0 && x1 <= PXB,
                sabs(y as int) <= PXB as int + (x - x0),
                sabs(dy2 as int) <= 16_000_000 && sabs(ndx2 as int) <= 16_000_000 && sabs(
                    yinc as int,
                ) <= 1,
                sabs(d as int) <= 24_000_000 + (x - x0) * 32_000_000,
                sabs(zinc as int) <= 8_000_000_001,
                sabs(z as int) <= COORD_LIM as int + (x - x0) * 8_000_000_001,
                c.events() + shallow_events(
                    fg,
                    x as int,
                    x1 as int,
                    y as int,
                    d as int,
                    yinc as int,
                    dy2 as int,
                    ndx2 as int,
                    z as int,
                    zinc as int,
                ) == total,
            decreases x1 + 1 - x,
        {
            let ghost done_old = c.events();
            let ghost rem_old = shallow_events(
                fg,
                x as int,
                x1 as int,
                y as int,
                d as int,
                yinc as int,
                dy2 as int,
                ndx2 as int,
                z as int,
                zinc as int,
            );
            c.plot(x, y, z);
            let ghost e0 = ev(x as int, y as int, z as int, fg);
            if d > 0 {
                y = y + yinc;
                d = d + ndx2;
            }
            d = d + dy2;
            proof {
                lemma_run_step(
                    done_old,
                    c.events(),
                    rem_old,
                    shallow_events(
                        fg,
                        x as int + 1,
                        x1 as int,
                        y as int,
                        d as int,
                        yinc as int,
                        dy2 as int,
                        ndx2 as int,
                        z as int + zinc as int,
                        zinc as int,
                    ),
                    total,
                    e0,
                );
            }
            x = x + 1;
            z = z + zinc;
        }
        proof {
            lemma_run_finish(
                c.events(),
                shallow_events(
                    fg,
                    x as int,
                    x1 as int,
                    y as int,
                    d as int,
                    yinc as int,
                    dy2 as int,
                    ndx2 as int,
                    z as int,
                    zinc as int,
                ),
                total,
            );
        }
    } else {
        let zinc: i64 = tdiv64(dz, dy);
        let dy2: i64 = if dy > 0 {
            2 * dy
        } else {
            -2 * dy
        };
        let ndx2: i64 = 2 * ndx;
        let xinc: i64 = if dy > 0 {
            1
        } else {
            -1
        };
        let xs: i64 = if dy > 0 {
            x0
        } else {
            x0 - ndx
        };
        let ys: i64 = if dy > 0 {
            y0
        } else {
            y1
        };
        let ye: i64 = if dy > 0 {
            y1
        } else {
            y0
        };
        let mut y: i64 = ys;
        let mut x: i64 = xs;
        let mut d: i64 = -2 * ndx - dy;
        let mut z: i64 = z0;
        while y <= ye
            invariant
                c.fg() == fg,
                c.bg() == old(c).bg(),
                c.dim_w() == old(c).dim_w(),
                c.dim_h() == old(c).dim_h(),
                ys <= y <= ye + 1,
                -PXB <= ys && ye <= PXB,
                sabs(x as int) <= 2 * PXB as int + (y - ys),
                sabs(dy2 as int) <= 16_000_000 && sabs(ndx2 as int) <= 16_000_000 && sabs(
                    xinc as int,
                ) <= 1,
                sabs(d as int) <= 24_000_000 + (y - ys) * 32_000_000,
                sabs(zinc as int) <= 8_000_000_001,
                sabs(z as int) <= COORD_LIM as int + (y - ys) * 8_000_000_001,
                c.events() + steep_events(
                    fg,
                    y as int,
                    ye as int,
                    x as int,
                    d as int,
                    xinc as int,
                    dy2 as int,
                    ndx2 as int,
                    z as int,
                    zinc as int,
                ) == total,
            decreases ye + 1 - y,
        {
            let ghost done_old = c.events();
            let ghost rem_old = steep_events(
                fg,
                y as int,
                ye as int,
                x as int,
                d as int,
                xinc as int,
                dy2 as int,
                ndx2 as int,
                z as int,
                zinc as int,
            );
            c.plot(x, y, z);
            let ghost e0 = ev(x as int, y as int, z as int, fg);
            if d > 0 {
                x = x + xinc;
                d = d - dy2;
            }
            d = d - ndx2;
            proof {
                lemma_run_step(
                    done_old,
                    c.events(),
                    rem_old,
                    steep_events(
                        fg,
                        y as int + 1,
                        ye as int,
                        x as int,
                        d as int,
                        xinc as int,
                        dy2 as int,
                        ndx2 as int,
                        z as int + zinc as int,
                        zinc as int,
                    ),
                    total,
                    e0,
                );
            }
            y = y + 1;
            z = z + zinc;
        }
        proof {
            lemma_run_finish(
                c.events(),
                steep_events(
                    fg,
                    y as int,
                    ye as int,
                    x as int,
                    d as int,
                    xinc as int,
                    dy2 as int,
                    ndx2 as int,
                    z as int,
                    zinc as int,
                ),
                total,
            );
        }
    }
}

/// Rounded pixels of in-range coordinates stay within PXB.
proof fn lemma_px_in_range(a: int)
    requires
        sabs(a) <= COORD_LIM as int,
    ensures
        sabs(px_of(a)) <= PXB as int,
        -PXB as int <= px_of(a) <= PXB as int,
{
    if a < 0 {
        vstd::arithmetic::div_mod::lemma_fundamental_div_mod(-a + 500, 1000);
    } else {
        vstd::arithmetic::div_mod::lemma_fundamental_div_mod(a + 500, 1000);
    }
}

/// Draw a horizontal scanline between two points that share a row,
/// interpolating depth across the run.
pub fn draw_scanline<C: Canvas>(c: &mut C, p0: Point, p1: Point)
    requires
        sabs(p0.x as int) <= SPAN_LIM as int,
        sabs(p0.y as int) <= SPAN_LIM as int,
        sabs(p0.z as int) <= SPAN_LIM as int,
        sabs(p1.x as int) <= SPAN_LIM as int,
        sabs(p1.z as int) <= SPAN_LIM as int,
        p0.y == p1.y,
    ensures
        final(c).events() == old(c).events() + scanline_events(old(c).fg(), p0, p1),
        final(c).fg() == old(c).fg(),
        final(c).bg() == old(c).bg(),
        final(c).dim_w() == old(c).dim_w(),
        final(c).dim_h() == old(c).dim_h(),
{
    let ghost total = old(c).events() + scanline_events(old(c).fg(), p0, p1);
    let ghost fg = old(c).fg();
    let (a, b) = if p0.x > p1.x {
        (p1, p0)
    } else {
        (p0, p1)
    };
    let x0: i64 = round_px(a.x);
    let y0: i64 = round_px(a.y);
    let x1: i64 = round_px(b.x);
    proof {
        crate::fx::lemma_px_mag(a.x as int);
        crate::fx::lemma_px_mag(a.y as int);
        crate::fx::lemma_px_mag(b.x as int);
    }
    let dz: i64 = b.z - a.z;
    let dx: i64 = x1 - x0;
    let zinc: i64 = if dx == 0 {
        0
    } else {
        tdiv64(dz, dx)
    };
    proof {
        if dx != 0 {
            crate::fx::lemma_tdiv_times_divisor(dz as int, dx as int);
        }
    }
    let mut x: i64 = x0;
    let mut z: i64 = a.z;
    while x <= x1
        invariant
            c.fg() == fg,
            c.bg() == old(c).bg(),
            c.dim_w() == old(c).dim_w(),
            c.dim_h() == old(c).dim_h(),
            x0 <= x <= x1 + 1,
            -SPXB <= x0 && x1 <= SPXB && -SPXB <= y0 <= SPXB,
            sabs(zinc as int) <= 2 * SPAN_LIM as int,
            sabs(zinc as int) * (x1 - x0) <= sabs(dz as int),
            sabs(dz as int) <= 2 * SPAN_LIM as int,
            sabs(z as int) <= SPAN_LIM as int + (x - x0) * sabs(zinc as int),
            c.events() + hrun_events(fg, x as int, x1 as int, y0 as int, z as int, zinc as int)
                == total,
        decreases x1 + 1 - x,
    {
        let ghost done_old = c.events();
        let ghost rem_old = hrun_events(fg, x as int, x1 as int, y0 as int, z as int, zinc as int);
        proof {
            vstd::arithmetic::mul::lemma_mul_inequality(
                x - x0,
                x1 as int - x0 as int,
                sabs(zinc as int),
            );
            assert((x + 1 - x0) * sabs(zinc as int) == (x - x0) * sabs(zinc as int) + sabs(
                zinc as int,
            )) by (nonlinear_arith);
        }
        c.plot(x, y0, z);
        proof {
            let rem_new = hrun_events(
                fg,
                x as int + 1,
                x1 as int,
                y0 as int,
                z as int + zinc as int,
                zinc as int,
            );
            lemma_run_step(
                done_old,
                c.events(),
                rem_old,
                rem_new,
                total,
                ev(x as int, y0 as int, z as int, fg),
            );
        }
        x = x + 1;
        z = z + zinc;
    }
    proof {
        lemma_run_finish(
            c.events(),
            hrun_events(fg, x as int, x1 as int, y0 as int, z as int, zinc as int),
            total,
        );
    }
}

/// The plot calls of rendering an edge list: consecutive pairs drawn as
/// independent lines, an incomplete trailing pair drawing nothing.
pub open spec fn edge_matrix_events(c: Rgb, pts: Seq<Point>) -> Seq<PlotEvent>
    decreases pts.len(),
{
    if pts.len() < 2 {
        Seq::empty()
    } else {
        line_events(c, pts[0], pts[1]) + edge_matrix_events(c, pts.skip(2))
    }
}

/// Draw an edge matrix: every consecutive pair of points becomes a line.
/// A pair left incomplete by an odd point count is a fatal input error,
/// reported after the complete pairs have been drawn, never silently dropped.
pub fn render_edge_matrix<C: Canvas>(c: &mut C, m: &GeometryMatrix) -> (res: Result<(), GfxError>)
    requires
        m.mode == MatMode::Edge,
        gm_in_range(*m),
    ensures
        final(c).events() == old(c).events() + edge_matrix_events(old(c).fg(), m.pts@),
        final(c).fg() == old(c).fg(),
        final(c).bg() == old(c).bg(),
        final(c).dim_w() == old(c).dim_w(),
        final(c).dim_h() == old(c).dim_h(),
        res is Ok <==> m.pts@.len() % 2 == 0,
        res is Err ==> res == Result::<(), GfxError>::Err(GfxError::EdgeCountNotEven),
{
    let ghost total = old(c).events() + edge_matrix_events(old(c).fg(), m.pts@);
    let ghost fg = old(c).fg();
    proof {
        assert(m.pts@.skip(0) =~= m.pts@);
    }
    let n: usize = m.pts.len();
    let mut i: usize = 0;
    while i + 1 < n
        invariant
            c.fg() == fg,
            c.bg() == old(c).bg(),
            c.dim_w() == old(c).dim_w(),
            c.dim_h() == old(c).dim_h(),
            m.mode == MatMode::Edge,
            gm_in_range(*m),
            n == m.pts@.len(),
            i <= n,
            i % 2 == 0,
            c.events() + edge_matrix_events(fg, m.pts@.skip(i as int)) == total,
        decreases n - i,
    {
        let ghost done_old = c.events();
        let ghost rem_old = edge_matrix_events(fg, m.pts@.skip(i as int));
        let p0: Point = m.pts[i];
        let p1: Point = m.pts[i + 1];
        draw_line(c, p0, p1);
        proof {
            let s = m.pts@.skip(i as int);
            assert(s.len() >= 2);
            assert(s[0] == p0 && s[1] == p1);
            assert(s.skip(2) =~= m.pts@.skip(i as int + 2));
            assert(rem_old == line_events(fg, p0, p1) + edge_matrix_events(
                fg,
                m.pts@.skip(i as int + 2),
            ));
            assert(c.events() + edge_matrix_events(fg, m.pts@.skip(i as int + 2)) =~= done_old
                + rem_old);
        }
        i = i + 2;
    }
    proof {
        assert(edge_matrix_events(fg, m.pts@.skip(i as int)) == Seq::<PlotEvent>::empty());
        lemma_run_finish(c.events(), edge_matrix_events(fg, m.pts@.skip(i as int)), total);
    }
    if n % 2 == 0 {
        Ok(())
    } else {
        Err(GfxError::EdgeCountNotEven)
    }
}

/// The x coordinate, in milli-units, of a logical [-1, 1] coordinate mapped
/// into a screen of the given pixel width, mirrored.
pub open spec fn ndc_x_s(v: int, w: int) -> int {
    tdiv((1000 - v) * w, 2)
}

/// The y coordinate, in milli-units, of a logical [-1, 1] coordinate mapped
/// into a screen of the given pixel height.
pub open spec fn ndc_y_s(v: int, h: int) -> int {
    tdiv((1000 + v) * h, 2)
}

/// The fixed-point reciprocal of a depth, used as perspective-style depth.
pub open spec fn recip_z_s(z: int) -> int
    recommends
        z != 0,
{
    tdiv(1_000_000, z)
}

/// Whether a point can be mapped from logical space onto the screen: its
/// depth has a reciprocal and the mapped coordinates stay representable.
pub open spec fn ndc_ok_s(p: Point, w: int, h: int) -> bool {
    &&& p.z != 0
    &&& sabs(ndc_x_s(p.x as int, w)) <= COORD_LIM as int
    &&& sabs(ndc_y_s(p.y as int, h)) <= COORD_LIM as int
}

/// The mapped point: screen coordinates and reciprocal depth.
pub open spec fn ndc_pt_s(p: Point, w: int, h: int) -> Point
    recommends
        ndc_ok_s(p, w, h),
{
    Point {
        x: ndc_x_s(p.x as int, w) as i64,
        y: ndc_y_s(p.y as int, h) as i64,
        z: recip_z_s(p.z as int) as i64,
    }
}

/// Map one point from logical [-1, 1] space onto the screen.
fn ndc_map_point(p: Point, w: u32, h: u32) -> (r: Option<Point>)
    requires
        pt_in_range(p),
    ensures
        match r {
            Some(q) => ndc_ok_s(p, w as int, h as int) && q == ndc_pt_s(p, w as int, h as int)
                && pt_in_range(q),
            None => !ndc_ok_s(p, w as int, h as int),
        },
{
    if p.z == 0 {
        return None;
    }
    proof {
        assert(-20000000000000000000int <= (1000 - p.x as int) * (w as int) <= 20000000000000000000int)
            by (nonlinear_arith)
            requires
                sabs(p.x as int) <= COORD_LIM as int,
                0 <= w <= 0x1_0000_0000,
        ;
        assert(-20000000000000000000int <= (1000 + p.y as int) * (h as int) <= 20000000000000000000int)
            by (nonlinear_arith)
            requires
                sabs(p.y as int) <= COORD_LIM as int,
                0 <= h <= 0x1_0000_0000,
        ;
    }
    let mx: i128 = (1000 - p.x as i128) * (w as i128);
    let my: i128 = (1000 + p.y as i128) * (h as i128);
    let qx: i128 = tdiv128(mx, 2);
    let qy: i128 = tdiv128(my, 2);
    let qz: i64 = tdiv64(1_000_000, p.z);
    let lim: i128 = COORD_LIM as i128;
    if -lim <= qx && qx <= lim && -lim <= qy && qy <= lim {
        Some(Point { x: qx as i64, y: qy as i64, z: qz })
    } else {
        None
    }
}

/// Render an edge matrix whose coordinates live in a logical [-1, 1] square:
/// each point is mapped into pixel space (x mirrored, y not) with its depth
/// replaced by the reciprocal, then the pairs are drawn as lines. A point
/// with zero depth or outside the mappable range refuses the whole matrix
/// before anything is drawn.
pub fn render_ndc_edges_n1to1<C: Canvas>(c: &mut C, m: &GeometryMatrix) -> (res: Result<
    (),
    GfxError,
>)
    requires
        m.mode == MatMode::Edge,
        gm_in_range(*m),
    ensures
        final(c).fg() == old(c).fg(),
        final(c).bg() == old(c).bg(),
        final(c).dim_w() == old(c).dim_w(),
        final(c).dim_h() == old(c).dim_h(),
        (forall|i: int|
            0 <= i < m.pts@.len() ==> ndc_ok_s(
                #[trigger] m.pts@[i],
                old(c).dim_w() as int,
                old(c).dim_h() as int,
            )) ==> {
            &&& final(c).events() == old(c).events() + edge_matrix_events(
                old(c).fg(),
                m.pts@.map(
                    |i: int, p: Point| ndc_pt_s(p, old(c).dim_w() as int, old(c).dim_h() as int),
                ),
            )
            &&& (res is Ok <==> m.pts@.len() % 2 == 0)
        },
        (exists|i: int|
            0 <= i < m.pts@.len() && !ndc_ok_s(
                #[trigger] m.pts@[i],
                old(c).dim_w() as int,
                old(c).dim_h() as int,
            )) ==> final(c).events() == old(c).events() && res == Result::<(), GfxError>::Err(
            GfxError::NdcUnmappable,
        ),
{
    let w: u32 = c.width();
    let h: u32 = c.height();
    let n: usize = m.pts.len();
    let mut mapped: Vec<Point> = Vec::new();
    let mut i: usize = 0;
    while i < n
        invariant
            c == old(c),
            w == old(c).dim_w(),
            h == old(c).dim_h(),
            gm_in_range(*m),
            n == m.pts@.len(),
            i <= n,
            mapped@.len() == i,
            forall|j: int|
                0 <= j < i as int ==> ndc_ok_s(#[trigger] m.pts@[j], w as int, h as int),
            forall|j: int|
                0 <= j < i as int ==> #[trigger] mapped@[j] == ndc_pt_s(m.pts@[j], w as int, h as int)
                    && pt_in_range(mapped@[j]),
        decreases n - i,
    {
        match ndc_map_point(m.pts[i], w, h) {
            Some(q) => {
                mapped.push(q);
            },
            None => {
                return Err(GfxError::NdcUnmappable);
            },
        }
        i = i + 1;
    }
    let gm = GeometryMatrix { mode: MatMode::Edge, pts: mapped };
    let res = render_edge_matrix(c, &gm);
    proof {
        assert(gm.pts@ =~= m.pts@.map(|i: int, p: Point| ndc_pt_s(p, w as int, h as int)));
    }
    res
}

/// Draw a line from a point at a given angle, counter-clockwise from the x
/// axis in milli-degrees, with a given milli-unit magnitude, staying on the
/// point's z plane; the computed endpoint is returned.
pub fn draw_line_degrees<C: Canvas>(c: &mut C, point: Point, angle_deg: i64, mag: i64) -> (r: Point)
    requires
        sabs(point.x as int) + sabs(mag as int) <= COORD_LIM as int,
        sabs(point.y as int) + sabs(mag as int) <= COORD_LIM as int,
        sabs(point.z as int) <= COORD_LIM as int,
        -0x4000_0000_0000_0000 < angle_deg < 0x3000_0000_0000_0000,
    ensures
        r.x == point.x + fx_mul_s(mag as int, cos_milli_s(angle_deg as int)),
        r.y == point.y + fx_mul_s(mag as int, sin_milli_s(angle_deg as int)),
        r.z == point.z,
        pt_in_range(r),
        final(c).events() == old(c).events() + line_events(old(c).fg(), point, r),
        final(c).fg() == old(c).fg(),
        final(c).bg() == old(c).bg(),
        final(c).dim_w() == old(c).dim_w(),
        final(c).dim_h() == old(c).dim_h(),
{
    let co: i64 = cos_milli(angle_deg);
    let si: i64 = sin_milli(angle_deg);
    let dx: i64 = fx_mul(mag, co);
    let dy: i64 = fx_mul(mag, si);
    proof {
        assert(sabs(mag as int * co as int) <= 1000 * sabs(mag as int)) by (nonlinear_arith)
            requires
                -1000 <= co <= 1000,
        ;
        assert(sabs(mag as int * si as int) <= 1000 * sabs(mag as int)) by (nonlinear_arith)
            requires
                -1000 <= si <= 1000,
        ;
        crate::fx::lemma_tdiv_bound(mag as int * co as int, 1000, sabs(mag as int));
        crate::fx::lemma_tdiv_bound(mag as int * si as int, 1000, sabs(mag as int));
    }
    let endpoint = Point { x: point.x + dx, y: point.y + dy, z: point.z };
    draw_line(c, point, endpoint);
    endpoint
}

/// A point from spec-level integers.
pub open spec fn mk_pt(x: int, y: int, z: int) -> Point {
    Point { x: x as i64, y: y as i64, z: z as i64 }
}

/// The z component, unscaled, of the normal (p1 - p0) x (p2 - p0): its sign
/// is the sign of the triangle's true geometric normal toward the viewer.
pub open spec fn normal_z_s(p0: Point, p1: Point, p2: Point) -> int {
    (p1.x - p0.x) * (p2.y - p0.y) - (p1.y - p0.y) * (p2.x - p0.x)
}

/// The fill color used for triangle edges.
pub open spec fn white_s() -> Rgb {
    Rgb { r: 255, g: 255, b: 255 }
}

/// The three vertices ordered by y, bottom first, keeping the original order
/// among equal rows (a stable sort).
pub open spec fn sort3_s(a: Point, b: Point, c: Point) -> (Point, Point, Point) {
    if a.y <= b.y {
        if b.y <= c.y {
            (a, b, c)
        } else if a.y <= c.y {
            (a, c, b)
        } else {
            (c, a, b)
        }
    } else {
        if a.y <= c.y {
            (b, a, c)
        } else if b.y <= c.y {
            (b, c, a)
        } else {
            (c, b, a)
        }
    }
}

/// Sort three vertices by y, keeping the original order among equal rows.
fn sort3(a: Point, b: Point, c: Point) -> (r: (Point, Point, Point))
    ensures
        r == sort3_s(a, b, c),
        r.0.y <= r.1.y <= r.2.y,
{
    if a.y <= b.y {
        if b.y <= c.y {
            (a, b, c)
        } else if a.y <= c.y {
            (a, c, b)
        } else {
            (c, a, b)
        }
    } else {
        if a.y <= c.y {
            (b, a, c)
        } else if b.y <= c.y {
            (b, c, a)
        } else {
            (c, b, a)
        }
    }
}

/// The scanlines of a triangle fill: one row per whole unit of y from the
/// bottom vertex up to (exclusive) the top one. The left interpolant always
/// steps by the bottom-to-top deltas (dvx, dvz); the right one steps by the
/// bottom deltas (dbx, dbz) below ymid and by the top deltas (dtx, dtz) from
/// ymid on.
pub open spec fn fill2_run(
    c: Rgb,
    x0: int,
    z0: int,
    x1: int,
    z1: int,
    y: int,
    ymid: int,
    ytop: int,
    dvx: int,
    dvz: int,
    dbx: int,
    dbz: int,
    dtx: int,
    dtz: int,
) -> Seq<PlotEvent>
    decreases (ytop - y + 999) / 1000,
{
    if y >= ytop {
        Seq::empty()
    } else if y < ymid {
        scanline_events(c, mk_pt(x0, y, z0), mk_pt(x1, y, z1)) + fill2_run(
            c,
            x0 + dvx,
            z0 + dvz,
            x1 + dbx,
            z1 + dbz,
            y + 1000,
            ymid,
            ytop,
            dvx,
            dvz,
            dbx,
            dbz,
            dtx,
            dtz,
        )
    } else {
        scanline_events(c, mk_pt(x0, y, z0), mk_pt(x1, y, z1)) + fill2_run(
            c,
            x0 + dvx,
            z0 + dvz,
            x1 + dtx,
            z1 + dtz,
            y + 1000,
            ymid,
            ytop,
            dvx,
            dvz,
            dbx,
            dbz,
            dtx,
            dtz,
        )
    }
}

/// The scanline fill of one triangle with vertices sorted by y. Interpolation
/// divisors take one extra unit so nearly-horizontal edges cannot blow the
/// division up; the interpolants may drift, which scanlines accept.
pub open spec fn tri_fill_events(c: Rgb, vb: Point, vm: Point, vt: Point) -> Seq<PlotEvent>
    recommends
        vb.y <= vm.y <= vt.y,
{
    if vm.y - vb.y <= 1000 {
        let div0 = vt.y - vb.y + 1000;
        let div1 = vt.y - vm.y + 1000;
        fill2_run(
            c,
            vb.x as int,
            vb.z as int,
            vm.x as int,
            vm.z as int,
            vb.y as int,
            vb.y as int,
            vt.y as int,
            fx_div_s(vt.x - vb.x, div0),
            fx_div_s(vt.z - vb.z, div0),
            0,
            0,
            fx_div_s(vt.x - vm.x, div1),
            fx_div_s(vt.z - vm.z, div1),
        )
    } else if vt.y - vm.y <= 1000 {
        let div0 = vt.y - vb.y + 1000;
        let div1 = vm.y - vb.y + 1000;
        fill2_run(
            c,
            vb.x as int,
            vb.z as int,
            vb.x as int,
            vb.z as int,
            vb.y as int,
            vb.y as int,
            vt.y as int,
            fx_div_s(vt.x - vb.x, div0),
            fx_div_s(vt.z - vb.z, div0),
            0,
            0,
            fx_div_s(vm.x - vb.x, div1),
            fx_div_s(vm.z - vb.z, div1),
        )
    } else {
        let divv = vt.y - vb.y + 1000;
        let divb = vm.y - vb.y + 1000;
        let divt = vt.y - vm.y + 1000;
        fill2_run(
            c,
            vb.x as int,
            vb.z as int,
            vb.x as int,
            vb.z as int,
            vb.y as int,
            vm.y as int,
            vt.y as int,
            fx_div_s(vt.x - vb.x, divv),
            fx_div_s(vt.z - vb.z, divv),
            fx_div_s(vm.x - vb.x, divb),
            fx_div_s(vm.z - vb.z, divb),
            fx_div_s(vt.x - vm.x, divt),
            fx_div_s(vt.z - vm.z, divt),
        )
    }
}

/// Everything plotted for one surviving triangle: its three boundary edges
/// in white, then its scanline fill in the given fill color.
pub open spec fn triangle_events(cf: Rgb, p0: Point, p1: Point, p2: Point) -> Seq<PlotEvent> {
    let sorted = sort3_s(p0, p1, p2);
    line_events(white_s(), p0, p1) + line_events(white_s(), p1, p2) + line_events(
        white_s(),
        p2,
        p0,
    ) + tri_fill_events(cf, sorted.0, sorted.1, sorted.2)
}

/// What a polygon render emits: points taken three at a time; a triangle
/// whose normal z component is zero or negative is discarded whole, and each
/// surviving one contributes its edges and fill in some fresh fill color.
pub open spec fn polygon_render_rel(pts: Seq<Point>, out: Seq<PlotEvent>) -> bool
    decreases pts.len(),
{
    if pts.len() < 3 {
        out == Seq::<PlotEvent>::empty()
    } else if normal_z_s(pts[0], pts[1], pts[2]) <= 0 {
        polygon_render_rel(pts.skip(3), out)
    } else {
        exists|cf: Rgb, rest: Seq<PlotEvent>|
            {
                &&& cf.r < 255 && cf.g < 255 && cf.b < 255
                &&& out == triangle_events(cf, pts[0], pts[1], pts[2]) + rest
                &&& polygon_render_rel(pts.skip(3), rest)
            }
    }
}

/// As lemma_run_step, for a whole chunk of plotted events at once.
proof fn lemma_run_chunk(
    done_old: Seq<PlotEvent>,
    done_new: Seq<PlotEvent>,
    rem_old: Seq<PlotEvent>,
    rem_new: Seq<PlotEvent>,
    total: Seq<PlotEvent>,
    chunk: Seq<PlotEvent>,
)
    requires
        done_old + rem_old == total,
        done_new == done_old + chunk,
        rem_old == chunk + rem_new,
    ensures
        done_new + rem_new == total,
{
    assert(done_new + rem_new =~= done_old + rem_old);
}

/// Fill one triangle, bottom to top, by horizontal scanlines.
fn fill_triangle<C: Canvas>(c: &mut C, vb: Point, vm: Point, vt: Point)
    requires
        pt_in_range(vb),
        pt_in_range(vm),
        pt_in_range(vt),
        vb.y <= vm.y <= vt.y,
    ensures
        final(c).events() == old(c).events() + tri_fill_events(old(c).fg(), vb, vm, vt),
        final(c).fg() == old(c).fg(),
        final(c).bg() == old(c).bg(),
        final(c).dim_w() == old(c).dim_w(),
        final(c).dim_h() == old(c).dim_h(),
{
    let ghost fgc = old(c).fg();
    let ghost total = old(c).events() + tri_fill_events(fgc, vb, vm, vt);
    let mut x0: i64 = vb.x;
    let mut z0: i64 = vb.z;
    let mut x1: i64;
    let mut z1: i64;
    let ymid: i64;
    let dvx: i64;
    let dvz: i64;
    let dbx: i64;
    let dbz: i64;
    let dtx: i64;
    let dtz: i64;
    if vm.y - vb.y <= 1000 {
        let div0: i64 = vt.y - vb.y + 1000;
        let div1: i64 = vt.y - vm.y + 1000;
        dvx = fx_div(vt.x - vb.x, div0);
        dvz = fx_div(vt.z - vb.z, div0);
        dbx = 0;
        dbz = 0;
        dtx = fx_div(vt.x - vm.x, div1);
        dtz = fx_div(vt.z - vm.z, div1);
        x1 = vm.x;
        z1 = vm.z;
        ymid = vb.y;
        proof {
            crate::fx::lemma_fx_div_le(vt.x - vb.x, div0 as int);
            crate::fx::lemma_fx_div_le(vt.z - vb.z, div0 as int);
            crate::fx::lemma_fx_div_le(vt.x - vm.x, div1 as int);
            crate::fx::lemma_fx_div_le(vt.z - vm.z, div1 as int);
        }
    } else if vt.y - vm.y <= 1000 {
        let div0: i64 = vt.y - vb.y + 1000;
        let div1: i64 = vm.y - vb.y + 1000;
        dvx = fx_div(vt.x - vb.x, div0);
        dvz = fx_div(vt.z - vb.z, div0);
        dbx = 0;
        dbz = 0;
        dtx = fx_div(vm.x - vb.x, div1);
        dtz = fx_div(vm.z - vb.z, div1);
        x1 = vb.x;
        z1 = vb.z;
        ymid = vb.y;
        proof {
            crate::fx::lemma_fx_div_le(vt.x - vb.x, div0 as int);
            crate::fx::lemma_fx_div_le(vt.z - vb.z, div0 as int);
            crate::fx::lemma_fx_div_le(vm.x - vb.x, div1 as int);
            crate::fx::lemma_fx_div_le(vm.z - vb.z, div1 as int);
        }
    } else {
        let divv: i64 = vt.y - vb.y + 1000;
        let divb: i64 = vm.y - vb.y + 1000;
        let divt: i64 = vt.y - vm.y + 1000;
        dvx = fx_div(vt.x - vb.x, divv);
        dvz = fx_div(vt.z - vb.z, divv);
        dbx = fx_div(vm.x - vb.x, divb);
        dbz = fx_div(vm.z - vb.z, divb);
        dtx = fx_div(vt.x - vm.x, divt);
        dtz = fx_div(vt.z - vm.z, divt);
        x1 = vb.x;
        z1 = vb.z;
        ymid = vm.y;
        proof {
            crate::fx::lemma_fx_div_le(vt.x - vb.x, divv as int);
            crate::fx::lemma_fx_div_le(vt.z - vb.z, divv as int);
            crate::fx::lemma_fx_div_le(vm.x - vb.x, divb as int);
            crate::fx::lemma_fx_div_le(vm.z - vb.z, divb as int);
            crate::fx::lemma_fx_div_le(vt.x - vm.x, divt as int);
            crate::fx::lemma_fx_div_le(vt.z - vm.z, divt as int);
        }
    }
    let ytop: i64 = vt.y;
    let mut y: i64 = vb.y;
    proof {
        assert(c.events() + fill2_run(
            fgc,
            x0 as int,
            z0 as int,
            x1 as int,
            z1 as int,
            y as int,
            ymid as int,
            ytop as int,
            dvx as int,
            dvz as int,
            dbx as int,
            dbz as int,
            dtx as int,
            dtz as int,
        ) == total);
    }
    while y < ytop
        invariant
            c.fg() == fgc,
            c.bg() == old(c).bg(),
            c.dim_w() == old(c).dim_w(),
            c.dim_h() == old(c).dim_h(),
            pt_in_range(vb),
            pt_in_range(vt),
            ytop == vt.y,
            vb.y <= y <= ytop + 1000,
            vb.y <= ymid,
            sabs(dvx as int) <= 8_000_000_000,
            sabs(dvz as int) <= 8_000_000_000,
            sabs(dbx as int) <= 8_000_000_000,
            sabs(dbz as int) <= 8_000_000_000,
            sabs(dtx as int) <= 8_000_000_000,
            sabs(dtz as int) <= 8_000_000_000,
            sabs(x0 as int) <= COORD_LIM as int + (y - vb.y) * 8_000_001,
            sabs(z0 as int) <= COORD_LIM as int + (y - vb.y) * 8_000_001,
            sabs(x1 as int) <= COORD_LIM as int + (y - vb.y) * 8_000_001,
            sabs(z1 as int) <= COORD_LIM as int + (y - vb.y) * 8_000_001,
            c.events() + fill2_run(
                fgc,
                x0 as int,
                z0 as int,
                x1 as int,
                z1 as int,
                y as int,
                ymid as int,
                ytop as int,
                dvx as int,
                dvz as int,
                dbx as int,
                dbz as int,
                dtx as int,
                dtz as int,
            ) == total,
        decreases ytop + 1000 - y,
    {
        let ghost done_old = c.events();
        let ghost rem_old = fill2_run(
            fgc,
            x0 as int,
            z0 as int,
            x1 as int,
            z1 as int,
            y as int,
            ymid as int,
            ytop as int,
            dvx as int,
            dvz as int,
            dbx as int,
            dbz as int,
            dtx as int,
            dtz as int,
        );
        let pa = Point { x: x0, y, z: z0 };
        let pb = Point { x: x1, y, z: z1 };
        draw_scanline(c, pa, pb);
        let ghost chunk = scanline_events(fgc, pa, pb);
        x0 = x0 + dvx;
        z0 = z0 + dvz;
        if y < ymid {
            x1 = x1 + dbx;
            z1 = z1 + dbz;
        } else {
            x1 = x1 + dtx;
            z1 = z1 + dtz;
        }
        proof {
            let rem_new = fill2_run(
                fgc,
                x0 as int,
                z0 as int,
                x1 as int,
                z1 as int,
                y as int + 1000,
                ymid as int,
                ytop as int,
                dvx as int,
                dvz as int,
                dbx as int,
                dbz as int,
                dtx as int,
                dtz as int,
            );
            assert(pa == mk_pt(pa.x as int, pa.y as int, pa.z as int));
            assert(pb == mk_pt(pb.x as int, pb.y as int, pb.z as int));
            lemma_run_chunk(done_old, c.events(), rem_old, rem_new, total, chunk);
        }
        y = y + 1000;
    }
    proof {
        lemma_run_finish(
            c.events(),
            fill2_run(
                fgc,
                x0 as int,
                z0 as int,
                x1 as int,
                z1 as int,
                y as int,
                ymid as int,
                ytop as int,
                dvx as int,
                dvz as int,
                dbx as int,
                dbz as int,
                dtx as int,
                dtz as int,
            ),
            total,
        );
    }
}

/// Relies on rand::thread_rng and rand::Rng::gen_range: each channel is
/// drawn from [0, 255), so nothing more is known of the color than its
/// channel bounds.
#[verifier::external_body]
fn random_fill_color() -> (c: Rgb)
    ensures
        c.r < 255,
        c.g < 255,
        c.b < 255,
{
    let mut rng = rand::thread_rng();
    let r: u8 = rng.gen_range(0..255);
    let g: u8 = rng.gen_range(0..255);
    let b: u8 = rng.gen_range(0..255);
    Rgb { r, g, b }
}

/// Render a polygon matrix: points taken three at a time as triangles.
/// Each triangle facing away from the viewer (normal z component at most
/// zero) is discarded whole; a surviving one gets its boundary drawn in
/// white and its interior filled in a fresh random color by scanlines.
/// The foreground color in use before the call is restored afterward. A
/// trailing incomplete triple is a fatal input error, reported after the
/// complete triples are rendered.
#[verifier::rlimit(60)]
pub fn render_polygon_matrix<C: Canvas>(c: &mut C, m: &GeometryMatrix) -> (res: Result<
    (),
    GfxError,
>)
    requires
        m.mode == MatMode::Polygon,
        gm_in_range(*m),
    ensures
        exists|out: Seq<PlotEvent>|
            final(c).events() == old(c).events() + out && polygon_render_rel(m.pts@, out),
        final(c).fg() == old(c).fg(),
        final(c).bg() == old(c).bg(),
        final(c).dim_w() == old(c).dim_w(),
        final(c).dim_h() == old(c).dim_h(),
        res is Ok <==> m.pts@.len() % 3 == 0,
        res is Err ==> res == Result::<(), GfxError>::Err(GfxError::PolygonCountNotTriples),
{
    let orig_color: Rgb = c.get_fg_color();
    let n: usize = m.pts.len();
    let mut i: usize = 0;
    let ghost mut emitted = Seq::<PlotEvent>::empty();
    proof {
        assert(m.pts@.skip(0) =~= m.pts@);
        assert forall|rest: Seq<PlotEvent>|
            polygon_render_rel(m.pts@.skip(0), rest) implies polygon_render_rel(
            m.pts@,
            emitted + rest,
        ) by {
            assert(emitted + rest =~= rest);
        }
    }
    while n - i >= 3
        invariant
            c.bg() == old(c).bg(),
            c.dim_w() == old(c).dim_w(),
            c.dim_h() == old(c).dim_h(),
            orig_color == old(c).fg(),
            m.mode == MatMode::Polygon,
            gm_in_range(*m),
            n == m.pts@.len(),
            i <= n,
            c.events() == old(c).events() + emitted,
            forall|rest: Seq<PlotEvent>|
                polygon_render_rel(m.pts@.skip(i as int), rest) ==> polygon_render_rel(
                    m.pts@,
                    emitted + rest,
                ),
        decreases n - i,
    {
        let p0: Point = m.pts[i];
        let p1: Point = m.pts[i + 1];
        let p2: Point = m.pts[i + 2];
        let ax: i64 = p1.x - p0.x;
        let ay: i64 = p1.y - p0.y;
        let bx: i64 = p2.x - p0.x;
        let by: i64 = p2.y - p0.y;
        proof {
            assert(-64000000000000000000int <= ax as int * by as int
                <= 64000000000000000000int) by (nonlinear_arith)
                requires
                    sabs(ax as int) <= 8_000_000_000,
                    sabs(by as int) <= 8_000_000_000,
            ;
            assert(-64000000000000000000int <= ay as int * bx as int
                <= 64000000000000000000int) by (nonlinear_arith)
                requires
                    sabs(ay as int) <= 8_000_000_000,
                    sabs(bx as int) <= 8_000_000_000,
            ;
        }
        let nz: i128 = (ax as i128) * (by as i128) - (ay as i128) * (bx as i128);
        let ghost emitted_old = emitted;
        if nz > 0 {
            c.set_fg_color(Rgb::new(255, 255, 255));
            draw_line(c, p0, p1);
            draw_line(c, p1, p2);
            draw_line(c, p2, p0);
            let cf: Rgb = random_fill_color();
            c.set_fg_color(cf);
            let (vb, vm, vt) = sort3(p0, p1, p2);
            fill_triangle(c, vb, vm, vt);
            proof {
                emitted = emitted_old + triangle_events(cf, p0, p1, p2);
                assert(c.events() =~= old(c).events() + emitted);
                let s = m.pts@.skip(i as int);
                assert(s[0] == p0 && s[1] == p1 && s[2] == p2);
                assert(s.skip(3) =~= m.pts@.skip(i as int + 3));
                assert(normal_z_s(p0, p1, p2) > 0);
                assert forall|rest: Seq<PlotEvent>|
                    polygon_render_rel(m.pts@.skip(i as int + 3), rest) implies polygon_render_rel(
                    m.pts@,
                    emitted + rest,
                ) by {
                    assert(polygon_render_rel(s.skip(3), rest));
                    let out0 = triangle_events(cf, p0, p1, p2) + rest;
                    assert(out0 == triangle_events(cf, s[0], s[1], s[2]) + rest);
                    assert(polygon_render_rel(s, out0));
                    assert(polygon_render_rel(m.pts@, emitted_old + out0));
                    assert(emitted + rest =~= emitted_old + out0);
                }
            }
        } else {
            proof {
                let s = m.pts@.skip(i as int);
                assert(s[0] == p0 && s[1] == p1 && s[2] == p2);
                assert(s.skip(3) =~= m.pts@.skip(i as int + 3));
                assert(normal_z_s(p0, p1, p2) <= 0);
                assert forall|rest: Seq<PlotEvent>|
                    polygon_render_rel(m.pts@.skip(i as int + 3), rest) implies polygon_render_rel(
                    m.pts@,
                    emitted + rest,
                ) by {
                    assert(polygon_render_rel(s.skip(3), rest));
                    assert(polygon_render_rel(s, rest));
                }
            }
        }
        i = i + 3;
    }
    c.set_fg_color(orig_color);
    proof {
        assert(m.pts@.skip(i as int).len() < 3);
        assert(polygon_render_rel(m.pts@.skip(i as int), Seq::<PlotEvent>::empty()));
        assert(emitted + Seq::<PlotEvent>::empty() =~= emitted);
        assert(polygon_render_rel(m.pts@, emitted));
    }
    if n % 3 == 0 {
        Ok(())
    } else {
        Err(GfxError::PolygonCountNotTriples)
    }
}

/// Render an edge matrix after multiplying it by the transform stack's top;
/// the entry point ordinary callers use once a transform stack is in play.
pub fn render_edges_with_stack<C: Canvas, S: MStack>(
    c: &mut C,
    stack: &S,
    m: &GeometryMatrix,
) -> (res: Result<(), GfxError>)
    requires
        stack.mats().len() > 0,
        stack_wf(stack.mats()),
        m.mode == MatMode::Edge,
        gm_in_range(*m),
    ensures
        final(c).fg() == old(c).fg(),
        final(c).bg() == old(c).bg(),
        final(c).dim_w() == old(c).dim_w(),
        final(c).dim_h() == old(c).dim_h(),
        (forall|i: int|
            0 <= i < m.pts@.len() ==> apply_fits_s(stack.mats().last(), #[trigger] m.pts@[i]))
            ==> {
            &&& final(c).events() == old(c).events() + edge_matrix_events(
                old(c).fg(),
                transformed_pts_s(stack.mats().last(), m.pts@),
            )
            &&& (res is Ok <==> m.pts@.len() % 2 == 0)
        },
        (exists|i: int|
            0 <= i < m.pts@.len() && !apply_fits_s(stack.mats().last(), #[trigger] m.pts@[i]))
            ==> final(c).events() == old(c).events() && res == Result::<(), GfxError>::Err(
            GfxError::CoordOverflow,
        ),
{
    let top = stack.get_top();
    match m.transformed(top) {
        Some(g) => {
            let res = render_edge_matrix(c, &g);
            proof {
                assert(g.pts@ =~= transformed_pts_s(stack.mats().last(), m.pts@));
            }
            res
        },
        None => Err(GfxError::CoordOverflow),
    }
}

/// Render a polygon matrix after multiplying it by the transform stack's top.
pub fn render_polygon_with_stack<C: Canvas, S: MStack>(
    c: &mut C,
    stack: &S,
    m: &GeometryMatrix,
) -> (res: Result<(), GfxError>)
    requires
        stack.mats().len() > 0,
        stack_wf(stack.mats()),
        m.mode == MatMode::Polygon,
        gm_in_range(*m),
    ensures
        final(c).fg() == old(c).fg(),
        final(c).bg() == old(c).bg(),
        final(c).dim_w() == old(c).dim_w(),
        final(c).dim_h() == old(c).dim_h(),
        (forall|i: int|
            0 <= i < m.pts@.len() ==> apply_fits_s(stack.mats().last(), #[trigger] m.pts@[i]))
            ==> {
            &&& exists|out: Seq<PlotEvent>|
                final(c).events() == old(c).events() + out && polygon_render_rel(
                    transformed_pts_s(stack.mats().last(), m.pts@),
                    out,
                )
            &&& (res is Ok <==> m.pts@.len() % 3 == 0)
        },
        (exists|i: int|
            0 <= i < m.pts@.len() && !apply_fits_s(stack.mats().last(), #[trigger] m.pts@[i]))
            ==> final(c).events() == old(c).events() && res == Result::<(), GfxError>::Err(
            GfxError::CoordOverflow,
        ),
{
    let top = stack.get_top();
    match m.transformed(top) {
        Some(g) => {
            let res = render_polygon_matrix(c, &g);
            proof {
                assert(g.pts@ =~= transformed_pts_s(stack.mats().last(), m.pts@));
            }
            res
        },
        None => Err(GfxError::CoordOverflow),
    }
}

} // verus!
