//! Shape generators: pure functions that append homogeneous point lists to a
//! geometry matrix — box, sphere and torus triangles, circle and cubic-curve
//! edges — with mode-compatible point counts and consistent winding.
use vstd::prelude::*;

verus! {

use crate::fx::{fx_mul, fx_mul_s, sabs, sin_milli, cos_milli, sin_milli_s, cos_milli_s, COORD_LIM};
use crate::geom::{GeometryMatrix, Point, pt_in_range};
use crate::raster::GfxError;

/// Curve control values are accepted up to this bound, so that every
/// intermediate of the cubic evaluation stays representable.
pub const PARSE_LIM: i64 = 1_000_000_000;

/// A multiply by a milli-unit factor of magnitude at most one never grows
/// past its other argument.
proof fn lemma_fx_scale_le(a: int, s: int)
    requires
        -1000 <= s <= 1000,
    ensures
        sabs(fx_mul_s(a, s)) <= sabs(a),
{
    assert(sabs(a * s) <= 1000 * sabs(a)) by (nonlinear_arith)
        requires
            -1000 <= s <= 1000,
    ;
    crate::fx::lemma_tdiv_bound(a * s, 1000, sabs(a));
}

/// r scaled by a sine or cosine, staying within |r|.
fn scale_trig(r: i64, s: i64) -> (v: i64)
    requires
        sabs(r as int) <= COORD_LIM as int,
        -1000 <= s <= 1000,
    ensures
        v == fx_mul_s(r as int, s as int),
        sabs(v as int) <= sabs(r as int),
{
    proof {
        lemma_fx_scale_le(r as int, s as int);
    }
    fx_mul(r, s)
}

/// The exact point of the sphere grid at longitude step i, latitude step j:
/// the radius scaled by the grid angles' milli-sines and cosines about the
/// center.
pub open spec fn sphere_pt_s(cx: int, cy: int, cz: int, r: int, i: int, j: int) -> Point {
    let theta = 11250 * j;
    let phi = 22500 * i;
    let rst = fx_mul_s(r, sin_milli_s(theta));
    Point {
        x: (cx + fx_mul_s(r, cos_milli_s(theta))) as i64,
        y: (cy + fx_mul_s(rst, cos_milli_s(phi))) as i64,
        z: (cz + fx_mul_s(rst, sin_milli_s(phi))) as i64,
    }
}

/// The exact point of the torus grid at ring step i, tube step j.
pub open spec fn torus_pt_s(cx: int, cy: int, cz: int, r1: int, r2: int, i: int, j: int) -> Point {
    let theta = 22500 * j;
    let phi = 22500 * i;
    let ring = fx_mul_s(r1, cos_milli_s(theta)) + r2;
    Point {
        x: (cx + fx_mul_s(ring, cos_milli_s(phi))) as i64,
        y: (cy + fx_mul_s(r1, sin_milli_s(theta))) as i64,
        z: (cz - fx_mul_s(ring, sin_milli_s(phi))) as i64,
    }
}

/// The exact point of the circle at chord step i.
pub open spec fn circle_pt_s(cx: int, cy: int, cz: int, r: int, i: int) -> Point {
    let a = 5000 * i;
    Point {
        x: (cx + fx_mul_s(r, cos_milli_s(a))) as i64,
        y: (cy + fx_mul_s(r, sin_milli_s(a))) as i64,
        z: cz as i64,
    }
}

/// Cell (i, j) of a sphere's triangle list, rooted at base b in the point
/// sequence: its two triangles connect the grid points around the cell.
pub open spec fn sphere_cell_ok(
    pts: Seq<Point>,
    b: int,
    cx: int,
    cy: int,
    cz: int,
    r: int,
    i: int,
    j: int,
) -> bool {
    let c = b + 96 * i + 6 * j;
    &&& pts[c] == sphere_pt_s(cx, cy, cz, r, i, j)
    &&& pts[c + 1] == sphere_pt_s(cx, cy, cz, r, i, j + 1)
    &&& pts[c + 2] == sphere_pt_s(cx, cy, cz, r, i + 1, j + 1)
    &&& pts[c + 3] == sphere_pt_s(cx, cy, cz, r, i, j)
    &&& pts[c + 4] == sphere_pt_s(cx, cy, cz, r, i + 1, j + 1)
    &&& pts[c + 5] == sphere_pt_s(cx, cy, cz, r, i + 1, j)
}

/// Cell (i, j) of a torus's triangle list, rooted at base b.
pub open spec fn torus_cell_ok(
    pts: Seq<Point>,
    b: int,
    cx: int,
    cy: int,
    cz: int,
    r1: int,
    r2: int,
    i: int,
    j: int,
) -> bool {
    let c = b + 96 * i + 6 * j;
    &&& pts[c] == torus_pt_s(cx, cy, cz, r1, r2, i, j)
    &&& pts[c + 1] == torus_pt_s(cx, cy, cz, r1, r2, i, j + 1)
    &&& pts[c + 2] == torus_pt_s(cx, cy, cz, r1, r2, i + 1, j + 1)
    &&& pts[c + 3] == torus_pt_s(cx, cy, cz, r1, r2, i, j)
    &&& pts[c + 4] == torus_pt_s(cx, cy, cz, r1, r2, i + 1, j + 1)
    &&& pts[c + 5] == torus_pt_s(cx, cy, cz, r1, r2, i + 1, j)
}

/// Chord i of a circle's edge list, rooted at base b.
pub open spec fn circle_cell_ok(
    pts: Seq<Point>,
    b: int,
    cx: int,
    cy: int,
    cz: int,
    r: int,
    i: int,
) -> bool {
    &&& pts[b + 2 * i] == circle_pt_s(cx, cy, cz, r, i)
    &&& pts[b + 2 * i + 1] == circle_pt_s(cx, cy, cz, r, i + 1)
}

/// The exact point list of a box's twelve triangles: the eight corners of
/// the cuboid from (x, y, z) to (x + w, y - h, z - d), grouped three at a
/// time with every face wound so its normal points out of the box.
pub open spec fn box_pts_s(x: int, y: int, z: int, w: int, h: int, d: int) -> Seq<Point> {
    let a = mk_box_pt(x, y, z);
    let b = mk_box_pt(x + w, y, z);
    let c = mk_box_pt(x, y - h, z);
    let e = mk_box_pt(x + w, y - h, z);
    let f = mk_box_pt(x, y, z - d);
    let g = mk_box_pt(x + w, y, z - d);
    let h2 = mk_box_pt(x, y - h, z - d);
    let k = mk_box_pt(x + w, y - h, z - d);
    seq![
        a, c, e,
        a, e, b,
        g, k, h2,
        g, h2, f,
        f, h2, c,
        f, c, a,
        b, e, k,
        b, k, g,
        f, a, b,
        f, b, g,
        c, h2, k,
        c, k, e,
    ]
}

/// A corner point from spec-level coordinates.
pub open spec fn mk_box_pt(x: int, y: int, z: int) -> Point {
    Point { x: x as i64, y: y as i64, z: z as i64 }
}

impl GeometryMatrix {
    /// Append the twelve triangles of an axis-aligned box with top-left-front
    /// corner (x, y, z), width w along +x, height h along -y and depth d
    /// along -z: exactly the corner sequence of `box_pts_s`, wound so every
    /// face's normal points out of the box.
    pub fn add_box(&mut self, x: i64, y: i64, z: i64, w: i64, h: i64, d: i64)
        requires
            sabs(x as int) + sabs(w as int) <= COORD_LIM as int,
            sabs(y as int) + sabs(h as int) <= COORD_LIM as int,
            sabs(z as int) + sabs(d as int) <= COORD_LIM as int,
        ensures
            final(self).mode == old(self).mode,
            final(self).pts@ == old(self).pts@ + box_pts_s(
                x as int,
                y as int,
                z as int,
                w as int,
                h as int,
                d as int,
            ),
            final(self).pts@.len() == old(self).pts@.len() + 36,
            forall|i: int|
                old(self).pts@.len() <= i < final(self).pts@.len() ==> pt_in_range(
                    #[trigger] final(self).pts@[i],
                ),
            forall|i: int|
                0 <= i < old(self).pts@.len() ==> final(self).pts@[i] == #[trigger] old(
                    self,
                ).pts@[i],
    {
        let x1: i64 = x + w;
        let y1: i64 = y - h;
        let z1: i64 = z - d;
        let a = Point { x, y, z };
        let b = Point { x: x1, y, z };
        let c = Point { x, y: y1, z };
        let e = Point { x: x1, y: y1, z };
        let f = Point { x, y, z: z1 };
        let g = Point { x: x1, y, z: z1 };
        let h2 = Point { x, y: y1, z: z1 };
        let k = Point { x: x1, y: y1, z: z1 };
        self.append_polygon(a, c, e);
        self.append_polygon(a, e, b);
        self.append_polygon(g, k, h2);
        self.append_polygon(g, h2, f);
        self.append_polygon(f, h2, c);
        self.append_polygon(f, c, a);
        self.append_polygon(b, e, k);
        self.append_polygon(b, k, g);
        self.append_polygon(f, a, b);
        self.append_polygon(f, b, g);
        self.append_polygon(c, h2, k);
        self.append_polygon(c, k, e);
        proof {
            assert(self.pts@ =~= old(self).pts@ + box_pts_s(
                x as int,
                y as int,
                z as int,
                w as int,
                h as int,
                d as int,
            ));
        }
    }

    /// Append the edges of a circle of radius r about (cx, cy, cz), in the
    /// plane z == cz, as a closed chain of chords.
    pub fn add_circle(&mut self, cx: i64, cy: i64, cz: i64, r: i64)
        requires
            sabs(cx as int) + sabs(r as int) <= COORD_LIM as int,
            sabs(cy as int) + sabs(r as int) <= COORD_LIM as int,
            sabs(cz as int) <= COORD_LIM as int,
        ensures
            final(self).mode == old(self).mode,
            final(self).pts@.len() == old(self).pts@.len() + 144,
            forall|ii: int|
                0 <= ii < 72 ==> #[trigger] circle_cell_ok(
                    final(self).pts@,
                    old(self).pts@.len() as int,
                    cx as int,
                    cy as int,
                    cz as int,
                    r as int,
                    ii,
                ),
            forall|i: int|
                old(self).pts@.len() <= i < final(self).pts@.len() ==> {
                    let p = #[trigger] final(self).pts@[i];
                    &&& sabs(p.x - cx) <= sabs(r as int)
                    &&& sabs(p.y - cy) <= sabs(r as int)
                    &&& p.z == cz
                    &&& pt_in_range(p)
                },
            forall|i: int|
                0 <= i < old(self).pts@.len() ==> final(self).pts@[i] == #[trigger] old(
                    self,
                ).pts@[i],
    {
        let ghost n0 = self.pts@.len();
        let mut i: u32 = 0;
        while i < 72
            invariant
                sabs(cx as int) + sabs(r as int) <= COORD_LIM as int,
                sabs(cy as int) + sabs(r as int) <= COORD_LIM as int,
                sabs(cz as int) <= COORD_LIM as int,
                i <= 72,
                self.mode == old(self).mode,
                self.pts@.len() == n0 + 2 * i,
                n0 == old(self).pts@.len(),
                forall|ii: int|
                    0 <= ii < i as int ==> #[trigger] circle_cell_ok(
                        self.pts@,
                        n0 as int,
                        cx as int,
                        cy as int,
                        cz as int,
                        r as int,
                        ii,
                    ),
                forall|j: int|
                    n0 <= j < self.pts@.len() ==> {
                        let p = #[trigger] self.pts@[j];
                        &&& sabs(p.x - cx) <= sabs(r as int)
                        &&& sabs(p.y - cy) <= sabs(r as int)
                        &&& p.z == cz
                        &&& pt_in_range(p)
                    },
                forall|j: int|
                    0 <= j < n0 ==> self.pts@[j] == #[trigger] old(self).pts@[j],
            decreases 72 - i,
        {
            let a0: i64 = 5000 * (i as i64);
            let a1: i64 = 5000 * (i as i64) + 5000;
            let p0 = Point {
                x: cx + scale_trig(r, cos_milli(a0)),
                y: cy + scale_trig(r, sin_milli(a0)),
                z: cz,
            };
            let p1 = Point {
                x: cx + scale_trig(r, cos_milli(a1)),
                y: cy + scale_trig(r, sin_milli(a1)),
                z: cz,
            };
            let ghost prev = self.pts@;
            self.append_edge(p0, p1);
            proof {
                assert(p0 == circle_pt_s(cx as int, cy as int, cz as int, r as int, i as int));
                assert(p1 == circle_pt_s(cx as int, cy as int, cz as int, r as int, i as int + 1));
                assert(circle_cell_ok(self.pts@, n0 as int, cx as int, cy as int, cz as int,
                    r as int, i as int));
                assert forall|ii: int|
                    0 <= ii < i as int implies #[trigger] circle_cell_ok(
                    self.pts@,
                    n0 as int,
                    cx as int,
                    cy as int,
                    cz as int,
                    r as int,
                    ii,
                ) by {
                    assert(circle_cell_ok(prev, n0 as int, cx as int, cy as int, cz as int,
                        r as int, ii));
                    assert(2 * ii + 1 < 2 * i);
                }
            }
            i = i + 1;
        }
    }

    /// Append the triangles of a sphere of radius r about (cx, cy, cz):
    /// every appended point lies within r of the center on each axis.
    pub fn add_sphere(&mut self, cx: i64, cy: i64, cz: i64, r: i64)
        requires
            sabs(cx as int) + sabs(r as int) <= COORD_LIM as int,
            sabs(cy as int) + sabs(r as int) <= COORD_LIM as int,
            sabs(cz as int) + sabs(r as int) <= COORD_LIM as int,
        ensures
            final(self).mode == old(self).mode,
            final(self).pts@.len() == old(self).pts@.len() + 1536,
            (final(self).pts@.len() - old(self).pts@.len()) % 3 == 0,
            forall|ii: int, jj: int|
                0 <= ii < 16 && 0 <= jj < 16 ==> #[trigger] sphere_cell_ok(
                    final(self).pts@,
                    old(self).pts@.len() as int,
                    cx as int,
                    cy as int,
                    cz as int,
                    r as int,
                    ii,
                    jj,
                ),
            forall|i: int|
                old(self).pts@.len() <= i < final(self).pts@.len() ==> {
                    let p = #[trigger] final(self).pts@[i];
                    &&& sabs(p.x - cx) <= sabs(r as int)
                    &&& sabs(p.y - cy) <= sabs(r as int)
                    &&& sabs(p.z - cz) <= sabs(r as int)
                    &&& pt_in_range(p)
                },
            forall|i: int|
                0 <= i < old(self).pts@.len() ==> final(self).pts@[i] == #[trigger] old(
                    self,
                ).pts@[i],
    {
        let ghost n0 = self.pts@.len();
        let mut i: u32 = 0;
        while i < 16
            invariant
                sabs(cx as int) + sabs(r as int) <= COORD_LIM as int,
                sabs(cy as int) + sabs(r as int) <= COORD_LIM as int,
                sabs(cz as int) + sabs(r as int) <= COORD_LIM as int,
                i <= 16,
                self.mode == old(self).mode,
                self.pts@.len() == n0 + 96 * i,
                n0 == old(self).pts@.len(),
                forall|ii: int, jj: int|
                    0 <= ii < i as int && 0 <= jj < 16 ==> #[trigger] sphere_cell_ok(
                        self.pts@,
                        n0 as int,
                        cx as int,
                        cy as int,
                        cz as int,
                        r as int,
                        ii,
                        jj,
                    ),
                forall|j: int|
                    n0 <= j < self.pts@.len() ==> {
                        let p = #[trigger] self.pts@[j];
                        &&& sabs(p.x - cx) <= sabs(r as int)
                        &&& sabs(p.y - cy) <= sabs(r as int)
                        &&& sabs(p.z - cz) <= sabs(r as int)
                        &&& pt_in_range(p)
                    },
                forall|j: int|
                    0 <= j < n0 ==> self.pts@[j] == #[trigger] old(self).pts@[j],
            decreases 16 - i,
        {
            let mut j: u32 = 0;
            while j < 16
                invariant
                    sabs(cx as int) + sabs(r as int) <= COORD_LIM as int,
                    sabs(cy as int) + sabs(r as int) <= COORD_LIM as int,
                    sabs(cz as int) + sabs(r as int) <= COORD_LIM as int,
                    i < 16,
                    j <= 16,
                    self.mode == old(self).mode,
                    self.pts@.len() == n0 + 96 * i + 6 * j,
                    n0 == old(self).pts@.len(),
                    forall|ii: int, jj: int|
                        (0 <= ii < i as int && 0 <= jj < 16) || (ii == i as int && 0 <= jj
                            < j as int) ==> #[trigger] sphere_cell_ok(
                            self.pts@,
                            n0 as int,
                            cx as int,
                            cy as int,
                            cz as int,
                            r as int,
                            ii,
                            jj,
                        ),
                    forall|k: int|
                        n0 <= k < self.pts@.len() ==> {
                            let p = #[trigger] self.pts@[k];
                            &&& sabs(p.x - cx) <= sabs(r as int)
                            &&& sabs(p.y - cy) <= sabs(r as int)
                            &&& sabs(p.z - cz) <= sabs(r as int)
                            &&& pt_in_range(p)
                        },
                    forall|k: int|
                        0 <= k < n0 ==> self.pts@[k] == #[trigger] old(self).pts@[k],
                decreases 16 - j,
            {
                let p00 = sphere_point(cx, cy, cz, r, i, j);
                let p01 = sphere_point(cx, cy, cz, r, i, j + 1);
                let p11 = sphere_point(cx, cy, cz, r, i + 1, j + 1);
                let p10 = sphere_point(cx, cy, cz, r, i + 1, j);
                let ghost prev = self.pts@;
                self.append_polygon(p00, p01, p11);
                self.append_polygon(p00, p11, p10);
                proof {
                    assert(sphere_cell_ok(self.pts@, n0 as int, cx as int, cy as int, cz as int,
                        r as int, i as int, j as int));
                    assert forall|ii: int, jj: int|
                        (0 <= ii < i as int && 0 <= jj < 16) || (ii == i as int && 0 <= jj
                            < j as int) implies #[trigger] sphere_cell_ok(
                        self.pts@,
                        n0 as int,
                        cx as int,
                        cy as int,
                        cz as int,
                        r as int,
                        ii,
                        jj,
                    ) by {
                        assert(sphere_cell_ok(prev, n0 as int, cx as int, cy as int, cz as int,
                            r as int, ii, jj));
                        assert(96 * ii + 6 * jj + 5 < 96 * i + 6 * j);
                    }
                }
                j = j + 1;
            }
            i = i + 1;
        }
    }

    /// Append the triangles of a torus about (cx, cy, cz): tube radius r1
    /// around a ring of radius r2; every appended point lies within
    /// r1 + r2 of the center on each axis.
    pub fn add_torus(&mut self, cx: i64, cy: i64, cz: i64, r1: i64, r2: i64)
        requires
            sabs(cx as int) + sabs(r1 as int) + sabs(r2 as int) <= COORD_LIM as int,
            sabs(cy as int) + sabs(r1 as int) + sabs(r2 as int) <= COORD_LIM as int,
            sabs(cz as int) + sabs(r1 as int) + sabs(r2 as int) <= COORD_LIM as int,
        ensures
            final(self).mode == old(self).mode,
            final(self).pts@.len() == old(self).pts@.len() + 1536,
            forall|ii: int, jj: int|
                0 <= ii < 16 && 0 <= jj < 16 ==> #[trigger] torus_cell_ok(
                    final(self).pts@,
                    old(self).pts@.len() as int,
                    cx as int,
                    cy as int,
                    cz as int,
                    r1 as int,
                    r2 as int,
                    ii,
                    jj,
                ),
            forall|i: int|
                old(self).pts@.len() <= i < final(self).pts@.len() ==> {
                    let p = #[trigger] final(self).pts@[i];
                    &&& sabs(p.x - cx) <= sabs(r1 as int) + sabs(r2 as int)
                    &&& sabs(p.y - cy) <= sabs(r1 as int) + sabs(r2 as int)
                    &&& sabs(p.z - cz) <= sabs(r1 as int) + sabs(r2 as int)
                    &&& pt_in_range(p)
                },
            forall|i: int|
                0 <= i < old(self).pts@.len() ==> final(self).pts@[i] == #[trigger] old(
                    self,
                ).pts@[i],
    {
        let ghost n0 = self.pts@.len();
        let mut i: u32 = 0;
        while i < 16
            invariant
                sabs(cx as int) + sabs(r1 as int) + sabs(r2 as int) <= COORD_LIM as int,
                sabs(cy as int) + sabs(r1 as int) + sabs(r2 as int) <= COORD_LIM as int,
                sabs(cz as int) + sabs(r1 as int) + sabs(r2 as int) <= COORD_LIM as int,
                i <= 16,
                self.mode == old(self).mode,
                self.pts@.len() == n0 + 96 * i,
                n0 == old(self).pts@.len(),
                forall|ii: int, jj: int|
                    0 <= ii < i as int && 0 <= jj < 16 ==> #[trigger] torus_cell_ok(
                        self.pts@,
                        n0 as int,
                        cx as int,
                        cy as int,
                        cz as int,
                        r1 as int,
                        r2 as int,
                        ii,
                        jj,
                    ),
                forall|j: int|
                    n0 <= j < self.pts@.len() ==> {
                        let p = #[trigger] self.pts@[j];
                        &&& sabs(p.x - cx) <= sabs(r1 as int) + sabs(r2 as int)
                        &&& sabs(p.y - cy) <= sabs(r1 as int) + sabs(r2 as int)
                        &&& sabs(p.z - cz) <= sabs(r1 as int) + sabs(r2 as int)
                        &&& pt_in_range(p)
                    },
                forall|j: int|
                    0 <= j < n0 ==> self.pts@[j] == #[trigger] old(self).pts@[j],
            decreases 16 - i,
        {
            let mut j: u32 = 0;
            while j < 16
                invariant
                    sabs(cx as int) + sabs(r1 as int) + sabs(r2 as int) <= COORD_LIM as int,
                    sabs(cy as int) + sabs(r1 as int) + sabs(r2 as int) <= COORD_LIM as int,
                    sabs(cz as int) + sabs(r1 as int) + sabs(r2 as int) <= COORD_LIM as int,
                    i < 16,
                    j <= 16,
                    self.mode == old(self).mode,
                    self.pts@.len() == n0 + 96 * i + 6 * j,
                    n0 == old(self).pts@.len(),
                    forall|ii: int, jj: int|
                        (0 <= ii < i as int && 0 <= jj < 16) || (ii == i as int && 0 <= jj
                            < j as int) ==> #[trigger] torus_cell_ok(
                            self.pts@,
                            n0 as int,
                            cx as int,
                            cy as int,
                            cz as int,
                            r1 as int,
                            r2 as int,
                            ii,
                            jj,
                        ),
                    forall|k: int|
                        n0 <= k < self.pts@.len() ==> {
                            let p = #[trigger] self.pts@[k];
                            &&& sabs(p.x - cx) <= sabs(r1 as int) + sabs(r2 as int)
                            &&& sabs(p.y - cy) <= sabs(r1 as int) + sabs(r2 as int)
                            &&& sabs(p.z - cz) <= sabs(r1 as int) + sabs(r2 as int)
                            &&& pt_in_range(p)
                        },
                    forall|k: int|
                        0 <= k < n0 ==> self.pts@[k] == #[trigger] old(self).pts@[k],
                decreases 16 - j,
            {
                let p00 = torus_point(cx, cy, cz, r1, r2, i, j);
                let p01 = torus_point(cx, cy, cz, r1, r2, i, j + 1);
                let p11 = torus_point(cx, cy, cz, r1, r2, i + 1, j + 1);
                let p10 = torus_point(cx, cy, cz, r1, r2, i + 1, j);
                let ghost prev = self.pts@;
                self.append_polygon(p00, p01, p11);
                self.append_polygon(p00, p11, p10);
                proof {
                    assert(torus_cell_ok(self.pts@, n0 as int, cx as int, cy as int, cz as int,
                        r1 as int, r2 as int, i as int, j as int));
                    assert forall|ii: int, jj: int|
                        (0 <= ii < i as int && 0 <= jj < 16) || (ii == i as int && 0 <= jj
                            < j as int) implies #[trigger] torus_cell_ok(
                        self.pts@,
                        n0 as int,
                        cx as int,
                        cy as int,
                        cz as int,
                        r1 as int,
                        r2 as int,
                        ii,
                        jj,
                    ) by {
                        assert(torus_cell_ok(prev, n0 as int, cx as int, cy as int, cz as int,
                            r1 as int, r2 as int, ii, jj));
                        assert(96 * ii + 6 * jj + 5 < 96 * i + 6 * j);
                    }
                }
                j = j + 1;
            }
            i = i + 1;
        }
    }
}

/// One point of the sphere grid: latitude step j on the semicircle rotated
/// by longitude step i.
fn sphere_point(cx: i64, cy: i64, cz: i64, r: i64, i: u32, j: u32) -> (p: Point)
    requires
        sabs(cx as int) + sabs(r as int) <= COORD_LIM as int,
        sabs(cy as int) + sabs(r as int) <= COORD_LIM as int,
        sabs(cz as int) + sabs(r as int) <= COORD_LIM as int,
        i <= 16,
        j <= 16,
    ensures
        p == sphere_pt_s(cx as int, cy as int, cz as int, r as int, i as int, j as int),
        sabs(p.x - cx) <= sabs(r as int),
        sabs(p.y - cy) <= sabs(r as int),
        sabs(p.z - cz) <= sabs(r as int),
        pt_in_range(p),
{
    let theta: i64 = 11250 * (j as i64);
    let phi: i64 = 22500 * (i as i64);
    let ct: i64 = cos_milli(theta);
    let st: i64 = sin_milli(theta);
    let cp: i64 = cos_milli(phi);
    let sp: i64 = sin_milli(phi);
    let rst: i64 = scale_trig(r, st);
    Point {
        x: cx + scale_trig(r, ct),
        y: cy + scale_trig(rst, cp),
        z: cz + scale_trig(rst, sp),
    }
}

/// One point of the torus grid: tube angle step j on the circle swept at
/// ring angle step i.
fn torus_point(cx: i64, cy: i64, cz: i64, r1: i64, r2: i64, i: u32, j: u32) -> (p: Point)
    requires
        sabs(cx as int) + sabs(r1 as int) + sabs(r2 as int) <= COORD_LIM as int,
        sabs(cy as int) + sabs(r1 as int) + sabs(r2 as int) <= COORD_LIM as int,
        sabs(cz as int) + sabs(r1 as int) + sabs(r2 as int) <= COORD_LIM as int,
        i <= 16,
        j <= 16,
    ensures
        p == torus_pt_s(cx as int, cy as int, cz as int, r1 as int, r2 as int, i as int, j as int),
        sabs(p.x - cx) <= sabs(r1 as int) + sabs(r2 as int),
        sabs(p.y - cy) <= sabs(r1 as int) + sabs(r2 as int),
        sabs(p.z - cz) <= sabs(r1 as int) + sabs(r2 as int),
        pt_in_range(p),
{
    let theta: i64 = 22500 * (j as i64);
    let phi: i64 = 22500 * (i as i64);
    let ct: i64 = cos_milli(theta);
    let st: i64 = sin_milli(theta);
    let cp: i64 = cos_milli(phi);
    let sp: i64 = sin_milli(phi);
    let ring: i64 = scale_trig(r1, ct) + r2;
    proof {
        assert(sabs(ring as int) <= sabs(r1 as int) + sabs(r2 as int));
    }
    let rx: i64 = scale_trig2(ring, cp, r1, r2);
    let rz: i64 = scale_trig2(ring, sp, r1, r2);
    Point { x: cx + rx, y: cy + scale_trig(r1, st), z: cz - rz }
}

/// As scale_trig, for a value bounded by a sum of two radii.
fn scale_trig2(a: i64, s: i64, r1: i64, r2: i64) -> (v: i64)
    requires
        sabs(a as int) <= sabs(r1 as int) + sabs(r2 as int),
        sabs(r1 as int) + sabs(r2 as int) <= COORD_LIM as int,
        -1000 <= s <= 1000,
    ensures
        v == fx_mul_s(a as int, s as int),
        sabs(v as int) <= sabs(r1 as int) + sabs(r2 as int),
{
    proof {
        lemma_fx_scale_le(a as int, s as int);
    }
    fx_mul(a, s)
}

/// Horner evaluation of a cubic with fixed-point coefficients at a
/// parameter t in milli-units: ((a t + b) t + c) t + d.
pub open spec fn horner3_s(a: int, b: int, c: int, d: int, t: int) -> int {
    fx_mul_s(fx_mul_s(fx_mul_s(a, t) + b, t) + c, t) + d
}

/// Evaluate a cubic at t in [0, 1] given in milli-units.
fn horner3(a: i64, b: i64, c: i64, d: i64, t: i64) -> (v: i64)
    requires
        sabs(a as int) <= 16_000_000_000,
        sabs(b as int) <= 16_000_000_000,
        sabs(c as int) <= 16_000_000_000,
        sabs(d as int) <= 16_000_000_000,
        0 <= t <= 1000,
    ensures
        v == horner3_s(a as int, b as int, c as int, d as int, t as int),
        sabs(v as int) <= 64_000_000_000,
{
    proof {
        lemma_fx_scale_le(a as int, t as int);
    }
    let acc1: i64 = fx_mul(a, t) + b;
    proof {
        lemma_fx_scale_le(acc1 as int, t as int);
    }
    let acc2: i64 = fx_mul(acc1, t) + c;
    proof {
        lemma_fx_scale_le(acc2 as int, t as int);
    }
    fx_mul(acc2, t) + d
}

/// The point of a parametric cubic at step k of 50, on the z == 0 plane.
pub open spec fn cubic_pt_s(
    ax: int,
    bx: int,
    cx: int,
    dx: int,
    ay: int,
    by: int,
    cy: int,
    dy: int,
    k: int,
) -> Point {
    Point {
        x: horner3_s(ax, bx, cx, dx, 20 * k) as i64,
        y: horner3_s(ay, by, cy, dy, 20 * k) as i64,
        z: 0,
    }
}

/// Whether the cubic's point at step k stays within the coordinate range.
pub open spec fn cubic_pt_ok_s(
    ax: int,
    bx: int,
    cx: int,
    dx: int,
    ay: int,
    by: int,
    cy: int,
    dy: int,
    k: int,
) -> bool {
    &&& sabs(horner3_s(ax, bx, cx, dx, 20 * k)) <= COORD_LIM as int
    &&& sabs(horner3_s(ay, by, cy, dy, 20 * k)) <= COORD_LIM as int
}

/// The 51 points of a parametric cubic sampled at fiftieths of its
/// parameter; None when a sample leaves the coordinate range.
fn cubic_points(
    ax: i64,
    bx: i64,
    cx: i64,
    dx: i64,
    ay: i64,
    by: i64,
    cy: i64,
    dy: i64,
) -> (r: Option<Vec<Point>>)
    requires
        sabs(ax as int) <= 16_000_000_000,
        sabs(bx as int) <= 16_000_000_000,
        sabs(cx as int) <= 16_000_000_000,
        sabs(dx as int) <= 16_000_000_000,
        sabs(ay as int) <= 16_000_000_000,
        sabs(by as int) <= 16_000_000_000,
        sabs(cy as int) <= 16_000_000_000,
        sabs(dy as int) <= 16_000_000_000,
    ensures
        match r {
            Some(v) => {
                &&& v@.len() == 51
                &&& forall|k: int|
                    0 <= k < 51 ==> #[trigger] v@[k] == cubic_pt_s(
                        ax as int,
                        bx as int,
                        cx as int,
                        dx as int,
                        ay as int,
                        by as int,
                        cy as int,
                        dy as int,
                        k,
                    ) && cubic_pt_ok_s(
                        ax as int,
                        bx as int,
                        cx as int,
                        dx as int,
                        ay as int,
                        by as int,
                        cy as int,
                        dy as int,
                        k,
                    ) && pt_in_range(v@[k])
            },
            None => exists|k: int|
                0 <= k < 51 && !cubic_pt_ok_s(
                    ax as int,
                    bx as int,
                    cx as int,
                    dx as int,
                    ay as int,
                    by as int,
                    cy as int,
                    dy as int,
                    k,
                ),
        },
{
    let mut v: Vec<Point> = Vec::new();
    let mut k: i64 = 0;
    while k <= 50
        invariant
            sabs(ax as int) <= 16_000_000_000,
            sabs(bx as int) <= 16_000_000_000,
            sabs(cx as int) <= 16_000_000_000,
            sabs(dx as int) <= 16_000_000_000,
            sabs(ay as int) <= 16_000_000_000,
            sabs(by as int) <= 16_000_000_000,
            sabs(cy as int) <= 16_000_000_000,
            sabs(dy as int) <= 16_000_000_000,
            0 <= k <= 51,
            v@.len() == k,
            forall|j: int|
                0 <= j < k as int ==> #[trigger] v@[j] == cubic_pt_s(
                    ax as int,
                    bx as int,
                    cx as int,
                    dx as int,
                    ay as int,
                    by as int,
                    cy as int,
                    dy as int,
                    j,
                ) && cubic_pt_ok_s(
                    ax as int,
                    bx as int,
                    cx as int,
                    dx as int,
                    ay as int,
                    by as int,
                    cy as int,
                    dy as int,
                    j,
                ) && pt_in_range(v@[j]),
        decreases 51 - k,
    {
        let t: i64 = 20 * k;
        let px: i64 = horner3(ax, bx, cx, dx, t);
        let py: i64 = horner3(ay, by, cy, dy, t);
        if px < -COORD_LIM || px > COORD_LIM || py < -COORD_LIM || py > COORD_LIM {
            proof {
                assert(!cubic_pt_ok_s(
                    ax as int,
                    bx as int,
                    cx as int,
                    dx as int,
                    ay as int,
                    by as int,
                    cy as int,
                    dy as int,
                    k as int,
                ));
            }
            return None;
        }
        v.push(Point { x: px, y: py, z: 0 });
        proof {
            assert(v@[k as int] == cubic_pt_s(
                ax as int,
                bx as int,
                cx as int,
                dx as int,
                ay as int,
                by as int,
                cy as int,
                dy as int,
                k as int,
            ));
            assert(cubic_pt_ok_s(
                ax as int,
                bx as int,
                cx as int,
                dx as int,
                ay as int,
                by as int,
                cy as int,
                dy as int,
                k as int,
            ));
            assert(pt_in_range(v@[k as int]));
        }
        k = k + 1;
    }
    Some(v)
}

impl GeometryMatrix {
    /// Append the chord edges of a cubic sampled at fiftieths; shared by the
    /// curve generators once their coefficients are computed.
    fn append_cubic(
        &mut self,
        ax: i64,
        bx: i64,
        cx: i64,
        dx: i64,
        ay: i64,
        by: i64,
        cy: i64,
        dy: i64,
    ) -> (r: Result<(), GfxError>)
        requires
            sabs(ax as int) <= 16_000_000_000,
            sabs(bx as int) <= 16_000_000_000,
            sabs(cx as int) <= 16_000_000_000,
            sabs(dx as int) <= 16_000_000_000,
            sabs(ay as int) <= 16_000_000_000,
            sabs(by as int) <= 16_000_000_000,
            sabs(cy as int) <= 16_000_000_000,
            sabs(dy as int) <= 16_000_000_000,
        ensures
            final(self).mode == old(self).mode,
            forall|i: int|
                0 <= i < old(self).pts@.len() ==> final(self).pts@[i] == #[trigger] old(
                    self,
                ).pts@[i],
            match r {
                Ok(()) => {
                    &&& final(self).pts@.len() == old(self).pts@.len() + 100
                    &&& forall|k: int|
                        0 <= k < 50 ==> #[trigger] final(self).pts@[old(self).pts@.len() + 2 * k]
                            == cubic_pt_s(
                            ax as int,
                            bx as int,
                            cx as int,
                            dx as int,
                            ay as int,
                            by as int,
                            cy as int,
                            dy as int,
                            k,
                        ) && final(self).pts@[old(self).pts@.len() + 2 * k + 1] == cubic_pt_s(
                            ax as int,
                            bx as int,
                            cx as int,
                            dx as int,
                            ay as int,
                            by as int,
                            cy as int,
                            dy as int,
                            k + 1,
                        )
                    &&& forall|i: int|
                        old(self).pts@.len() <= i < final(self).pts@.len() ==> pt_in_range(
                            #[trigger] final(self).pts@[i],
                        )
                },
                Err(e) => {
                    &&& e == GfxError::CoordOverflow
                    &&& final(self).pts@ == old(self).pts@
                    &&& exists|k: int|
                        0 <= k < 51 && !cubic_pt_ok_s(
                            ax as int,
                            bx as int,
                            cx as int,
                            dx as int,
                            ay as int,
                            by as int,
                            cy as int,
                            dy as int,
                            k,
                        )
                },
            },
    {
        let pts = match cubic_points(ax, bx, cx, dx, ay, by, cy, dy) {
            Some(v) => v,
            None => {
                return Err(GfxError::CoordOverflow);
            },
        };
        let ghost n0 = self.pts@.len();
        let mut k: usize = 0;
        while k < 50
            invariant
                0 <= k <= 50,
                pts@.len() == 51,
                self.mode == old(self).mode,
                self.pts@.len() == n0 + 2 * k,
                n0 == old(self).pts@.len(),
                forall|j: int|
                    0 <= j < 51 ==> #[trigger] pts@[j] == cubic_pt_s(
                        ax as int,
                        bx as int,
                        cx as int,
                        dx as int,
                        ay as int,
                        by as int,
                        cy as int,
                        dy as int,
                        j,
                    ) && pt_in_range(pts@[j]),
                forall|j: int|
                    0 <= j < n0 ==> self.pts@[j] == #[trigger] old(self).pts@[j],
                forall|j: int|
                    0 <= j < k as int ==> #[trigger] self.pts@[n0 + 2 * j] == pts@[j]
                        && self.pts@[n0 + 2 * j + 1] == pts@[j + 1],
            decreases 50 - k,
        {
            let ghost prev = self.pts@;
            self.append_edge(pts[k], pts[k + 1]);
            proof {
                assert(self.pts@ == prev.push(pts@[k as int]).push(pts@[k as int + 1]));
                assert forall|j: int|
                    0 <= j < k as int + 1 implies #[trigger] self.pts@[n0 + 2 * j] == pts@[j]
                    && self.pts@[n0 + 2 * j + 1] == pts@[j + 1] by {
                    if j < k as int {
                        assert(prev[n0 + 2 * j] == pts@[j]);
                        assert(prev[n0 + 2 * j + 1] == pts@[j + 1]);
                    }
                }
            }
            k = k + 1;
        }
        proof {
            assert forall|i: int|
                n0 <= i < self.pts@.len() implies pt_in_range(#[trigger] self.pts@[i]) by {
                let j = (i - n0) / 2;
                vstd::arithmetic::div_mod::lemma_fundamental_div_mod(i - n0, 2);
                assert(0 <= j < 50);
                if (i - n0) % 2 == 0 {
                    assert(self.pts@[n0 + 2 * j] == pts@[j]);
                } else {
                    assert(self.pts@[n0 + 2 * j] == pts@[j]);
                    assert(self.pts@[n0 + 2 * j + 1] == pts@[j + 1]);
                }
            }
        }
        Ok(())
    }

    /// Append the chords of a cubic Hermite segment through p0 to p1 with
    /// endpoint rates r0 and r1, on the z == 0 plane.
    pub fn add_hermite3(
        &mut self,
        p0: (i64, i64),
        p1: (i64, i64),
        r0: (i64, i64),
        r1: (i64, i64),
    ) -> (r: Result<(), GfxError>)
        requires
            sabs(p0.0 as int) <= PARSE_LIM as int,
            sabs(p0.1 as int) <= PARSE_LIM as int,
            sabs(p1.0 as int) <= PARSE_LIM as int,
            sabs(p1.1 as int) <= PARSE_LIM as int,
            sabs(r0.0 as int) <= PARSE_LIM as int,
            sabs(r0.1 as int) <= PARSE_LIM as int,
            sabs(r1.0 as int) <= PARSE_LIM as int,
            sabs(r1.1 as int) <= PARSE_LIM as int,
        ensures
            final(self).mode == old(self).mode,
            forall|i: int|
                0 <= i < old(self).pts@.len() ==> final(self).pts@[i] == #[trigger] old(
                    self,
                ).pts@[i],
            r is Ok ==> final(self).pts@.len() == old(self).pts@.len() + 100 && forall|k: int|
                0 <= k < 50 ==> #[trigger] final(self).pts@[old(self).pts@.len() + 2 * k]
                    == cubic_pt_s(
                    2 * p0.0 - 2 * p1.0 + r0.0 + r1.0,
                    -3 * p0.0 + 3 * p1.0 - 2 * r0.0 - r1.0,
                    r0.0 as int,
                    p0.0 as int,
                    2 * p0.1 - 2 * p1.1 + r0.1 + r1.1,
                    -3 * p0.1 + 3 * p1.1 - 2 * r0.1 - r1.1,
                    r0.1 as int,
                    p0.1 as int,
                    k,
                ) && final(self).pts@[old(self).pts@.len() + 2 * k + 1] == cubic_pt_s(
                    2 * p0.0 - 2 * p1.0 + r0.0 + r1.0,
                    -3 * p0.0 + 3 * p1.0 - 2 * r0.0 - r1.0,
                    r0.0 as int,
                    p0.0 as int,
                    2 * p0.1 - 2 * p1.1 + r0.1 + r1.1,
                    -3 * p0.1 + 3 * p1.1 - 2 * r0.1 - r1.1,
                    r0.1 as int,
                    p0.1 as int,
                    k + 1,
                ),
            r is Ok ==> forall|i: int|
                old(self).pts@.len() <= i < final(self).pts@.len() ==> pt_in_range(
                    #[trigger] final(self).pts@[i],
                ),
            r is Err ==> final(self).pts@ == old(self).pts@ && r == Result::<
                (),
                GfxError,
            >::Err(GfxError::CoordOverflow) && exists|k: int|
                0 <= k < 51 && !(#[trigger] cubic_pt_ok_s(
                    2 * p0.0 - 2 * p1.0 + r0.0 + r1.0,
                    -3 * p0.0 + 3 * p1.0 - 2 * r0.0 - r1.0,
                    r0.0 as int,
                    p0.0 as int,
                    2 * p0.1 - 2 * p1.1 + r0.1 + r1.1,
                    -3 * p0.1 + 3 * p1.1 - 2 * r0.1 - r1.1,
                    r0.1 as int,
                    p0.1 as int,
                    k,
                )),
    {
        let ax: i64 = 2 * p0.0 - 2 * p1.0 + r0.0 + r1.0;
        let bx: i64 = -3 * p0.0 + 3 * p1.0 - 2 * r0.0 - r1.0;
        let ay: i64 = 2 * p0.1 - 2 * p1.1 + r0.1 + r1.1;
        let by: i64 = -3 * p0.1 + 3 * p1.1 - 2 * r0.1 - r1.1;
        self.append_cubic(ax, bx, r0.0, p0.0, ay, by, r0.1, p0.1)
    }

    /// Append the chords of a cubic Bezier segment with control points
    /// p0 through p3, on the z == 0 plane.
    pub fn add_bezier3(
        &mut self,
        p0: (i64, i64),
        p1: (i64, i64),
        p2: (i64, i64),
        p3: (i64, i64),
    ) -> (r: Result<(), GfxError>)
        requires
            sabs(p0.0 as int) <= PARSE_LIM as int,
            sabs(p0.1 as int) <= PARSE_LIM as int,
            sabs(p1.0 as int) <= PARSE_LIM as int,
            sabs(p1.1 as int) <= PARSE_LIM as int,
            sabs(p2.0 as int) <= PARSE_LIM as int,
            sabs(p2.1 as int) <= PARSE_LIM as int,
            sabs(p3.0 as int) <= PARSE_LIM as int,
            sabs(p3.1 as int) <= PARSE_LIM as int,
        ensures
            final(self).mode == old(self).mode,
            forall|i: int|
                0 <= i < old(self).pts@.len() ==> final(self).pts@[i] == #[trigger] old(
                    self,
                ).pts@[i],
            r is Ok ==> final(self).pts@.len() == old(self).pts@.len() + 100 && forall|k: int|
                0 <= k < 50 ==> #[trigger] final(self).pts@[old(self).pts@.len() + 2 * k]
                    == cubic_pt_s(
                    -p0.0 + 3 * p1.0 - 3 * p2.0 + p3.0,
                    3 * p0.0 - 6 * p1.0 + 3 * p2.0,
                    -3 * p0.0 + 3 * p1.0,
                    p0.0 as int,
                    -p0.1 + 3 * p1.1 - 3 * p2.1 + p3.1,
                    3 * p0.1 - 6 * p1.1 + 3 * p2.1,
                    -3 * p0.1 + 3 * p1.1,
                    p0.1 as int,
                    k,
                ) && final(self).pts@[old(self).pts@.len() + 2 * k + 1] == cubic_pt_s(
                    -p0.0 + 3 * p1.0 - 3 * p2.0 + p3.0,
                    3 * p0.0 - 6 * p1.0 + 3 * p2.0,
                    -3 * p0.0 + 3 * p1.0,
                    p0.0 as int,
                    -p0.1 + 3 * p1.1 - 3 * p2.1 + p3.1,
                    3 * p0.1 - 6 * p1.1 + 3 * p2.1,
                    -3 * p0.1 + 3 * p1.1,
                    p0.1 as int,
                    k + 1,
                ),
            r is Ok ==> forall|i: int|
                old(self).pts@.len() <= i < final(self).pts@.len() ==> pt_in_range(
                    #[trigger] final(self).pts@[i],
                ),
            r is Err ==> final(self).pts@ == old(self).pts@ && r == Result::<
                (),
                GfxError,
            >::Err(GfxError::CoordOverflow) && exists|k: int|
                0 <= k < 51 && !(#[trigger] cubic_pt_ok_s(
                    -p0.0 + 3 * p1.0 - 3 * p2.0 + p3.0,
                    3 * p0.0 - 6 * p1.0 + 3 * p2.0,
                    -3 * p0.0 + 3 * p1.0,
                    p0.0 as int,
                    -p0.1 + 3 * p1.1 - 3 * p2.1 + p3.1,
                    3 * p0.1 - 6 * p1.1 + 3 * p2.1,
                    -3 * p0.1 + 3 * p1.1,
                    p0.1 as int,
                    k,
                )),
    {
        let ax: i64 = -p0.0 + 3 * p1.0 - 3 * p2.0 + p3.0;
        let bx: i64 = 3 * p0.0 - 6 * p1.0 + 3 * p2.0;
        let cx: i64 = -3 * p0.0 + 3 * p1.0;
        let ay: i64 = -p0.1 + 3 * p1.1 - 3 * p2.1 + p3.1;
        let by: i64 = 3 * p0.1 - 6 * p1.1 + 3 * p2.1;
        let cy: i64 = -3 * p0.1 + 3 * p1.1;
        self.append_cubic(ax, bx, cx, p0.0, ay, by, cy, p0.1)
    }
}

} // verus!
