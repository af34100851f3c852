//! The geometry data model: homogeneous points, the mode-tagged geometry
//! matrix (edge lists or triangle lists), and 4x4 affine transform matrices
//! over fixed-point scalars.
use vstd::prelude::*;

verus! {

use crate::fx::{tdiv, tdiv128, sabs, ONE, COORD_LIM, MAT_LIM};

/// A homogeneous point; the fourth coordinate is held at one and not stored.
#[derive(Clone, Copy, PartialEq, Eq, Structural, Debug)]
pub struct Point {
    pub x: i64,
    pub y: i64,
    pub z: i64,
}

/// All coordinates within the range the rasterizer accepts.
pub open spec fn pt_in_range(p: Point) -> bool {
    &&& sabs(p.x as int) <= COORD_LIM as int
    &&& sabs(p.y as int) <= COORD_LIM as int
    &&& sabs(p.z as int) <= COORD_LIM as int
}

/// How a geometry matrix's points are grouped when rendered.
#[derive(Clone, Copy, PartialEq, Eq, Structural, Debug)]
pub enum MatMode {
    /// Points are consumed two at a time, as independent segments.
    Edge,
    /// Points are consumed three at a time, as triangles; order is winding.
    Polygon,
}

/// An ordered sequence of points with a grouping mode.
pub struct GeometryMatrix {
    pub mode: MatMode,
    pub pts: Vec<Point>,
}

/// Every stored point is within the rasterizer's coordinate range.
pub open spec fn gm_in_range(m: GeometryMatrix) -> bool {
    forall|i: int| 0 <= i < m.pts@.len() ==> pt_in_range(#[trigger] m.pts@[i])
}

impl GeometryMatrix {
    /// An empty matrix whose points will be read as edge pairs.
    pub fn new_edge_matrix() -> (r: GeometryMatrix)
        ensures
            r.mode == MatMode::Edge,
            r.pts@.len() == 0,
    {
        GeometryMatrix { mode: MatMode::Edge, pts: Vec::new() }
    }

    /// An empty matrix whose points will be read as triangle triples.
    pub fn new_polygon_matrix() -> (r: GeometryMatrix)
        ensures
            r.mode == MatMode::Polygon,
            r.pts@.len() == 0,
    {
        GeometryMatrix { mode: MatMode::Polygon, pts: Vec::new() }
    }

    /// Append one point, regardless of grouping.
    pub fn push_point(&mut self, p: Point)
        ensures
            final(self).mode == old(self).mode,
            final(self).pts@ == old(self).pts@.push(p),
    {
        self.pts.push(p);
    }

    /// Append the two endpoints of a segment.
    pub fn append_edge(&mut self, p0: Point, p1: Point)
        ensures
            final(self).mode == old(self).mode,
            final(self).pts@ == old(self).pts@.push(p0).push(p1),
    {
        self.pts.push(p0);
        self.pts.push(p1);
    }

    /// Append the three vertices of a triangle; their order is its winding.
    pub fn append_polygon(&mut self, p0: Point, p1: Point, p2: Point)
        ensures
            final(self).mode == old(self).mode,
            final(self).pts@ == old(self).pts@.push(p0).push(p1).push(p2),
    {
        self.pts.push(p0);
        self.pts.push(p1);
        self.pts.push(p2);
    }

    /// Drop all points, keeping the mode.
    pub fn clear(&mut self)
        ensures
            final(self).mode == old(self).mode,
            final(self).pts@.len() == 0,
    {
        self.pts.clear();
    }

    /// Number of stored points.
    pub fn len(&self) -> (r: usize)
        ensures
            r == self.pts@.len(),
    {
        self.pts.len()
    }
}

/// A 4x4 transform matrix in row-major order over fixed-point entries.
#[derive(Clone, Copy, Debug)]
pub struct TransformMatrix {
    pub e: [i64; 16],
}

/// Entry of a transform matrix at row r, column c.
pub open spec fn at(m: TransformMatrix, r: int, c: int) -> int
    recommends
        0 <= r < 4,
        0 <= c < 4,
{
    m.e@[4 * r + c] as int
}

/// Well-formed transform: 16 bounded entries and an affine last row, so the
/// homogeneous coordinate of every transformed point stays at one.
pub open spec fn tm_wf(m: TransformMatrix) -> bool {
    &&& forall|i: int| 0 <= i < 16 ==> sabs(#[trigger] m.e@[i] as int) <= MAT_LIM as int
    &&& at(m, 3, 0) == 0
    &&& at(m, 3, 1) == 0
    &&& at(m, 3, 2) == 0
    &&& at(m, 3, 3) == ONE as int
}

/// The identity transform.
pub open spec fn is_ident(m: TransformMatrix) -> bool {
    &&& tm_wf(m)
    &&& forall|r: int, c: int|
        0 <= r < 4 && 0 <= c < 4 ==> #[trigger] at(m, r, c) == if r == c {
            ONE as int
        } else {
            0
        }
}

/// Entry (r, c) of the fixed-point product a * b.
pub open spec fn mm_entry_s(a: TransformMatrix, b: TransformMatrix, r: int, c: int) -> int {
    tdiv(
        at(a, r, 0) * at(b, 0, c) + at(a, r, 1) * at(b, 1, c) + at(a, r, 2) * at(b, 2, c) + at(
            a,
            r,
            3,
        ) * at(b, 3, c),
        ONE as int,
    )
}

/// Whether every entry of the product a * b stays within the entry bound.
pub open spec fn mm_fits_s(a: TransformMatrix, b: TransformMatrix) -> bool {
    forall|r: int, c: int|
        0 <= r < 4 && 0 <= c < 4 ==> sabs(#[trigger] mm_entry_s(a, b, r, c)) <= MAT_LIM as int
}

/// The x coordinate of a point taken through a transform.
pub open spec fn apply_x_s(m: TransformMatrix, p: Point) -> int {
    tdiv(at(m, 0, 0) * p.x + at(m, 0, 1) * p.y + at(m, 0, 2) * p.z + at(m, 0, 3) * ONE, ONE as int)
}

/// The y coordinate of a point taken through a transform.
pub open spec fn apply_y_s(m: TransformMatrix, p: Point) -> int {
    tdiv(at(m, 1, 0) * p.x + at(m, 1, 1) * p.y + at(m, 1, 2) * p.z + at(m, 1, 3) * ONE, ONE as int)
}

/// The z coordinate of a point taken through a transform.
pub open spec fn apply_z_s(m: TransformMatrix, p: Point) -> int {
    tdiv(at(m, 2, 0) * p.x + at(m, 2, 1) * p.y + at(m, 2, 2) * p.z + at(m, 2, 3) * ONE, ONE as int)
}

/// Whether a transformed point stays within the rasterizer's range.
pub open spec fn apply_fits_s(m: TransformMatrix, p: Point) -> bool {
    &&& sabs(apply_x_s(m, p)) <= COORD_LIM as int
    &&& sabs(apply_y_s(m, p)) <= COORD_LIM as int
    &&& sabs(apply_z_s(m, p)) <= COORD_LIM as int
}

/// Every point of a sequence taken through a transform.
pub open spec fn transformed_pts_s(t: TransformMatrix, pts: Seq<Point>) -> Seq<Point> {
    pts.map(|i: int, p: Point| apply_pt_s(t, p))
}

/// The transformed point, as a value.
pub open spec fn apply_pt_s(m: TransformMatrix, p: Point) -> Point
    recommends
        apply_fits_s(m, p),
{
    Point { x: apply_x_s(m, p) as i64, y: apply_y_s(m, p) as i64, z: apply_z_s(m, p) as i64 }
}

impl TransformMatrix {
    /// Entry at row r, column c.
    pub fn entry(&self, r: usize, c: usize) -> (v: i64)
        requires
            tm_wf(*self),
            r < 4,
            c < 4,
        ensures
            v == at(*self, r as int, c as int),
    {
        self.e[4 * r + c]
    }

    /// The identity transform.
    pub fn ident() -> (m: TransformMatrix)
        ensures
            is_ident(m),
    {
        let m = TransformMatrix {
            e: [ONE, 0, 0, 0, 0, ONE, 0, 0, 0, 0, ONE, 0, 0, 0, 0, ONE],
        };
        proof {
            assert forall|r: int, c: int| 0 <= r < 4 && 0 <= c < 4 implies #[trigger] at(m, r, c)
                == if r == c {
                ONE as int
            } else {
                0
            } by {
                assert(0 <= 4 * r + c < 16);
            }
        }
        m
    }
}

proof fn lemma_entry_product(a: i64, b: i64)
    requires
        sabs(a as int) <= MAT_LIM as int,
        sabs(b as int) <= MAT_LIM as int,
    ensures
        -0x800_0000_0000_0000_0000_0000_0000_0000int <= a as int * b as int
            <= 0x800_0000_0000_0000_0000_0000_0000_0000int,
{
    assert(-0x800_0000_0000_0000_0000_0000_0000_0000int <= a as int * b as int
        <= 0x800_0000_0000_0000_0000_0000_0000_0000int) by (nonlinear_arith)
        requires
            sabs(a as int) <= MAT_LIM as int,
            sabs(b as int) <= MAT_LIM as int,
    ;
}

/// One entry of the fixed-point matrix product, None when out of the entry bound.
fn mm_one(a: &TransformMatrix, b: &TransformMatrix, r: usize, c: usize) -> (v: Option<i64>)
    requires
        tm_wf(*a),
        tm_wf(*b),
        r < 4,
        c < 4,
    ensures
        match v {
            Some(q) => q == mm_entry_s(*a, *b, r as int, c as int) && sabs(q as int)
                <= MAT_LIM as int,
            None => sabs(mm_entry_s(*a, *b, r as int, c as int)) > MAT_LIM as int,
        },
{
    proof {
        lemma_entry_product(a.e@[4 * r as int + 0], b.e@[0 + c as int]);
        lemma_entry_product(a.e@[4 * r as int + 1], b.e@[4 + c as int]);
        lemma_entry_product(a.e@[4 * r as int + 2], b.e@[8 + c as int]);
        lemma_entry_product(a.e@[4 * r as int + 3], b.e@[12 + c as int]);
    }
    let s: i128 = (a.e[4 * r + 0] as i128) * (b.e[0 + c] as i128) + (a.e[4 * r + 1] as i128) * (
    b.e[4 + c] as i128) + (a.e[4 * r + 2] as i128) * (b.e[8 + c] as i128) + (a.e[4 * r + 3] as i128)
        * (b.e[12 + c] as i128);
    let q: i128 = tdiv128(s, 1000);
    if -MAT_LIM as i128 <= q && q <= MAT_LIM as i128 {
        Some(q as i64)
    } else {
        None
    }
}

impl TransformMatrix {
    /// Fixed-point matrix product self * other; None when an entry leaves the
    /// representable range.
    pub fn mul(&self, other: &TransformMatrix) -> (v: Option<TransformMatrix>)
        requires
            tm_wf(*self),
            tm_wf(*other),
        ensures
            match v {
                Some(m) => {
                    &&& tm_wf(m)
                    &&& mm_fits_s(*self, *other)
                    &&& forall|r: int, c: int|
                        0 <= r < 4 && 0 <= c < 4 ==> #[trigger] at(m, r, c) == mm_entry_s(
                            *self,
                            *other,
                            r,
                            c,
                        )
                },
                None => !mm_fits_s(*self, *other),
            },
    {
        let e00: i64 = match mm_one(self, other, 0, 0) {
            Some(q) => q,
            None => {
                return None;
            },
        };
        let e01: i64 = match mm_one(self, other, 0, 1) {
            Some(q) => q,
            None => {
                return None;
            },
        };
        let e02: i64 = match mm_one(self, other, 0, 2) {
            Some(q) => q,
            None => {
                return None;
            },
        };
        let e03: i64 = match mm_one(self, other, 0, 3) {
            Some(q) => q,
            None => {
                return None;
            },
        };
        let e10: i64 = match mm_one(self, other, 1, 0) {
            Some(q) => q,
            None => {
                return None;
            },
        };
        let e11: i64 = match mm_one(self, other, 1, 1) {
            Some(q) => q,
            None => {
                return None;
            },
        };
        let e12: i64 = match mm_one(self, other, 1, 2) {
            Some(q) => q,
            None => {
                return None;
            },
        };
        let e13: i64 = match mm_one(self, other, 1, 3) {
            Some(q) => q,
            None => {
                return None;
            },
        };
        let e20: i64 = match mm_one(self, other, 2, 0) {
            Some(q) => q,
            None => {
                return None;
            },
        };
        let e21: i64 = match mm_one(self, other, 2, 1) {
            Some(q) => q,
            None => {
                return None;
            },
        };
        let e22: i64 = match mm_one(self, other, 2, 2) {
            Some(q) => q,
            None => {
                return None;
            },
        };
        let e23: i64 = match mm_one(self, other, 2, 3) {
            Some(q) => q,
            None => {
                return None;
            },
        };
        let e30: i64 = match mm_one(self, other, 3, 0) {
            Some(q) => q,
            None => {
                return None;
            },
        };
        let e31: i64 = match mm_one(self, other, 3, 1) {
            Some(q) => q,
            None => {
                return None;
            },
        };
        let e32: i64 = match mm_one(self, other, 3, 2) {
            Some(q) => q,
            None => {
                return None;
            },
        };
        let e33: i64 = match mm_one(self, other, 3, 3) {
            Some(q) => q,
            None => {
                return None;
            },
        };
        let m = TransformMatrix {
            e: [e00, e01, e02, e03, e10, e11, e12, e13, e20, e21, e22, e23, e30, e31, e32, e33],
        };
        proof {
            assert forall|r: int, c: int| 0 <= r < 4 && 0 <= c < 4 implies #[trigger] at(m, r, c)
                == mm_entry_s(*self, *other, r, c) && sabs(at(m, r, c)) <= MAT_LIM as int by {
                assert(0 <= 4 * r + c < 16);
            }
            assert forall|i: int|
                0 <= i < 16 implies sabs(#[trigger] m.e@[i] as int) <= MAT_LIM as int by {
                let rr = i / 4;
                let cc = i % 4;
                vstd::arithmetic::div_mod::lemma_fundamental_div_mod(i, 4);
                assert(i == 4 * rr + cc);
                assert(sabs(at(m, rr, cc)) <= MAT_LIM as int);
            }
            assert forall|r: int, c: int| 0 <= r < 4 && 0 <= c < 4 implies sabs(
                #[trigger] mm_entry_s(*self, *other, r, c)) <= MAT_LIM as int by {
                assert(at(m, r, c) == mm_entry_s(*self, *other, r, c));
                assert(sabs(at(m, r, c)) <= MAT_LIM as int);
            }
            lemma_affine_row(*self, *other);
        }
        Some(m)
    }
}

proof fn lemma_apply_product(a: i64, b: i64)
    requires
        sabs(a as int) <= MAT_LIM as int,
        sabs(b as int) <= COORD_LIM as int,
    ensures
        -10000000000000000000000000000int <= a as int * b as int
            <= 10000000000000000000000000000int,
{
    assert(-10000000000000000000000000000int <= a as int * b as int
        <= 10000000000000000000000000000int) by (nonlinear_arith)
        requires
            sabs(a as int) <= MAT_LIM as int,
            sabs(b as int) <= COORD_LIM as int,
    ;
}

impl TransformMatrix {
    /// Take a point through this transform; None when a coordinate leaves
    /// the rasterizer's range.
    pub fn apply_point(&self, p: Point) -> (v: Option<Point>)
        requires
            tm_wf(*self),
            pt_in_range(p),
        ensures
            match v {
                Some(q) => {
                    &&& apply_fits_s(*self, p)
                    &&& q == apply_pt_s(*self, p)
                    &&& pt_in_range(q)
                },
                None => !apply_fits_s(*self, p),
            },
    {
        proof {
            lemma_apply_product(self.e@[0], p.x);
            lemma_apply_product(self.e@[1], p.y);
            lemma_apply_product(self.e@[2], p.z);
            lemma_apply_product(self.e@[3], ONE);
            lemma_apply_product(self.e@[4], p.x);
            lemma_apply_product(self.e@[5], p.y);
            lemma_apply_product(self.e@[6], p.z);
            lemma_apply_product(self.e@[7], ONE);
            lemma_apply_product(self.e@[8], p.x);
            lemma_apply_product(self.e@[9], p.y);
            lemma_apply_product(self.e@[10], p.z);
            lemma_apply_product(self.e@[11], ONE);
        }
        let sx: i128 = (self.e[0] as i128) * (p.x as i128) + (self.e[1] as i128) * (p.y as i128) + (
        self.e[2] as i128) * (p.z as i128) + (self.e[3] as i128) * (ONE as i128);
        let sy: i128 = (self.e[4] as i128) * (p.x as i128) + (self.e[5] as i128) * (p.y as i128) + (
        self.e[6] as i128) * (p.z as i128) + (self.e[7] as i128) * (ONE as i128);
        let sz: i128 = (self.e[8] as i128) * (p.x as i128) + (self.e[9] as i128) * (p.y as i128) + (
        self.e[10] as i128) * (p.z as i128) + (self.e[11] as i128) * (ONE as i128);
        let qx: i128 = tdiv128(sx, 1000);
        let qy: i128 = tdiv128(sy, 1000);
        let qz: i128 = tdiv128(sz, 1000);
        let lim: i128 = COORD_LIM as i128;
        if -lim <= qx && qx <= lim && -lim <= qy && qy <= lim && -lim <= qz && qz <= lim {
            Some(Point { x: qx as i64, y: qy as i64, z: qz as i64 })
        } else {
            None
        }
    }
}

impl GeometryMatrix {
    /// A copy of this matrix with every point taken through the transform;
    /// None when some transformed coordinate leaves the rasterizer's range.
    pub fn transformed(&self, t: &TransformMatrix) -> (v: Option<GeometryMatrix>)
        requires
            tm_wf(*t),
            gm_in_range(*self),
        ensures
            match v {
                Some(g) => {
                    &&& g.mode == self.mode
                    &&& g.pts@.len() == self.pts@.len()
                    &&& forall|i: int|
                        0 <= i < self.pts@.len() ==> apply_fits_s(*t, #[trigger] self.pts@[i])
                    &&& forall|i: int|
                        0 <= i < self.pts@.len() ==> #[trigger] g.pts@[i] == apply_pt_s(
                            *t,
                            self.pts@[i],
                        )
                    &&& gm_in_range(g)
                },
                None => exists|i: int|
                    0 <= i < self.pts@.len() && !apply_fits_s(*t, #[trigger] self.pts@[i]),
            },
    {
        let mut out: Vec<Point> = Vec::new();
        let n: usize = self.pts.len();
        let mut i: usize = 0;
        while i < n
            invariant
                tm_wf(*t),
                gm_in_range(*self),
                n == self.pts@.len(),
                i <= n,
                out@.len() == i,
                forall|j: int|
                    0 <= j < i as int ==> apply_fits_s(*t, #[trigger] self.pts@[j]),
                forall|j: int|
                    0 <= j < i as int ==> #[trigger] out@[j] == apply_pt_s(*t, self.pts@[j])
                        && pt_in_range(out@[j]),
            decreases n - i,
        {
            match t.apply_point(self.pts[i]) {
                Some(q) => {
                    out.push(q);
                },
                None => {
                    return None;
                },
            }
            i = i + 1;
        }
        Some(GeometryMatrix { mode: self.mode, pts: out })
    }
}

/// The last row of a product of affine matrices is again (0, 0, 0, 1).
proof fn lemma_affine_row(a: TransformMatrix, b: TransformMatrix)
    requires
        tm_wf(a),
        tm_wf(b),
    ensures
        mm_entry_s(a, b, 3, 0) == 0,
        mm_entry_s(a, b, 3, 1) == 0,
        mm_entry_s(a, b, 3, 2) == 0,
        mm_entry_s(a, b, 3, 3) == ONE as int,
{
    assert forall|c: int| 0 <= c < 4 implies mm_entry_s(a, b, 3, c) == if c == 3 {
        ONE as int
    } else {
        0
    } by {
        assert(at(a, 3, 0) == 0 && at(a, 3, 1) == 0 && at(a, 3, 2) == 0 && at(a, 3, 3)
            == ONE as int);
        assert(0 * at(b, 0, c) == 0) by (nonlinear_arith);
        assert(0 * at(b, 1, c) == 0) by (nonlinear_arith);
        assert(0 * at(b, 2, c) == 0) by (nonlinear_arith);
        lemma_tdiv_scale(at(b, 3, c));
    }
}

/// tdiv(1000 * x, 1000) == x.
proof fn lemma_tdiv_scale(x: int)
    ensures
        tdiv(1000 * x, 1000) == x,
{
    if x >= 0 {
        assert(sabs(1000 * x) == 1000 * x) by (nonlinear_arith)
            requires
                x >= 0,
        ;
        vstd::arithmetic::div_mod::lemma_div_multiples_vanish(x, 1000);
    } else {
        assert(sabs(1000 * x) == 1000 * (-x)) by (nonlinear_arith)
            requires
                x < 0,
        ;
        vstd::arithmetic::div_mod::lemma_div_multiples_vanish(-x, 1000);
    }
}

} // verus!
