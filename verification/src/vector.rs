//! Plain 3-vectors of fixed-point scalars, with dot and cross products.
use vstd::prelude::*;

verus! {

use crate::fx::{tdiv, tdiv128, sabs, COORD_LIM};

/// A 3-vector of fixed-point milli-unit components.
#[derive(Clone, Copy, PartialEq, Eq, Structural, Debug)]
pub struct Vec3(pub i64, pub i64, pub i64);

/// All components within the coordinate range the rasterizer accepts.
pub open spec fn vec3_in_range(v: Vec3) -> bool {
    &&& sabs(v.0 as int) <= COORD_LIM as int
    &&& sabs(v.1 as int) <= COORD_LIM as int
    &&& sabs(v.2 as int) <= COORD_LIM as int
}

/// Fixed-point dot product.
pub open spec fn dot_s(a: Vec3, b: Vec3) -> int {
    tdiv(a.0 * b.0 + a.1 * b.1 + a.2 * b.2, 1000)
}

/// The x component of the fixed-point cross product.
pub open spec fn cross_x_s(a: Vec3, b: Vec3) -> int {
    tdiv(a.1 * b.2 - a.2 * b.1, 1000)
}

/// The y component of the fixed-point cross product.
pub open spec fn cross_y_s(a: Vec3, b: Vec3) -> int {
    tdiv(a.2 * b.0 - a.0 * b.2, 1000)
}

/// The z component of the fixed-point cross product.
pub open spec fn cross_z_s(a: Vec3, b: Vec3) -> int {
    tdiv(a.0 * b.1 - a.1 * b.0, 1000)
}

proof fn lemma_range_product(a: i64, b: i64)
    requires
        sabs(a as int) <= COORD_LIM as int,
        sabs(b as int) <= COORD_LIM as int,
    ensures
        -16000000000000000000 <= a as int * b as int <= 16000000000000000000,
{
    assert(-16000000000000000000 <= a as int * b as int
        <= 16000000000000000000) by (nonlinear_arith)
        requires
            sabs(a as int) <= COORD_LIM as int,
            sabs(b as int) <= COORD_LIM as int,
    ;
}

impl Vec3 {
    /// Fixed-point dot product of two vectors.
    pub fn dot(&self, other: Self) -> (r: i64)
        requires
            vec3_in_range(*self),
            vec3_in_range(other),
        ensures
            r == dot_s(*self, other),
    {
        proof {
            lemma_range_product(self.0, other.0);
            lemma_range_product(self.1, other.1);
            lemma_range_product(self.2, other.2);
        }
        let s: i128 = (self.0 as i128) * (other.0 as i128) + (self.1 as i128) * (other.1 as i128)
            + (self.2 as i128) * (other.2 as i128);
        proof {
            crate::fx::lemma_tdiv_bound(s as int, 1000, 48000000000000000);
        }
        let q: i128 = tdiv128(s, 1000);
        q as i64
    }

    /// Fixed-point cross product of two vectors.
    pub fn cross(&self, other: Self) -> (r: Vec3)
        requires
            vec3_in_range(*self),
            vec3_in_range(other),
        ensures
            r.0 == cross_x_s(*self, other),
            r.1 == cross_y_s(*self, other),
            r.2 == cross_z_s(*self, other),
    {
        proof {
            lemma_range_product(self.0, other.0);
            lemma_range_product(self.0, other.1);
            lemma_range_product(self.0, other.2);
            lemma_range_product(self.1, other.0);
            lemma_range_product(self.1, other.2);
            lemma_range_product(self.2, other.0);
            lemma_range_product(self.2, other.1);
        }
        let cx: i128 = (self.1 as i128) * (other.2 as i128) - (self.2 as i128) * (other.1 as i128);
        let cy: i128 = (self.2 as i128) * (other.0 as i128) - (self.0 as i128) * (other.2 as i128);
        let cz: i128 = (self.0 as i128) * (other.1 as i128) - (self.1 as i128) * (other.0 as i128);
        proof {
            crate::fx::lemma_tdiv_bound(cx as int, 1000, 32000000000000000);
            crate::fx::lemma_tdiv_bound(cy as int, 1000, 32000000000000000);
            crate::fx::lemma_tdiv_bound(cz as int, 1000, 32000000000000000);
        }
        let qx: i128 = tdiv128(cx, 1000);
        let qy: i128 = tdiv128(cy, 1000);
        let qz: i128 = tdiv128(cz, 1000);
        Vec3(qx as i64, qy as i64, qz as i64)
    }
}

} // verus!
