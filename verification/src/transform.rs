//! Constructors for the affine transforms the scripting commands compose:
//! translation, scale, and rotation about each axis.
use vstd::prelude::*;

verus! {

use crate::fx::{sabs, cos_milli_s, sin_milli_s, cos_milli, sin_milli, ONE, MAT_LIM};
use crate::geom::{TransformMatrix, at, tm_wf};

/// Build a transform from sixteen row-major entries.
fn tm_from(v: [i64; 16]) -> (m: TransformMatrix)
    requires
        forall|i: int| 0 <= i < 16 ==> sabs(#[trigger] v@[i] as int) <= MAT_LIM as int,
        v@[12] == 0,
        v@[13] == 0,
        v@[14] == 0,
        v@[15] == ONE,
    ensures
        tm_wf(m),
        forall|r: int, c: int|
            0 <= r < 4 && 0 <= c < 4 ==> #[trigger] at(m, r, c) == v@[4 * r + c] as int,
{
    let m = TransformMatrix { e: v };
    proof {
        assert forall|r: int, c: int| 0 <= r < 4 && 0 <= c < 4 implies #[trigger] at(m, r, c)
            == v@[4 * r + c] as int by {
            assert(0 <= 4 * r + c < 16);
        }
    }
    m
}

/// The translation taking the origin to (tx, ty, tz).
pub open spec fn is_translate(m: TransformMatrix, tx: int, ty: int, tz: int) -> bool {
    &&& tm_wf(m)
    &&& at(m, 0, 0) == ONE as int && at(m, 0, 1) == 0 && at(m, 0, 2) == 0 && at(m, 0, 3) == tx
    &&& at(m, 1, 0) == 0 && at(m, 1, 1) == ONE as int && at(m, 1, 2) == 0 && at(m, 1, 3) == ty
    &&& at(m, 2, 0) == 0 && at(m, 2, 1) == 0 && at(m, 2, 2) == ONE as int && at(m, 2, 3) == tz
}

/// The scale with factors (sx, sy, sz) on the axes.
pub open spec fn is_scale(m: TransformMatrix, sx: int, sy: int, sz: int) -> bool {
    &&& tm_wf(m)
    &&& at(m, 0, 0) == sx && at(m, 0, 1) == 0 && at(m, 0, 2) == 0 && at(m, 0, 3) == 0
    &&& at(m, 1, 0) == 0 && at(m, 1, 1) == sy && at(m, 1, 2) == 0 && at(m, 1, 3) == 0
    &&& at(m, 2, 0) == 0 && at(m, 2, 1) == 0 && at(m, 2, 2) == sz && at(m, 2, 3) == 0
}

/// The rotation about the x axis by an angle in milli-degrees.
pub open spec fn is_rotate_x(m: TransformMatrix, deg: int) -> bool {
    &&& tm_wf(m)
    &&& at(m, 0, 0) == ONE as int && at(m, 0, 1) == 0 && at(m, 0, 2) == 0 && at(m, 0, 3) == 0
    &&& at(m, 1, 0) == 0 && at(m, 1, 1) == cos_milli_s(deg) && at(m, 1, 2) == -sin_milli_s(deg)
        && at(m, 1, 3) == 0
    &&& at(m, 2, 0) == 0 && at(m, 2, 1) == sin_milli_s(deg) && at(m, 2, 2) == cos_milli_s(deg)
        && at(m, 2, 3) == 0
}

/// The rotation about the y axis by an angle in milli-degrees.
pub open spec fn is_rotate_y(m: TransformMatrix, deg: int) -> bool {
    &&& tm_wf(m)
    &&& at(m, 0, 0) == cos_milli_s(deg) && at(m, 0, 1) == 0 && at(m, 0, 2) == sin_milli_s(deg)
        && at(m, 0, 3) == 0
    &&& at(m, 1, 0) == 0 && at(m, 1, 1) == ONE as int && at(m, 1, 2) == 0 && at(m, 1, 3) == 0
    &&& at(m, 2, 0) == -sin_milli_s(deg) && at(m, 2, 1) == 0 && at(m, 2, 2) == cos_milli_s(deg)
        && at(m, 2, 3) == 0
}

/// The rotation about the z axis by an angle in milli-degrees.
pub open spec fn is_rotate_z(m: TransformMatrix, deg: int) -> bool {
    &&& tm_wf(m)
    &&& at(m, 0, 0) == cos_milli_s(deg) && at(m, 0, 1) == -sin_milli_s(deg) && at(m, 0, 2) == 0
        && at(m, 0, 3) == 0
    &&& at(m, 1, 0) == sin_milli_s(deg) && at(m, 1, 1) == cos_milli_s(deg) && at(m, 1, 2) == 0
        && at(m, 1, 3) == 0
    &&& at(m, 2, 0) == 0 && at(m, 2, 1) == 0 && at(m, 2, 2) == ONE as int && at(m, 2, 3) == 0
}

/// Translation by (tx, ty, tz), in milli-units.
pub fn mv(tx: i64, ty: i64, tz: i64) -> (m: TransformMatrix)
    requires
        sabs(tx as int) <= MAT_LIM as int,
        sabs(ty as int) <= MAT_LIM as int,
        sabs(tz as int) <= MAT_LIM as int,
    ensures
        is_translate(m, tx as int, ty as int, tz as int),
{
    tm_from([ONE, 0, 0, tx, 0, ONE, 0, ty, 0, 0, ONE, tz, 0, 0, 0, ONE])
}

/// Scale by milli-unit factors (sx, sy, sz).
pub fn scale(sx: i64, sy: i64, sz: i64) -> (m: TransformMatrix)
    requires
        sabs(sx as int) <= MAT_LIM as int,
        sabs(sy as int) <= MAT_LIM as int,
        sabs(sz as int) <= MAT_LIM as int,
    ensures
        is_scale(m, sx as int, sy as int, sz as int),
{
    tm_from([sx, 0, 0, 0, 0, sy, 0, 0, 0, 0, sz, 0, 0, 0, 0, ONE])
}

/// Rotation about the x axis by an angle in milli-degrees.
pub fn rotatex(deg: i64) -> (m: TransformMatrix)
    requires
        -0x4000_0000_0000_0000 < deg < 0x3000_0000_0000_0000,
    ensures
        is_rotate_x(m, deg as int),
{
    let c: i64 = cos_milli(deg);
    let s: i64 = sin_milli(deg);
    tm_from([ONE, 0, 0, 0, 0, c, -s, 0, 0, s, c, 0, 0, 0, 0, ONE])
}

/// Rotation about the y axis by an angle in milli-degrees.
pub fn rotatey(deg: i64) -> (m: TransformMatrix)
    requires
        -0x4000_0000_0000_0000 < deg < 0x3000_0000_0000_0000,
    ensures
        is_rotate_y(m, deg as int),
{
    let c: i64 = cos_milli(deg);
    let s: i64 = sin_milli(deg);
    tm_from([c, 0, s, 0, 0, ONE, 0, 0, -s, 0, c, 0, 0, 0, 0, ONE])
}

/// Rotation about the z axis by an angle in milli-degrees.
pub fn rotatez(deg: i64) -> (m: TransformMatrix)
    requires
        -0x4000_0000_0000_0000 < deg < 0x3000_0000_0000_0000,
    ensures
        is_rotate_z(m, deg as int),
{
    let c: i64 = cos_milli(deg);
    let s: i64 = sin_milli(deg);
    tm_from([c, -s, 0, 0, s, c, 0, 0, 0, 0, ONE, 0, 0, 0, 0, ONE])
}

} // verus!
