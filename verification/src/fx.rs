//! Fixed-point scalars: geometric quantities are i64 counts of milli-units,
//! so that one unit of continuous space is `ONE` == 1000. Division truncates
//! toward zero and rounding to a pixel rounds half away from zero, mirroring
//! the usual float-to-integer conventions.
use vstd::prelude::*;

verus! {

use vstd::arithmetic::div_mod::lemma_fundamental_div_mod;
use vstd::arithmetic::div_mod::lemma_fundamental_div_mod_converse;

/// One whole unit in fixed-point milli-units.
pub const ONE: i64 = 1000;

/// Coordinates handed to the rasterizer are kept within this many milli-units
/// (one million units), so that every intermediate of the scan conversion fits i64.
pub const COORD_LIM: i64 = 4_000_000_000;

/// Transform-matrix entries are kept within this bound so that a 4-term
/// product row fits in i128 during multiplication.
pub const MAT_LIM: i64 = 0x2000_0000_0000_0000;

pub open spec fn sabs(a: int) -> int {
    if a < 0 {
        -a
    } else {
        a
    }
}

/// Division truncating toward zero (the sign of the result is the sign of a*b).
pub open spec fn tdiv(a: int, b: int) -> int
    recommends
        b != 0,
{
    if (a < 0) == (b < 0) {
        sabs(a) / sabs(b)
    } else {
        -(sabs(a) / sabs(b))
    }
}

/// Product of two fixed-point scalars, rescaled to milli-units.
pub open spec fn fx_mul_s(a: int, b: int) -> int {
    tdiv(a * b, ONE as int)
}

/// Quotient of two fixed-point scalars, rescaled to milli-units.
pub open spec fn fx_div_s(a: int, b: int) -> int
    recommends
        b != 0,
{
    tdiv(a * ONE as int, b)
}

/// Nearest integer pixel of a fixed-point coordinate, half rounding away from zero.
pub open spec fn px_of(a: int) -> int {
    if a < 0 {
        -((-a + 500) / 1000)
    } else {
        (a + 500) / 1000
    }
}

proof fn lemma_nonneg_div_le(a: int, b: int)
    requires
        0 <= a,
        1 <= b,
    ensures
        0 <= a / b <= a,
{
    lemma_fundamental_div_mod(a, b);
    assert(a == b * (a / b) + a % b);
    assert(0 <= a % b < b);
    assert(a / b >= 0) by (nonlinear_arith)
        requires
            a == b * (a / b) + a % b,
            0 <= a % b < b,
            0 <= a,
            1 <= b,
    ;
    assert(a / b <= a) by (nonlinear_arith)
        requires
            a == b * (a / b) + a % b,
            0 <= a % b < b,
            0 <= a / b,
            1 <= b,
    ;
}

/// Truncating quotient by a positive divisor is bounded by any bound on |a|/d.
pub proof fn lemma_tdiv_bound(a: int, b: int, c: int)
    requires
        1 <= b,
        sabs(a) <= b * c,
        0 <= c,
    ensures
        sabs(tdiv(a, b)) <= c,
{
    lemma_fundamental_div_mod(sabs(a), b);
    assert(sabs(a) / b <= c) by (nonlinear_arith)
        requires
            sabs(a) == b * (sabs(a) / b) + sabs(a) % b,
            0 <= sabs(a) % b < b,
            sabs(a) <= b * c,
            0 <= c,
            1 <= b,
    ;
    lemma_nonneg_div_le(sabs(a), b);
}

/// A fixed-point quotient by a divisor of at least one whole unit never
/// grows past its numerator.
pub proof fn lemma_fx_div_le(a: int, b: int)
    requires
        b >= 1000,
    ensures
        sabs(fx_div_s(a, b)) <= sabs(a),
{
    assert(sabs(a * 1000) == sabs(a) * 1000) by (nonlinear_arith);
    assert(sabs(a) * 1000 <= b * sabs(a)) by (nonlinear_arith)
        requires
            b >= 1000,
            0 <= sabs(a),
    ;
    lemma_tdiv_bound(a * 1000, b, sabs(a));
}

/// A truncating quotient multiplied back by its divisor stays within the
/// numerator's magnitude.
pub proof fn lemma_tdiv_times_divisor(a: int, b: int)
    requires
        b >= 1,
    ensures
        sabs(tdiv(a, b)) * b <= sabs(a),
{
    lemma_fundamental_div_mod(sabs(a), b);
    assert((sabs(a) / b) * b <= sabs(a)) by (nonlinear_arith)
        requires
            sabs(a) == b * (sabs(a) / b) + sabs(a) % b,
            0 <= sabs(a) % b,
    ;
}

/// The pixel of a coordinate is within a thousandth of it, up to rounding.
pub proof fn lemma_px_mag(a: int)
    ensures
        sabs(px_of(a)) * 1000 <= sabs(a) + 500,
{
    if a < 0 {
        lemma_fundamental_div_mod(-a + 500, 1000);
        lemma_nonneg_div_le(-a + 500, 1000);
    } else {
        lemma_fundamental_div_mod(a + 500, 1000);
        lemma_nonneg_div_le(a + 500, 1000);
    }
}

/// Truncating division of i64 values.
pub fn tdiv64(a: i64, b: i64) -> (r: i64)
    requires
        b != 0,
        -0x4000_0000_0000_0000 < a < 0x4000_0000_0000_0000,
        -0x4000_0000_0000_0000 < b < 0x4000_0000_0000_0000,
    ensures
        r == tdiv(a as int, b as int),
        sabs(r as int) <= sabs(a as int),
{
    let am: i64 = if a < 0 {
        -a
    } else {
        a
    };
    let bm: i64 = if b < 0 {
        -b
    } else {
        b
    };
    let q: i64 = am / bm;
    proof {
        lemma_nonneg_div_le(am as int, bm as int);
    }
    if (a < 0) != (b < 0) {
        -q
    } else {
        q
    }
}

/// Truncating division of i128 values, for wide intermediate products.
pub fn tdiv128(a: i128, b: i128) -> (r: i128)
    requires
        b != 0,
        -0x4000_0000_0000_0000_0000_0000_0000_0000 < a < 0x4000_0000_0000_0000_0000_0000_0000_0000,
        -0x4000_0000_0000_0000_0000_0000_0000_0000 < b < 0x4000_0000_0000_0000_0000_0000_0000_0000,
    ensures
        r == tdiv(a as int, b as int),
        sabs(r as int) <= sabs(a as int),
{
    let am: i128 = if a < 0 {
        -a
    } else {
        a
    };
    let bm: i128 = if b < 0 {
        -b
    } else {
        b
    };
    let q: i128 = am / bm;
    proof {
        lemma_nonneg_div_le(am as int, bm as int);
    }
    if (a < 0) != (b < 0) {
        -q
    } else {
        q
    }
}

/// Fixed-point multiply with a bound that keeps the product within i64.
pub fn fx_mul(a: i64, b: i64) -> (r: i64)
    requires
        -0x100_0000_0000 <= a <= 0x100_0000_0000,
        -0x10_0000 <= b <= 0x10_0000,
    ensures
        r == fx_mul_s(a as int, b as int),
{
    proof {
        assert(-0x100_0000_0000 * 0x10_0000 <= a as int * b as int <= 0x100_0000_0000
            * 0x10_0000) by (nonlinear_arith)
            requires
                -0x100_0000_0000 <= a <= 0x100_0000_0000,
                -0x10_0000 <= b <= 0x10_0000,
        ;
    }
    let p: i64 = a * b;
    tdiv64(p, ONE)
}

/// Fixed-point divide.
pub fn fx_div(a: i64, b: i64) -> (r: i64)
    requires
        b != 0,
        -0x4000_0000_0000 <= a <= 0x4000_0000_0000,
        -0x4000_0000_0000_0000 < b < 0x4000_0000_0000_0000,
    ensures
        r == fx_div_s(a as int, b as int),
{
    let p: i64 = a * ONE;
    tdiv64(p, b)
}

/// Round a fixed-point coordinate to its pixel, half away from zero.
pub fn round_px(a: i64) -> (r: i64)
    requires
        -0x4000_0000_0000_0000 < a < 0x4000_0000_0000_0000,
    ensures
        r == px_of(a as int),
        1000 * r <= sabs(a as int) + 500,
        sabs(r as int) * 1000 <= sabs(a as int) + 500,
{
    if a < 0 {
        let m: i64 = -a;
        let q: i64 = (m + 500) / 1000;
        proof {
            lemma_nonneg_div_le((m + 500) as int, 1000);
            lemma_fundamental_div_mod((m + 500) as int, 1000);
        }
        -q
    } else {
        let q: i64 = (a + 500) / 1000;
        proof {
            lemma_nonneg_div_le((a + 500) as int, 1000);
            lemma_fundamental_div_mod((a + 500) as int, 1000);
        }
        q
    }
}

/// An angle in milli-degrees, wrapped into [0, 360000).
pub open spec fn wrap_deg_s(a: int) -> int {
    a % 360000
}

/// Bhaskara's rational sine approximation for a half turn, in milli-units:
/// for d in [0, 180] degrees, sin d is close to 4d(180-d) / (40500 - d(180-d)).
pub open spec fn half_sin_s(dm: int) -> int
    recommends
        0 <= dm <= 180000,
{
    tdiv(4000 * dm * (180000 - dm), 40500000000 - dm * (180000 - dm))
}

/// Milli-sine of an angle in milli-degrees.
pub open spec fn sin_milli_s(a: int) -> int {
    if wrap_deg_s(a) <= 180000 {
        half_sin_s(wrap_deg_s(a))
    } else {
        -half_sin_s(wrap_deg_s(a) - 180000)
    }
}

/// Milli-cosine of an angle in milli-degrees.
pub open spec fn cos_milli_s(a: int) -> int {
    sin_milli_s(a + 90000)
}

/// Wrap an angle in milli-degrees into [0, 360000).
pub fn wrap_deg(a: i64) -> (r: i64)
    requires
        -0x4000_0000_0000_0000 < a < 0x4000_0000_0000_0000,
    ensures
        r == wrap_deg_s(a as int),
        0 <= r < 360000,
{
    if a >= 0 {
        let q: i64 = a / 360000;
        proof {
            lemma_fundamental_div_mod(a as int, 360000);
            lemma_nonneg_div_le(a as int, 360000);
        }
        a - q * 360000
    } else {
        let m: i64 = -a;
        let qm: i64 = m / 360000;
        proof {
            lemma_fundamental_div_mod(m as int, 360000);
            lemma_nonneg_div_le(m as int, 360000);
        }
        let rm: i64 = m - qm * 360000;
        if rm == 0 {
            proof {
                lemma_fundamental_div_mod_converse(a as int, 360000, -(qm as int), 0);
            }
            0
        } else {
            proof {
                lemma_fundamental_div_mod_converse(
                    a as int,
                    360000,
                    -(qm as int) - 1,
                    360000 - rm as int,
                );
            }
            360000 - rm
        }
    }
}

/// The quadratic d(180000 - d) stays within [0, 8.1e9] on [0, 180000].
proof fn lemma_half_turn_quadratic(dm: int)
    requires
        0 <= dm <= 180000,
    ensures
        0 <= dm * (180000 - dm) <= 8100000000,
{
    assert(0 <= dm * (180000 - dm) <= 8100000000) by (nonlinear_arith)
        requires
            0 <= dm <= 180000,
    ;
}

/// Bhaskara's half-turn sine, evaluated in integers.
fn half_sin(dm: i64) -> (r: i64)
    requires
        0 <= dm <= 180000,
    ensures
        r == half_sin_s(dm as int),
        0 <= r <= 1000,
{
    proof {
        lemma_half_turn_quadratic(dm as int);
    }
    let q: i64 = dm * (180000 - dm);
    let num: i64 = 4000 * q;
    let den: i64 = 40500000000 - q;
    let r: i64 = num / den;
    proof {
        let n = num as int;
        let d = den as int;
        lemma_nonneg_div_le(n, d);
        lemma_fundamental_div_mod(n, d);
        assert(n / d <= 1000) by (nonlinear_arith)
            requires
                n == 4000 * (q as int),
                d == 40500000000 - q as int,
                0 <= q as int <= 8100000000,
                n == d * (n / d) + n % d,
                0 <= n % d < d,
                0 <= n / d,
        ;
        assert(4000 * (dm as int) * (180000 - dm as int) == 4000 * ((dm as int) * (180000
            - dm as int))) by (nonlinear_arith);
        assert(half_sin_s(dm as int) == n / d);
    }
    r
}

/// Milli-sine of an angle given in milli-degrees.
pub fn sin_milli(a: i64) -> (r: i64)
    requires
        -0x4000_0000_0000_0000 < a < 0x4000_0000_0000_0000,
    ensures
        r == sin_milli_s(a as int),
        -1000 <= r <= 1000,
{
    let w: i64 = wrap_deg(a);
    if w <= 180000 {
        half_sin(w)
    } else {
        -half_sin(w - 180000)
    }
}

/// Milli-cosine of an angle given in milli-degrees.
pub fn cos_milli(a: i64) -> (r: i64)
    requires
        -0x4000_0000_0000_0000 < a < 0x3000_0000_0000_0000,
    ensures
        r == cos_milli_s(a as int),
        -1000 <= r <= 1000,
{
    sin_milli(a + 90000)
}

} // verus!
