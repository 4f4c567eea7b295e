//! Integer helpers shared by the drawing code.
use vstd::prelude::*;

verus! {

/// The sign of an integer: -1, 0 or 1.
pub open spec fn sign_spec(value: int) -> int {
    if value > 0 {
        1
    } else if value < 0 {
        -1
    } else {
        0
    }
}

/// Twice the signed area of the triangle (p1, p2, p3):
/// `(p1x - p3x) * (p2y - p3y) - (p2x - p3x) * (p1y - p3y)`.
pub open spec fn sign3_spec(p1x: int, p1y: int, p2x: int, p2y: int, p3x: int, p3y: int) -> int {
    (p1x - p3x) * (p2y - p3y) - (p2x - p3x) * (p1y - p3y)
}

/// An integer fits an `i32`.
pub open spec fn fits_i32(v: int) -> bool {
    i32::MIN <= v <= i32::MAX
}

/// Every step of `sign3i` on these arguments stays within `i32`.
pub open spec fn sign3_fits(p1x: int, p1y: int, p2x: int, p2y: int, p3x: int, p3y: int) -> bool {
    &&& fits_i32(p1x - p3x)
    &&& fits_i32(p2y - p3y)
    &&& fits_i32(p2x - p3x)
    &&& fits_i32(p1y - p3y)
    &&& fits_i32((p1x - p3x) * (p2y - p3y))
    &&& fits_i32((p2x - p3x) * (p1y - p3y))
    &&& fits_i32(sign3_spec(p1x, p1y, p2x, p2y, p3x, p3y))
}

/// Rust's integer division, which truncates toward zero.
pub open spec fn trunc_div(a: int, b: int) -> int {
    let q = abs_spec(a) / abs_spec(b);
    if (a < 0) == (b < 0) {
        q
    } else {
        -q
    }
}

/// The absolute value of an integer.
pub open spec fn abs_spec(v: int) -> int {
    if v < 0 {
        -v
    } else {
        v
    }
}

/// The magnitude of an `i32` as a `u32`.
fn abs_u32(v: i32) -> (m: u32)
    ensures
        m == abs_spec(v as int),
{
    if v >= 0 {
        v as u32
    } else if v == i32::MIN {
        2147483648u32
    } else {
        (-v) as u32
    }
}

/// Integer division truncating toward zero, as Rust's `/` on `i32`.
fn div_trunc(num: i32, den: i32) -> (q: i32)
    requires
        den != 0,
        !(num == i32::MIN && den == -1),
    ensures
        q == trunc_div(num as int, den as int),
{
    let n: u32 = abs_u32(num);
    let d: u32 = abs_u32(den);
    let m: u32 = n / d;
    assert(m <= n);
    if (num < 0) == (den < 0) {
        assert(d >= 2 || n <= 2147483647);
        if d == 1 {
            assert(m == n) by (nonlinear_arith)
                requires
                    d == 1,
                    m == n / d,
            ;
        } else {
            assert(m <= n / 2) by (nonlinear_arith)
                requires
                    d >= 2,
                    m == n / d,
            ;
        }
        m as i32
    } else {
        if m == 2147483648u32 {
            i32::MIN
        } else {
            -(m as i32)
        }
    }
}

/// The value that `mapi` computes: `low2 + (value - low1) * (high2 - low2) / (high1 - low1)`,
/// the division truncating toward zero.
pub open spec fn map_spec(value: int, low1: int, high1: int, low2: int, high2: int) -> int {
    low2 + trunc_div((value - low1) * (high2 - low2), high1 - low1)
}

/// Every step of `mapi` on these arguments stays within `i32` and the divisor is not zero.
pub open spec fn map_fits(value: int, low1: int, high1: int, low2: int, high2: int) -> bool {
    &&& high1 != low1
    &&& fits_i32(value - low1)
    &&& fits_i32(high2 - low2)
    &&& fits_i32(high1 - low1)
    &&& fits_i32((value - low1) * (high2 - low2))
    &&& !((value - low1) * (high2 - low2) == i32::MIN && high1 - low1 == -1)
    &&& fits_i32(map_spec(value, low1, high1, low2, high2))
}

/// The point (px, py) lies inside the triangle or on its edge: the three edge tests
/// do not have both a negative and a positive sign.
pub open spec fn in_triangle_spec(px: int, py: int, x0: int, y0: int, x1: int, y1: int, x2: int, y2: int) -> bool {
    let d1 = sign3_spec(px, py, x0, y0, x1, y1);
    let d2 = sign3_spec(px, py, x1, y1, x2, y2);
    let d3 = sign3_spec(px, py, x2, y2, x0, y0);
    let has_neg = d1 < 0 || d2 < 0 || d3 < 0;
    let has_pos = d1 > 0 || d2 > 0 || d3 > 0;
    !(has_neg && has_pos)
}

/// The three edge tests of `point_in_triangle` stay within `i32`.
pub open spec fn in_triangle_fits(px: int, py: int, x0: int, y0: int, x1: int, y1: int, x2: int, y2: int) -> bool {
    &&& sign3_fits(px, py, x0, y0, x1, y1)
    &&& sign3_fits(px, py, x1, y1, x2, y2)
    &&& sign3_fits(px, py, x2, y2, x0, y0)
}

/// Returns a 32-bit integer if the value is negative (-1), positive (1), or zero (0)
pub fn signi(value: i32) -> (s: i32)
    ensures
        s == sign_spec(value as int),
{
    if value > 0 {
        1
    } else if value < 0 {
        -1
    } else {
        0
    }
}

/// Twice the signed area of the triangle (p1, p2, p3); its sign tells on which side of the
/// line p2 -> p3 the point p1 lies.
pub fn sign3i(p1x: i32, p1y: i32, p2x: i32, p2y: i32, p3x: i32, p3y: i32) -> (s: i32)
    requires
        sign3_fits(p1x as int, p1y as int, p2x as int, p2y as int, p3x as int, p3y as int),
    ensures
        s == sign3_spec(p1x as int, p1y as int, p2x as int, p2y as int, p3x as int, p3y as int),
{
    (p1x - p3x) * (p2y - p3y) - (p2x - p3x) * (p1y - p3y)
}

/// Maps `value` from the range [low1, high1] onto the range [low2, high2].
pub fn mapi(value: i32, low1: i32, high1: i32, low2: i32, high2: i32) -> (m: i32)
    requires
        map_fits(value as int, low1 as int, high1 as int, low2 as int, high2 as int),
    ensures
        m == map_spec(value as int, low1 as int, high1 as int, low2 as int, high2 as int),
{
    let num: i32 = (value - low1) * (high2 - low2);
    let den: i32 = high1 - low1;
    let q: i32 = div_trunc(num, den);
    low2 + q
}

/// Tests whether the point (px, py) lies inside the triangle (x0, y0), (x1, y1), (x2, y2),
/// edges included.
pub fn point_in_triangle(px: i32, py: i32, x0: i32, y0: i32, x1: i32, y1: i32, x2: i32, y2: i32) -> (inside: bool)
    requires
        in_triangle_fits(px as int, py as int, x0 as int, y0 as int, x1 as int, y1 as int, x2 as int, y2 as int),
    ensures
        inside == in_triangle_spec(px as int, py as int, x0 as int, y0 as int, x1 as int, y1 as int, x2 as int, y2 as int),
{
    let d1 = sign3i(px, py, x0, y0, x1, y1);
    let d2 = sign3i(px, py, x1, y1, x2, y2);
    let d3 = sign3i(px, py, x2, y2, x0, y0);

    let has_neg = (d1 < 0) || (d2 < 0) || (d3 < 0);
    let has_pos = (d1 > 0) || (d2 > 0) || (d3 > 0);

    let is_inside: bool = !(has_neg && has_pos);
    is_inside
}

} // verus!
